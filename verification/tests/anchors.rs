use retinaface_post::anchors::{config_is_valid, generate_priors, grid_cells, prior_box, Prior};

fn default_sizes() -> Vec<Vec<usize>> {
    vec![vec![16, 32], vec![64, 128], vec![256, 512]]
}

fn default_steps() -> Vec<usize> {
    vec![8, 16, 32]
}

/// The anchor as the four normalised numbers `(cx, cy, w, h)`.
fn as_floats(p: &Prior, image_size: [usize; 2]) -> [f32; 4] {
    let x_den = (2 * image_size[1]) as f32;
    let y_den = (2 * image_size[0]) as f32;
    [
        p.center_x as f32 / x_den,
        p.center_y as f32 / y_den,
        p.width as f32 / x_den,
        p.height as f32 / y_den,
    ]
}

#[test]
fn grid_cells_is_the_ceiling() {
    assert_eq!(grid_cells(640, 8), 80);
    assert_eq!(grid_cells(640, 32), 20);
    assert_eq!(grid_cells(100, 32), 4);
    assert_eq!(grid_cells(96, 32), 3);
    assert_eq!(grid_cells(1, 32), 1);
    assert_eq!(grid_cells(0, 32), 0);
    assert_eq!(grid_cells(usize::MAX, 1), usize::MAX);
    assert_eq!(grid_cells(usize::MAX, 2), usize::MAX / 2 + 1);
}

#[test]
fn single_cell_single_size() {
    let (priors, count) = prior_box(vec![vec![16]], vec![640], false, [640, 640]);
    assert_eq!(count, 1);
    assert_eq!(
        priors,
        vec![Prior { center_x: 640, center_y: 640, width: 32, height: 32 }]
    );
    assert_eq!(as_floats(&priors[0], [640, 640]), [0.5, 0.5, 0.025, 0.025]);
}

#[test]
fn default_configuration_on_640_by_640() {
    let (priors, count) = prior_box(default_sizes(), default_steps(), false, [640, 640]);
    assert_eq!(count, 80 * 80 * 2 + 40 * 40 * 2 + 20 * 20 * 2);
    assert_eq!(count, 16800);
    assert_eq!(priors.len(), count);
    // level 0, cell (0, 0): both sizes, in the order given
    assert_eq!(priors[0], Prior { center_x: 8, center_y: 8, width: 32, height: 32 });
    assert_eq!(priors[1], Prior { center_x: 8, center_y: 8, width: 64, height: 64 });
    // level 0, cell (0, 1): columns run first
    assert_eq!(priors[2], Prior { center_x: 24, center_y: 8, width: 32, height: 32 });
    // level 0, cell (1, 0) comes after the 80 cells of row 0
    assert_eq!(priors[160], Prior { center_x: 8, center_y: 24, width: 32, height: 32 });
    // level 1 starts after the 12800 anchors of level 0
    assert_eq!(priors[12800], Prior { center_x: 16, center_y: 16, width: 128, height: 128 });
    // level 2 starts after the 3200 anchors of level 1
    assert_eq!(priors[16000], Prior { center_x: 32, center_y: 32, width: 512, height: 512 });
    // the last anchor: level 2, cell (19, 19), second size
    assert_eq!(
        priors[16799],
        Prior { center_x: 39 * 32, center_y: 39 * 32, width: 1024, height: 1024 }
    );
}

#[test]
fn anchors_follow_the_index_formula() {
    let sizes = default_sizes();
    let steps = default_steps();
    let image = [480usize, 640usize];
    let (priors, count) = prior_box(sizes.clone(), steps.clone(), false, image);
    let mut offset = 0usize;
    for k in 0..steps.len() {
        let rows = grid_cells(image[0], steps[k]);
        let cols = grid_cells(image[1], steps[k]);
        let n = sizes[k].len();
        for i in 0..rows {
            for j in 0..cols {
                for a in 0..n {
                    let p = priors[offset + (i * cols + j) * n + a];
                    assert_eq!(p.center_x, ((2 * j + 1) * steps[k]) as u128);
                    assert_eq!(p.center_y, ((2 * i + 1) * steps[k]) as u128);
                    assert_eq!(p.width, (2 * sizes[k][a]) as u128);
                    assert_eq!(p.height, (2 * sizes[k][a]) as u128);
                }
            }
        }
        offset += rows * cols * n;
    }
    assert_eq!(offset, count);
}

#[test]
fn anchors_match_the_formulas_in_single_precision() {
    let image = [480usize, 640usize];
    let (priors, _) = prior_box(default_sizes(), default_steps(), false, image);
    // level 0, row 3, column 5, first size
    let p = priors[(3 * 80 + 5) * 2];
    let got = as_floats(&p, image);
    assert_eq!(got[0], (5.0f32 + 0.5) * 8.0 / 640.0);
    assert_eq!(got[1], (3.0f32 + 0.5) * 8.0 / 480.0);
    assert_eq!(got[2], 16.0f32 / 640.0);
    assert_eq!(got[3], 16.0f32 / 480.0);
}

#[test]
fn grid_is_rounded_up() {
    // 100 / 32 is 3.125: four rows and four columns
    let (priors, count) = prior_box(vec![vec![8]], vec![32], false, [100, 100]);
    assert_eq!(count, 16);
    // the last cell starts inside the image and its centre lies outside it
    assert_eq!(priors[15], Prior { center_x: 224, center_y: 224, width: 16, height: 16 });
}

#[test]
fn clipping_cuts_every_coordinate_off_at_one() {
    let (open, _) = prior_box(vec![vec![8, 300]], vec![32], false, [100, 200]);
    let (cut, count) = prior_box(vec![vec![8, 300]], vec![32], true, [100, 200]);
    assert_eq!(count, 4 * 7 * 2);
    // row 3, column 6: centre (6.5 * 32 / 200, 3.5 * 32 / 100) = (1.04, 1.12)
    let at = (3 * 7 + 6) * 2;
    assert_eq!(open[at], Prior { center_x: 416, center_y: 224, width: 16, height: 16 });
    assert_eq!(cut[at], Prior { center_x: 400, center_y: 200, width: 16, height: 16 });
    // the size 300 is wider than both sides
    assert_eq!(open[at + 1], Prior { center_x: 416, center_y: 224, width: 600, height: 600 });
    assert_eq!(cut[at + 1], Prior { center_x: 400, center_y: 200, width: 400, height: 200 });
    // what lies inside stays
    assert_eq!(cut[0], open[0]);
    for p in cut.iter() {
        let f = as_floats(p, [100, 200]);
        for v in f {
            assert!((0.0..=1.0).contains(&v));
        }
    }
}

#[test]
fn empty_image_and_empty_levels_give_no_anchor() {
    assert_eq!(prior_box(default_sizes(), default_steps(), false, [0, 640]).1, 0);
    assert_eq!(prior_box(default_sizes(), default_steps(), false, [640, 0]).1, 0);
    assert_eq!(prior_box(vec![], vec![], false, [640, 640]).1, 0);
    let (priors, count) = prior_box(vec![vec![], vec![64]], vec![8, 320], false, [640, 640]);
    assert_eq!(count, 4);
    assert_eq!(priors[0], Prior { center_x: 320, center_y: 320, width: 128, height: 128 });
}

#[test]
fn generator_is_deterministic() {
    let a = prior_box(default_sizes(), default_steps(), false, [320, 512]);
    let b = prior_box(default_sizes(), default_steps(), false, [320, 512]);
    let c = generate_priors(&default_sizes(), &default_steps(), false, [320, 512]);
    assert_eq!(a, b);
    assert_eq!(a, c);
}

#[test]
fn validity_of_configurations() {
    assert!(config_is_valid(&default_sizes(), &default_steps(), false, [640, 640]));
    assert!(config_is_valid(&vec![], &vec![], true, [640, 640]));
    // one list of sizes per stride
    assert!(!config_is_valid(&default_sizes(), &vec![8, 16], false, [640, 640]));
    assert!(!config_is_valid(&vec![vec![16]], &vec![8, 16], false, [640, 640]));
    // every stride positive
    assert!(!config_is_valid(&default_sizes(), &vec![8, 0, 32], false, [640, 640]));
    // a total that a usize can hold
    assert!(!config_is_valid(
        &vec![vec![16, 32]],
        &vec![1],
        false,
        [usize::MAX, usize::MAX]
    ));
    assert!(!config_is_valid(
        &vec![vec![16], vec![16]],
        &vec![1, 1],
        false,
        [1, usize::MAX]
    ));
    assert!(config_is_valid(&vec![vec![16]], &vec![1], false, [1, usize::MAX]));
    // a level without sizes adds nothing, however large its grid
    assert!(config_is_valid(&vec![vec![]], &vec![1], false, [usize::MAX, usize::MAX]));
}
