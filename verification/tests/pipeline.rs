use ndarray::{Array1, Array2};
use powerboxesrs::nms::nms;
use retinaface_post::anchors::{prior_box, Prior};
use retinaface_post::batch::{batch_candidates, batch_faces};
use retinaface_post::cache::AnchorCache;
use retinaface_post::config::PostProcessConfig;
use retinaface_post::detections::{DecodedImage, FoundFace};
use retinaface_post::tensor::RawOutputs;

/// The anchor as `(cx, cy, w, h)` in normalised coordinates.
fn prior_floats(p: &Prior, image_size: [usize; 2]) -> [f32; 4] {
    let x_den = (2 * image_size[1]) as f32;
    let y_den = (2 * image_size[0]) as f32;
    [
        p.center_x as f32 / x_den,
        p.center_y as f32 / y_den,
        p.width as f32 / x_den,
        p.height as f32 / y_den,
    ]
}

/// The box `(x_min, y_min, x_max, y_max)` in pixels that the offsets give.
fn decode_box(loc: &[f32], prior: [f32; 4], variance: [f32; 2], image_size: [usize; 2]) -> [f32; 4] {
    let (h, w) = (image_size[0] as f32, image_size[1] as f32);
    let cx = prior[0] + loc[0] * variance[0] * prior[2];
    let cy = prior[1] + loc[1] * variance[0] * prior[3];
    let bw = prior[2] * (loc[2] * variance[1]).exp();
    let bh = prior[3] * (loc[3] * variance[1]).exp();
    let x_min = cx - bw / 2.0;
    let y_min = cy - bh / 2.0;
    [x_min * w, y_min * h, (x_min + bw) * w, (y_min + bh) * h]
}

/// The offsets that make `decode_box` give the box `wanted`.
fn encode_box(wanted: [f32; 4], prior: [f32; 4], variance: [f32; 2], image_size: [usize; 2]) -> [f32; 4] {
    let (h, w) = (image_size[0] as f32, image_size[1] as f32);
    let (x0, y0, x1, y1) = (wanted[0] / w, wanted[1] / h, wanted[2] / w, wanted[3] / h);
    let (bw, bh) = (x1 - x0, y1 - y0);
    [
        ((x0 + bw / 2.0) - prior[0]) / (variance[0] * prior[2]),
        ((y0 + bh / 2.0) - prior[1]) / (variance[0] * prior[3]),
        (bw / prior[2]).ln() / variance[1],
        (bh / prior[3]).ln() / variance[1],
    ]
}

/// The ten landmark coordinates in pixels that the offsets give.
fn decode_landmarks(pre: &[f32], prior: [f32; 4], variance: [f32; 2], image_size: [usize; 2]) -> [f32; 10] {
    let (h, w) = (image_size[0] as f32, image_size[1] as f32);
    let mut out = [0.0f32; 10];
    for p in 0..5 {
        out[2 * p] = (prior[0] + pre[2 * p] * variance[0] * prior[2]) * w;
        out[2 * p + 1] = (prior[1] + pre[2 * p + 1] * variance[0] * prior[3]) * h;
    }
    out
}

/// The probability of the second of two classes.
fn face_score(logits: &[f32]) -> f32 {
    let (e0, e1) = (logits[0].exp(), logits[1].exp());
    e1 / (e0 + e1)
}

/// Suppression on the candidates of an image: places in `candidates`, best first.
fn suppress(image: &DecodedImage, candidates: &[usize], overlap: f64, floor: f64) -> Vec<usize> {
    let (boxes, scores) = image.suppression_input(&candidates.to_vec()).unwrap();
    let flat: Vec<f32> = boxes.iter().flatten().map(|b| f32::from_bits(*b)).collect();
    let boxes = Array2::from_shape_vec((candidates.len(), 4), flat).unwrap();
    let scores = Array1::from_iter(scores.iter().map(|s| f32::from_bits(*s) as f64));
    nms(&boxes, &scores, overlap, floor)
}

/// The whole pipeline on raw tensors, with the arithmetic done here.
fn run(
    landmarks: &[f32],
    confidence: &[f32],
    boxes: &[f32],
    batch: usize,
    image_size: [usize; 2],
    config: &PostProcessConfig,
    cache: &mut AnchorCache,
) -> Vec<Vec<FoundFace>> {
    let (priors, count) =
        cache.get_or_compute(config.min_sizes.clone(), config.steps.clone(), config.clip, image_size);
    let raw = RawOutputs::new(landmarks, confidence, boxes, batch, count).unwrap();
    let variance = [f32::from_bits(config.variance[0]), f32::from_bits(config.variance[1])];
    let mut images = Vec::new();
    for b in 0..batch {
        let mut image_boxes = Vec::new();
        let mut image_scores = Vec::new();
        let mut image_marks = Vec::new();
        for a in 0..count {
            let prior = prior_floats(&priors[a], image_size);
            image_boxes.push(decode_box(raw.boxes.row(b, a).unwrap(), prior, variance, image_size));
            image_scores.push(face_score(raw.confidence.row(b, a).unwrap()));
            image_marks.push(decode_landmarks(
                raw.landmarks.row(b, a).unwrap(),
                prior,
                variance,
                image_size,
            ));
        }
        images.push(
            DecodedImage::new(
                image_boxes.iter().map(|v| v.map(f32::to_bits)).collect(),
                image_scores.iter().map(|v| v.to_bits()).collect(),
                image_marks.iter().map(|v| v.map(f32::to_bits)).collect(),
            )
            .unwrap(),
        );
    }
    let candidates = batch_candidates(&images, config.confidence_threshold);
    let threshold = f32::from_bits(config.confidence_threshold) as f64;
    let overlap = f64::from_bits(config.nms_threshold);
    let keeps: Vec<Vec<usize>> = (0..batch)
        .map(|b| {
            let keep = suppress(&images[b], &candidates[b], overlap, threshold);
            images[b].selection_order(&candidates[b], &keep).unwrap()
        })
        .collect();
    batch_faces(&images, &candidates, &keeps).unwrap()
}

fn close(a: f32, b: f64) -> bool {
    (a as f64 - b).abs() < 1e-3
}

fn single_anchor_config() -> PostProcessConfig {
    let mut config = PostProcessConfig::default();
    config.min_sizes = vec![vec![16]];
    config.steps = vec![640];
    config
}

#[test]
fn end_to_end_on_a_single_anchor() {
    let image_size = [640usize, 640usize];
    let config = single_anchor_config();
    let (priors, count) = prior_box(config.min_sizes.clone(), config.steps.clone(), false, image_size);
    assert_eq!(count, 1);
    assert_eq!(prior_floats(&priors[0], image_size), [0.5, 0.5, 0.025, 0.025]);

    let boxes = [1.0f32, -2.0, 0.5, -0.5];
    let confidence = [0.0f32, 2.0];
    let landmarks = [1.0f32, 1.0, -1.0, 1.0, 0.0, 0.0, 2.0, -2.0, -4.0, 4.0];
    let mut cache = AnchorCache::new();
    let out = run(&landmarks, &confidence, &boxes, 1, image_size, &config, &mut cache);
    assert_eq!(out.len(), 1);
    assert_eq!(out[0].len(), 1);
    let face = out[0][0];

    // cx' = 0.5 + 1.0 * 0.1 * 0.025 = 0.5025, w' = 0.025 * e^0.1
    // cy' = 0.5 - 2.0 * 0.1 * 0.025 = 0.4950, h' = 0.025 * e^-0.1
    let expected_box = [312.758_633, 309.561_301, 330.441_367, 324.038_699];
    for c in 0..4 {
        assert!(close(f32::from_bits(face.bbox[c]), expected_box[c]), "box {}", c);
    }
    // e^2 / (1 + e^2)
    assert!(close(f32::from_bits(face.score), 0.880_797_078));
    // 320 + 1.6 * offset on either axis
    let expected_marks = [[321.6, 321.6], [318.4, 321.6], [320.0, 320.0], [323.2, 316.8], [313.6, 326.4]];
    for p in 0..5 {
        for c in 0..2 {
            assert!(close(f32::from_bits(face.landmarks[p][c]), expected_marks[p][c]), "{} {}", p, c);
        }
    }
    // the face is what the decoding of the anchor gave, bit for bit
    let prior = prior_floats(&priors[0], image_size);
    assert_eq!(face.bbox, decode_box(&boxes, prior, [0.1, 0.2], image_size).map(f32::to_bits));
    assert_eq!(face.score, face_score(&confidence).to_bits());
    let groups = face.to_groups();
    assert_eq!(groups.len(), 3);
    assert_eq!(groups[1], vec![face.score]);
    assert_eq!(
        groups[2],
        decode_landmarks(&landmarks, prior, [0.1, 0.2], image_size).map(f32::to_bits).to_vec()
    );
}

#[test]
fn end_to_end_below_the_threshold() {
    let config = single_anchor_config();
    let mut cache = AnchorCache::new();
    // e^0.8 / (e^0 + e^0.8) is 0.69: no face
    let out = run(&[0.0; 10], &[0.0, 0.8], &[0.0; 4], 1, [640, 640], &config, &mut cache);
    assert_eq!(out, vec![vec![]]);
    // e^0.9 / (e^0 + e^0.9) is 0.71: a face
    let out = run(&[0.0; 10], &[0.0, 0.9], &[0.0; 4], 1, [640, 640], &config, &mut cache);
    assert_eq!(out[0].len(), 1);
}

#[test]
fn landmarks_use_the_first_variance_only() {
    let prior = [0.5f32, 0.5, 0.025, 0.025];
    let pre = [1.0f32; 10];
    let a = decode_landmarks(&pre, prior, [0.1, 0.2], [640, 640]);
    let b = decode_landmarks(&pre, prior, [0.1, 0.9], [640, 640]);
    assert_eq!(a, b);
    let wide = decode_box(&[0.0, 0.0, 1.0, 1.0], prior, [0.1, 0.2], [640, 640]);
    let wider = decode_box(&[0.0, 0.0, 1.0, 1.0], prior, [0.1, 0.9], [640, 640]);
    assert!(wider[2] - wider[0] > wide[2] - wide[0]);
}

#[test]
fn decoding_undoes_encoding() {
    let image_size = [480usize, 640usize];
    let config = PostProcessConfig::default();
    let (priors, _) = prior_box(config.min_sizes.clone(), config.steps.clone(), false, image_size);
    let variance = [0.1f32, 0.2];
    let wanted = [100.5f32, 50.25, 180.0, 170.75];
    for at in [0usize, 1, 777, 9_000, 12_000, priors.len() - 1] {
        let prior = prior_floats(&priors[at], image_size);
        let loc = encode_box(wanted, prior, variance, image_size);
        let got = decode_box(&loc, prior, variance, image_size);
        for c in 0..4 {
            assert!((got[c] - wanted[c]).abs() < 1e-2, "anchor {} channel {}", at, c);
        }
    }
}

#[test]
fn scores_are_probabilities() {
    for (l0, l1) in [(0.0f32, 0.0f32), (1.0, -1.0), (-3.5, 2.25), (10.0, 10.0), (-20.0, 20.0), (30.0, -30.0)] {
        let face = face_score(&[l0, l1]);
        let other = face_score(&[l1, l0]);
        assert!((0.0..=1.0).contains(&face));
        assert!((face + other - 1.0).abs() < 1e-6);
    }
}

fn image_with(boxes: &[[f32; 4]], scores: &[f32]) -> DecodedImage {
    DecodedImage::new(
        boxes.iter().map(|b| b.map(f32::to_bits)).collect(),
        scores.iter().map(|s| s.to_bits()).collect(),
        (0..scores.len()).map(|i| [i as u32; 10]).collect(),
    )
    .unwrap()
}

fn surviving_scores(boxes: &[[f32; 4]], scores: &[f32]) -> Vec<f32> {
    let image = image_with(boxes, scores);
    let candidates = image.candidates(0.7f32.to_bits());
    let keep = suppress(&image, &candidates, 0.4, 0.7f32 as f64);
    // suppression hands its choice over in selection order
    assert_eq!(image.selection_order(&candidates, &keep).unwrap(), keep);
    let faces = image.faces(&candidates, &keep).unwrap();
    faces.iter().map(|f| f32::from_bits(f.score)).collect()
}

#[test]
fn suppression_removes_the_weaker_of_two_overlapping_boxes() {
    // intersection 81, union 119: an overlap of 0.68
    let boxes = [[0.0f32, 0.0, 10.0, 10.0], [1.0, 1.0, 11.0, 11.0]];
    assert_eq!(surviving_scores(&boxes, &[0.9, 0.8]), vec![0.9]);
    assert_eq!(surviving_scores(&boxes, &[0.8, 0.9]), vec![0.9]);
}

#[test]
fn suppression_keeps_two_boxes_that_do_not_overlap() {
    let boxes = [[0.0f32, 0.0, 10.0, 10.0], [20.0, 20.0, 30.0, 30.0]];
    assert_eq!(surviving_scores(&boxes, &[0.9, 0.8]), vec![0.9, 0.8]);
    // the better one comes first, wherever it stood
    assert_eq!(surviving_scores(&boxes, &[0.8, 0.9]), vec![0.9, 0.8]);
}

#[test]
fn suppression_sees_only_the_candidates() {
    // the strongest box is below the floor of 0.7 and suppresses nothing
    let boxes = [[0.0f32, 0.0, 10.0, 10.0], [1.0, 1.0, 11.0, 11.0], [0.5, 0.5, 10.5, 10.5]];
    assert_eq!(surviving_scores(&boxes, &[0.75, 0.8, 0.6]), vec![0.8]);
}

#[test]
fn suppression_of_its_own_result_changes_nothing() {
    let boxes = [
        [0.0f32, 0.0, 10.0, 10.0],
        [1.0, 1.0, 11.0, 11.0],
        [20.0, 20.0, 30.0, 30.0],
        [21.0, 20.0, 31.0, 30.0],
        [50.0, 0.0, 60.0, 10.0],
        [4.0, 4.0, 14.0, 14.0],
    ];
    let scores = [0.9f32, 0.95, 0.8, 0.85, 0.75, 0.99];
    let image = image_with(&boxes, &scores);
    let candidates = image.candidates(0.7f32.to_bits());
    let keep = suppress(&image, &candidates, 0.4, 0.7f32 as f64);
    let first = image.faces(&candidates, &keep).unwrap();
    assert!(first.len() < boxes.len());

    let again = DecodedImage::new(
        first.iter().map(|f| f.bbox).collect(),
        first.iter().map(|f| f.score).collect(),
        first.iter().map(|f| {
            let g = f.to_groups();
            let mut row = [0u32; 10];
            row.copy_from_slice(&g[2]);
            row
        }).collect(),
    )
    .unwrap();
    let candidates = again.candidates(0.7f32.to_bits());
    assert_eq!(candidates, (0..first.len()).collect::<Vec<_>>());
    let keep = suppress(&again, &candidates, 0.4, 0.7f32 as f64);
    assert_eq!(again.faces(&candidates, &keep).unwrap(), first);
}

#[test]
fn images_of_a_batch_do_not_touch_one_another() {
    let image_size = [64usize, 64usize];
    let mut config = PostProcessConfig::default();
    config.min_sizes = vec![vec![16, 32]];
    config.steps = vec![32];
    let count = 2 * 2 * 2;
    let mut cache = AnchorCache::new();
    // three images with different tensors
    let make = |seed: usize, width: usize| -> Vec<f32> {
        (0..count * width).map(|i| (((i * 7 + seed * 13) % 11) as f32 - 5.0) / 2.0).collect()
    };
    let per_image: Vec<(Vec<f32>, Vec<f32>, Vec<f32>)> =
        (0..3).map(|s| (make(s, 10), make(s + 3, 2), make(s + 6, 4))).collect();
    let batch_of = |order: &[usize]| {
        let mut l = Vec::new();
        let mut c = Vec::new();
        let mut b = Vec::new();
        for &i in order {
            l.extend_from_slice(&per_image[i].0);
            c.extend_from_slice(&per_image[i].1);
            b.extend_from_slice(&per_image[i].2);
        }
        (l, c, b)
    };
    let (l, c, b) = batch_of(&[0, 1, 2]);
    let straight = run(&l, &c, &b, 3, image_size, &config, &mut cache);
    assert!(straight.iter().any(|faces| !faces.is_empty()));
    for order in [[2usize, 1, 0], [1, 2, 0], [0, 2, 1]] {
        let (l, c, b) = batch_of(&order);
        let permuted = run(&l, &c, &b, 3, image_size, &config, &mut cache);
        for (i, &from) in order.iter().enumerate() {
            assert_eq!(permuted[i], straight[from]);
        }
    }
    // an image alone gives what it gives in a batch
    for i in 0..3 {
        let (l, c, b) = batch_of(&[i]);
        assert_eq!(run(&l, &c, &b, 1, image_size, &config, &mut cache), vec![straight[i].clone()]);
    }
    assert_eq!(cache.configs().len(), 1);
}

#[test]
fn an_empty_batch_gives_no_image() {
    let config = single_anchor_config();
    let mut cache = AnchorCache::new();
    let out = run(&[], &[], &[], 0, [640, 640], &config, &mut cache);
    assert!(out.is_empty());
}

#[test]
fn default_configuration_end_to_end() {
    let image_size = [64usize, 96usize];
    let config = PostProcessConfig::default();
    let mut cache = AnchorCache::new();
    let count = (8 * 12 + 4 * 6 + 2 * 3) * 2;
    // every anchor says "no face" but two, which sit on their anchors
    let mut confidence = vec![0.0f32; count * 2];
    for a in 0..count {
        confidence[2 * a] = 5.0;
    }
    let (first, second) = (7usize, 200usize);
    confidence[2 * first] = 0.0;
    confidence[2 * first + 1] = 3.0;
    confidence[2 * second] = 0.0;
    confidence[2 * second + 1] = 4.0;
    let landmarks = vec![0.0f32; count * 10];
    let boxes = vec![0.0f32; count * 4];
    let out = run(&landmarks, &confidence, &boxes, 1, image_size, &config, &mut cache);
    assert_eq!(out.len(), 1);
    let faces = &out[0];
    assert_eq!(faces.len(), 2);
    // the better one first
    assert!(close(f32::from_bits(faces[0].score), 0.982_013_79));
    assert!(close(f32::from_bits(faces[1].score), 0.952_574_13));
    let (priors, n) = prior_box(config.min_sizes.clone(), config.steps.clone(), false, image_size);
    assert_eq!(n, count);
    for (face, anchor) in faces.iter().zip([second, first]) {
        let p = prior_floats(&priors[anchor], image_size);
        let (w, h) = (96.0f64, 64.0f64);
        let expected = [
            (p[0] - p[2] / 2.0) as f64 * w,
            (p[1] - p[3] / 2.0) as f64 * h,
            (p[0] + p[2] / 2.0) as f64 * w,
            (p[1] + p[3] / 2.0) as f64 * h,
        ];
        for c in 0..4 {
            assert!(close(f32::from_bits(face.bbox[c]), expected[c]));
        }
        // with no offset every landmark is the centre of the anchor
        for point in face.landmarks {
            assert!(close(f32::from_bits(point[0]), p[0] as f64 * w));
            assert!(close(f32::from_bits(point[1]), p[1] as f64 * h));
        }
    }
}
