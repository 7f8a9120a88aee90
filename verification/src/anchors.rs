//! The anchor generator: the fixed set of reference boxes of a configuration.

use vstd::prelude::*;
use vstd::arithmetic::div_mod::*;
use vstd::arithmetic::mul::*;

verus! {

/// One reference box in normalised coordinates, held exactly.
///
/// Every field is a numerator. `center_x` and `width` are counted in units of
/// `1 / (2 * W)`, `center_y` and `height` in units of `1 / (2 * H)`, where
/// `(H, W)` is the image size of the configuration the box was made for.
#[derive(Clone, Copy, Debug, PartialEq, Eq, Structural)]
pub struct Prior {
    pub center_x: u128,
    pub center_y: u128,
    pub width: u128,
    pub height: u128,
}

/// `ceil(len / step)` for `len >= 0` and `step > 0`.
pub open spec fn cells(len: int, step: int) -> int {
    (len + step - 1) / step
}

/// The smaller of `v` and `limit`.
pub open spec fn at_most(v: int, limit: int) -> int {
    if v > limit {
        limit
    } else {
        v
    }
}

/// The anchor of base size `size` in the grid cell `(row, col)` of a level
/// of stride `step`, on an image of `height` by `width` pixels.
///
/// Its centre is the middle of the cell, `((col + 1/2) * step / width,
/// (row + 1/2) * step / height)`, and its extent `(size / width, size /
/// height)`; with `clip`, each of the four is cut off at 1.
pub open spec fn cell_prior(
    step: int,
    size: int,
    row: int,
    col: int,
    clip: bool,
    height: int,
    width: int,
) -> Prior {
    let cx = (2 * col + 1) * step;
    let cy = (2 * row + 1) * step;
    if clip {
        Prior {
            center_x: at_most(cx, 2 * width) as u128,
            center_y: at_most(cy, 2 * height) as u128,
            width: at_most(2 * size, 2 * width) as u128,
            height: at_most(2 * size, 2 * height) as u128,
        }
    } else {
        Prior {
            center_x: cx as u128,
            center_y: cy as u128,
            width: (2 * size) as u128,
            height: (2 * size) as u128,
        }
    }
}

/// The mathematical model of an anchor configuration.
#[verifier::ext_equal]
pub struct AnchorConfig {
    /// Base sizes of the anchors, one list per feature level.
    pub min_sizes: Seq<Seq<usize>>,
    /// Stride of each feature level.
    pub steps: Seq<usize>,
    /// Whether coordinates are clamped into `[0, 1]`.
    pub clip: bool,
    /// Image height `H`.
    pub height: usize,
    /// Image width `W`.
    pub width: usize,
}

impl AnchorConfig {
    /// Number of feature levels.
    pub open spec fn levels(self) -> int {
        self.steps.len() as int
    }

    /// Rows of the grid of level `k`.
    pub open spec fn rows(self, k: int) -> int {
        cells(self.height as int, self.steps[k] as int)
    }

    /// Columns of the grid of level `k`.
    pub open spec fn cols(self, k: int) -> int {
        cells(self.width as int, self.steps[k] as int)
    }

    /// Anchors per grid cell of level `k`.
    pub open spec fn sizes(self, k: int) -> int {
        self.min_sizes[k].len() as int
    }

    /// Anchors of level `k`.
    pub open spec fn level_len(self, k: int) -> int {
        self.rows(k) * self.cols(k) * self.sizes(k)
    }

    /// Anchors of the levels before `k`: the index of the first anchor of level `k`.
    pub open spec fn offset(self, k: int) -> int
        decreases k,
    {
        if k <= 0 {
            0
        } else {
            self.offset(k - 1) + self.level_len(k - 1)
        }
    }

    /// Anchors of all levels.
    pub open spec fn count(self) -> int {
        self.offset(self.levels())
    }

    /// A configuration that the generator accepts: one list of sizes per
    /// stride, every stride positive, and a total that a `usize` can hold.
    pub open spec fn valid(self) -> bool {
        &&& self.min_sizes.len() == self.steps.len()
        &&& forall|k: int| 0 <= k < self.steps.len() ==> self.steps[k] > 0
        &&& self.count() <= usize::MAX
    }

    /// The anchor of level `k`, grid row `i`, grid column `j` and size number `a`.
    pub open spec fn prior_at(self, k: int, i: int, j: int, a: int) -> Prior {
        cell_prior(
            self.steps[k] as int,
            self.min_sizes[k][a] as int,
            i,
            j,
            self.clip,
            self.height as int,
            self.width as int,
        )
    }

    /// The anchors of level `k`: cells row by row, and in each cell the sizes
    /// in the order given.
    pub open spec fn level_priors(self, k: int) -> Seq<Prior> {
        Seq::new(
            self.level_len(k) as nat,
            |r: int|
                self.prior_at(
                    k,
                    (r / self.sizes(k)) / self.cols(k),
                    (r / self.sizes(k)) % self.cols(k),
                    r % self.sizes(k),
                ),
        )
    }

    /// The anchors of the levels before `k`, level after level.
    pub open spec fn priors_upto(self, k: int) -> Seq<Prior>
        decreases k,
    {
        if k <= 0 {
            Seq::empty()
        } else {
            self.priors_upto(k - 1) + self.level_priors(k - 1)
        }
    }

    /// The whole ordered set of anchors.
    pub open spec fn priors(self) -> Seq<Prior> {
        self.priors_upto(self.levels())
    }
}

/// The model of the four arguments of the generator; `image_size` is `(H, W)`.
pub open spec fn anchor_config(
    min_sizes: Vec<Vec<usize>>,
    steps: Vec<usize>,
    clip: bool,
    image_size: [usize; 2],
) -> AnchorConfig {
    AnchorConfig {
        min_sizes: min_sizes.deep_view(),
        steps: steps@,
        clip,
        height: image_size[0],
        width: image_size[1],
    }
}

/// `cells` is the ceiling of the quotient: the least number of steps that cover `len`.
pub proof fn lemma_cells(len: int, step: int)
    requires
        len >= 0,
        step > 0,
    ensures
        cells(len, step) >= 0,
        cells(len, step) * step >= len,
        (cells(len, step) - 1) * step < len || len == 0,
        len == 0 ==> cells(len, step) == 0,
        len % step == 0 ==> cells(len, step) == len / step,
        len % step != 0 ==> cells(len, step) == len / step + 1,
{
    let q = len / step;
    let m = len % step;
    lemma_fundamental_div_mod(len, step);
    assert(len == step * q + m);
    lemma_mul_is_commutative(step, q);
    if m == 0 {
        // len + step - 1 == q * step + (step - 1)
        lemma_fundamental_div_mod_converse(len + step - 1, step, q, step - 1);
        assert((q - 1) * step == q * step - step) by (nonlinear_arith);
    } else {
        assert((q + 1) * step == q * step + step) by (nonlinear_arith);
        lemma_fundamental_div_mod_converse(len + step - 1, step, q + 1, m - 1);
    }
    if len == 0 {
        lemma_div_basics(step);
    }
    assert(q >= 0) by {
        lemma_div_pos_is_pos(len, step);
    }
}

/// The number of grid cells along an axis of `len` pixels at stride `step`.
pub fn grid_cells(len: usize, step: usize) -> (n: usize)
    requires
        step > 0,
    ensures
        n == cells(len as int, step as int),
{
    let q: usize = len / step;
    let m: usize = len % step;
    proof {
        lemma_cells(len as int, step as int);
        lemma_fundamental_div_mod(len as int, step as int);
        if m != 0 {
            // a remainder needs a stride of at least two, so the quotient is below the top
            assert(q < usize::MAX) by (nonlinear_arith)
                requires
                    len == step * q + m,
                    0 < m < step,
                    len <= usize::MAX,
            ;
        }
    }
    if m == 0 {
        q
    } else {
        q + 1
    }
}

/// A cell of the grid starts inside the image.
pub proof fn lemma_cell_starts_inside(len: int, step: int, i: int)
    requires
        len >= 0,
        step > 0,
        0 <= i < cells(len, step),
    ensures
        0 <= i * step < len,
{
    lemma_cells(len, step);
    let c = cells(len, step);
    assert(i * step <= (c - 1) * step) by (nonlinear_arith)
        requires
            0 <= i <= c - 1,
            step > 0,
    ;
    assert(0 <= i * step) by (nonlinear_arith)
        requires
            0 <= i,
            step > 0,
    ;
}

/// The numerator of a cell's centre along one axis: `(2 * index + 1) * step`.
fn center_numerator(index: usize, step: usize, len: usize) -> (c: u128)
    requires
        index * step < len,
    ensures
        c == (2 * index + 1) * step,
{
    let start: usize = index * step;
    proof {
        assert((2 * index + 1) * step == 2 * (index * step) + step) by (nonlinear_arith);
    }
    2 * (start as u128) + (step as u128)
}

/// The smaller of two numerators.
fn cut_off(v: u128, limit: u128) -> (r: u128)
    ensures
        r == at_most(v as int, limit as int),
{
    if v > limit {
        limit
    } else {
        v
    }
}

/// Builds the anchor of one grid cell and one base size.
fn make_prior(
    step: usize,
    size: usize,
    row: usize,
    col: usize,
    clip: bool,
    height: usize,
    width: usize,
) -> (p: Prior)
    requires
        row * step < height,
        col * step < width,
    ensures
        p == cell_prior(
            step as int,
            size as int,
            row as int,
            col as int,
            clip,
            height as int,
            width as int,
        ),
{
    let cx: u128 = center_numerator(col, step, width);
    let cy: u128 = center_numerator(row, step, height);
    let extent: u128 = 2 * (size as u128);
    if clip {
        let x_limit: u128 = 2 * (width as u128);
        let y_limit: u128 = 2 * (height as u128);
        Prior {
            center_x: cut_off(cx, x_limit),
            center_y: cut_off(cy, y_limit),
            width: cut_off(extent, x_limit),
            height: cut_off(extent, y_limit),
        }
    } else {
        Prior { center_x: cx, center_y: cy, width: extent, height: extent }
    }
}

/// Index arithmetic of the row-major order: the anchor of row `i`, column `j`
/// and size number `a` is anchor number `(i * cols + j) * sizes + a` of its level.
pub proof fn lemma_level_index(rows: int, cols: int, sizes: int, i: int, j: int, a: int)
    requires
        0 <= i < rows,
        0 <= j < cols,
        0 <= a < sizes,
    ensures
        0 <= (i * cols + j) * sizes + a < rows * cols * sizes,
        ((i * cols + j) * sizes + a) / sizes == i * cols + j,
        ((i * cols + j) * sizes + a) % sizes == a,
        (i * cols + j) / cols == i,
        (i * cols + j) % cols == j,
{
    let cell = i * cols + j;
    assert(0 <= cell <= rows * cols - 1) by (nonlinear_arith)
        requires
            0 <= i <= rows - 1,
            0 <= j <= cols - 1,
            cell == i * cols + j,
    ;
    assert(0 <= cell * sizes + a < rows * cols * sizes) by (nonlinear_arith)
        requires
            0 <= cell <= rows * cols - 1,
            0 <= a < sizes,
    ;
    lemma_fundamental_div_mod_converse(cell * sizes + a, sizes, cell, a);
    lemma_fundamental_div_mod_converse(cell, cols, i, j);
}

/// The anchor generator.
///
/// Returns the ordered set of anchors of the configuration and its length:
/// level after level, in each level the grid cells row by row, in each cell
/// the base sizes in the order given. `image_size` is `(H, W)`.
pub fn prior_box(
    min_sizes: Vec<Vec<usize>>,
    steps: Vec<usize>,
    clip: bool,
    image_size: [usize; 2],
) -> (out: (Vec<Prior>, usize))
    requires
        anchor_config(min_sizes, steps, clip, image_size).valid(),
    ensures
        out.0@ == anchor_config(min_sizes, steps, clip, image_size).priors(),
        out.1 == out.0@.len(),
        out.1 == anchor_config(min_sizes, steps, clip, image_size).count(),
{
    generate_priors(&min_sizes, &steps, clip, image_size)
}

/// The anchor generator on borrowed arguments.
#[verifier::loop_isolation(false)]
pub fn generate_priors(
    min_sizes: &Vec<Vec<usize>>,
    steps: &Vec<usize>,
    clip: bool,
    image_size: [usize; 2],
) -> (out: (Vec<Prior>, usize))
    requires
        anchor_config(*min_sizes, *steps, clip, image_size).valid(),
    ensures
        out.0@ == anchor_config(*min_sizes, *steps, clip, image_size).priors(),
        out.1 == out.0@.len(),
        out.1 == anchor_config(*min_sizes, *steps, clip, image_size).count(),
{
    let ghost cfg = anchor_config(*min_sizes, *steps, clip, image_size);
    let height: usize = image_size[0];
    let width: usize = image_size[1];
    let mut anchors: Vec<Prior> = Vec::new();
    let mut k: usize = 0;
    while k < steps.len()
        invariant
            k <= steps.len(),
            anchors@ == cfg.priors_upto(k as int),
        decreases steps.len() - k,
    {
        let step: usize = steps[k];
        let sizes = &min_sizes[k];
        let n: usize = sizes.len();
        let rows: usize = grid_cells(height, step);
        let cols: usize = grid_cells(width, step);
        let ghost base = anchors@;
        let ghost level = cfg.level_priors(k as int);
        let ghost done: int = 0;
        proof {
            assert(cfg.min_sizes[k as int] == sizes.deep_view());
            assert(cfg.sizes(k as int) == n);
            assert(cfg.rows(k as int) == rows);
            assert(cfg.cols(k as int) == cols);
            lemma_mul_nonnegative(rows as int, cols as int);
            lemma_mul_nonnegative(rows * cols, n as int);
            assert(level.len() == rows * cols * n);
            assert(level.take(0) =~= Seq::<Prior>::empty());
            assert(base + level.take(0) =~= base);
            assert(0 * cols * n == 0) by (nonlinear_arith);
        }
        let mut i: usize = 0;
        while i < rows
            invariant
                i <= rows,
                done == i * cols * n,
                0 <= done <= level.len(),
                anchors@ == base + level.take(done),
            decreases rows - i,
        {
            let mut j: usize = 0;
            proof {
                assert((i * cols + 0) * n == i * cols * n);
            }
            while j < cols
                invariant
                    i < rows,
                    j <= cols,
                    done == (i * cols + j) * n,
                    0 <= done <= level.len(),
                    anchors@ == base + level.take(done),
                decreases cols - j,
            {
                let mut a: usize = 0;
                proof {
                    lemma_cell_starts_inside(height as int, step as int, i as int);
                    lemma_cell_starts_inside(width as int, step as int, j as int);
                }
                while a < n
                    invariant
                        i < rows,
                        j < cols,
                        i * step < height,
                        j * step < width,
                        a <= n,
                        done == (i * cols + j) * n + a,
                        0 <= done <= level.len(),
                        anchors@ == base + level.take(done),
                    decreases n - a,
                {
                    let size: usize = sizes[a];
                    let p = make_prior(step, size, i, j, clip, height, width);
                    proof {
                        lemma_level_index(rows as int, cols as int, n as int, i as int, j as int, a as int);
                        assert(cfg.min_sizes[k as int][a as int] == size);
                        assert(level[done] == cfg.prior_at(k as int, i as int, j as int, a as int));
                        assert(level[done] == p);
                        assert((base + level.take(done)).push(p) =~= base + level.take(done + 1));
                        done = done + 1;
                    }
                    anchors.push(p);
                    a = a + 1;
                }
                proof {
                    assert((i * cols + j) * n + n == (i * cols + (j + 1)) * n) by (nonlinear_arith);
                }
                j = j + 1;
            }
            proof {
                assert((i * cols + cols) * n == (i + 1) * cols * n) by (nonlinear_arith);
            }
            i = i + 1;
        }
        proof {
            assert(level.take(done) =~= level);
            assert(cfg.priors_upto(k + 1) == cfg.priors_upto(k as int) + cfg.level_priors(k as int));
            assert(cfg.level_len(k as int) == rows * cols * n);
        }
        k = k + 1;
    }
    proof {
        cfg.lemma_priors_upto_len(cfg.levels());
    }
    let count: usize = anchors.len();
    (anchors, count)
}

impl AnchorConfig {
    /// Every level of a configuration with positive strides has a grid of
    /// non-negative extent.
    pub proof fn lemma_level_len_nonnegative(self, k: int)
        requires
            0 <= k < self.levels(),
            self.steps[k] > 0,
        ensures
            self.rows(k) >= 0,
            self.cols(k) >= 0,
            self.rows(k) * self.cols(k) >= 0,
            self.level_len(k) >= 0,
    {
        lemma_cells(self.height as int, self.steps[k] as int);
        lemma_cells(self.width as int, self.steps[k] as int);
        lemma_mul_nonnegative(self.rows(k), self.cols(k));
        lemma_mul_nonnegative(self.rows(k) * self.cols(k), self.sizes(k));
    }

    /// The first anchor of a later level does not come before that of an earlier one.
    pub proof fn lemma_offset_monotonic(self, a: int, b: int)
        requires
            forall|k: int| 0 <= k < self.steps.len() ==> self.steps[k] > 0,
            0 <= a <= b <= self.levels(),
        ensures
            0 <= self.offset(a) <= self.offset(b),
        decreases b,
    {
        if b > 0 {
            self.lemma_level_len_nonnegative(b - 1);
            if a < b {
                self.lemma_offset_monotonic(a, b - 1);
            } else {
                self.lemma_offset_monotonic(a - 1, b - 1);
            }
        }
    }

    /// The anchors of the levels before `k` are as many as `offset(k)` says.
    pub proof fn lemma_priors_upto_len(self, k: int)
        requires
            forall|l: int| 0 <= l < self.steps.len() ==> self.steps[l] > 0,
            0 <= k <= self.levels(),
        ensures
            self.priors_upto(k).len() == self.offset(k),
        decreases k,
    {
        if k > 0 {
            self.lemma_priors_upto_len(k - 1);
            self.lemma_level_len_nonnegative(k - 1);
        }
    }

    /// Anchor number `r` of level `k` stands at index `offset(k) + r` of
    /// every prefix that holds level `k`.
    proof fn lemma_priors_upto_index(self, upto: int, k: int, r: int)
        requires
            forall|l: int| 0 <= l < self.steps.len() ==> self.steps[l] > 0,
            0 <= k < upto <= self.levels(),
            0 <= r < self.level_len(k),
        ensures
            0 <= self.offset(k) + r < self.priors_upto(upto).len(),
            self.priors_upto(upto)[self.offset(k) + r] == self.level_priors(k)[r],
        decreases upto,
    {
        self.lemma_priors_upto_len(upto - 1);
        self.lemma_priors_upto_len(upto);
        self.lemma_level_len_nonnegative(upto - 1);
        self.lemma_offset_monotonic(k, upto - 1);
        self.lemma_offset_monotonic(0, k);
        if k < upto - 1 {
            self.lemma_priors_upto_index(upto - 1, k, r);
        }
    }

    /// The order of the anchors: levels in the order of the configuration,
    /// the cells of a level row by row, the sizes of a cell in the order
    /// given. The anchor of level `k`, row `i`, column `j` and size number
    /// `a` stands at index `offset(k) + (i * cols(k) + j) * sizes(k) + a`.
    pub proof fn lemma_prior_order(self, k: int, i: int, j: int, a: int)
        requires
            self.valid(),
            0 <= k < self.levels(),
            0 <= i < self.rows(k),
            0 <= j < self.cols(k),
            0 <= a < self.sizes(k),
        ensures
            0 <= self.offset(k) + (i * self.cols(k) + j) * self.sizes(k) + a < self.count(),
            self.priors().len() == self.count(),
            self.priors()[self.offset(k) + (i * self.cols(k) + j) * self.sizes(k) + a]
                == self.prior_at(k, i, j, a),
    {
        lemma_level_index(self.rows(k), self.cols(k), self.sizes(k), i, j, a);
        let r = (i * self.cols(k) + j) * self.sizes(k) + a;
        self.lemma_priors_upto_index(self.levels(), k, r);
        self.lemma_priors_upto_len(self.levels());
    }
}

/// The product of three counts, or `None` where a `usize` cannot hold it.
fn level_size(rows: usize, cols: usize, sizes: usize) -> (r: Option<usize>)
    ensures
        match r {
            Some(v) => v == rows * cols * sizes,
            None => rows * cols * sizes > usize::MAX,
        },
{
    if rows == 0 || cols == 0 || sizes == 0 {
        proof {
            assert(rows * cols * sizes == 0) by (nonlinear_arith)
                requires
                    rows == 0 || cols == 0 || sizes == 0,
            ;
        }
        return Some(0);
    }
    match rows.checked_mul(cols) {
        None => {
            proof {
                assert(rows * cols * sizes >= rows * cols) by (nonlinear_arith)
                    requires
                        rows > 0,
                        cols > 0,
                        sizes > 0,
                ;
            }
            None
        },
        Some(cells) => cells.checked_mul(sizes),
    }
}

/// Tells whether the generator accepts a configuration: one list of sizes
/// per stride, every stride positive, and a total number of anchors that a
/// `usize` can hold.
pub fn config_is_valid(
    min_sizes: &Vec<Vec<usize>>,
    steps: &Vec<usize>,
    clip: bool,
    image_size: [usize; 2],
) -> (ok: bool)
    ensures
        ok == anchor_config(*min_sizes, *steps, clip, image_size).valid(),
{
    let ghost cfg = anchor_config(*min_sizes, *steps, clip, image_size);
    if min_sizes.len() != steps.len() {
        return false;
    }
    let height: usize = image_size[0];
    let width: usize = image_size[1];
    let mut k: usize = 0;
    while k < steps.len()
        invariant
            cfg == anchor_config(*min_sizes, *steps, clip, image_size),
            min_sizes.len() == steps.len(),
            k <= steps.len(),
            forall|l: int| 0 <= l < k ==> steps[l] > 0,
        decreases steps.len() - k,
    {
        if steps[k] == 0 {
            return false;
        }
        k = k + 1;
    }
    let mut total: usize = 0;
    k = 0;
    while k < steps.len()
        invariant
            cfg == anchor_config(*min_sizes, *steps, clip, image_size),
            min_sizes.len() == steps.len(),
            height == cfg.height,
            width == cfg.width,
            k <= steps.len(),
            forall|l: int| 0 <= l < steps.len() ==> steps[l] > 0,
            total == cfg.offset(k as int),
        decreases steps.len() - k,
    {
        let rows: usize = grid_cells(height, steps[k]);
        let cols: usize = grid_cells(width, steps[k]);
        let n: usize = min_sizes[k].len();
        proof {
            assert(cfg.min_sizes[k as int] == min_sizes[k as int].deep_view());
            assert(cfg.level_len(k as int) == rows * cols * n);
            cfg.lemma_offset_monotonic(k + 1, cfg.levels());
        }
        let grown: Option<usize> = match level_size(rows, cols, n) {
            None => None,
            Some(len) => total.checked_add(len),
        };
        match grown {
            None => {
                return false;
            },
            Some(t) => {
                total = t;
            },
        }
        k = k + 1;
    }
    true
}

} // verus!
