//! Frame-difference motion tracker: grey conversion, thresholded
//! difference against the previous frame on a sampling grid, 3x3 dilation,
//! connected components, and per-component statistics.
use vstd::prelude::*;
use crate::ascii::{luma, luma_spec};
use crate::components::{
    label_components, component_labels, is_component_labeling, prefix_max, as_ints,
    lemma_next_cell,
};

verus! {

/// A connected region of moving cells. Coordinates are in frame pixels
/// (`min_*` inclusive, `max_*` exclusive); `sum_x` and `sum_y` add up the
/// sampling-grid coordinates of the region's cells, so the centroid is
/// `sum / pixels * step`.
#[derive(Clone, Copy)]
pub struct Blob {
    pub label: u32,
    pub pixels: usize,
    pub sum_x: u64,
    pub sum_y: u64,
    pub min_x: usize,
    pub max_x: usize,
    pub min_y: usize,
    pub max_y: usize,
}

/// Keeps the previous grey frame between calls.
pub struct MotionTracker {
    prev_gray: Vec<u8>,
    initialized: bool,
}

// ---------------------------------------------------------------------------
// Specification
// ---------------------------------------------------------------------------

/// Sampling stride actually used (at least 2).
pub open spec fn effective_step(step: int) -> int {
    if step < 2 {
        2
    } else {
        step
    }
}

/// Grey frame of `n` RGB pixels.
pub open spec fn gray_frame(rgb: Seq<u8>, n: int) -> Seq<u8> {
    Seq::new(n as nat, |i: int| luma_spec(rgb[3 * i], rgb[3 * i + 1], rgb[3 * i + 2]))
}

/// Frame pixel sampled by grid cell `c`.
pub open spec fn sample_index(w: int, step: int, sw: int, c: int) -> int {
    (c / sw) * step * w + (c % sw) * step
}

/// Grid cells whose sampled grey level moved by more than 25.
pub open spec fn motion_mask(gray: Seq<u8>, prev: Seq<u8>, w: int, step: int, sw: int, sh: int) -> Seq<
    bool,
> {
    Seq::new(
        (sw * sh) as nat,
        |c: int|
            {
                let i = sample_index(w, step, sw, c);
                gray[i] - prev[i] > 25 || prev[i] - gray[i] > 25
            },
    )
}

/// Cell `c` or one of its eight neighbours is set in `mask`.
pub open spec fn dilated_cell(mask: Seq<bool>, sw: int, sh: int, c: int) -> bool {
    let x = c % sw;
    let y = c / sw;
    let l = x > 0;
    let r = x + 1 < sw;
    let u = y > 0;
    let d = y + 1 < sh;
    ||| mask[c]
    ||| l && mask[c - 1]
    ||| r && mask[c + 1]
    ||| u && mask[c - sw]
    ||| d && mask[c + sw]
    ||| u && l && mask[c - sw - 1]
    ||| u && r && mask[c - sw + 1]
    ||| d && l && mask[c + sw - 1]
    ||| d && r && mask[c + sw + 1]
}

/// The mask grown by one cell in every direction.
pub open spec fn dilated_mask(mask: Seq<bool>, sw: int, sh: int) -> Seq<bool> {
    Seq::new(mask.len(), |c: int| dilated_cell(mask, sw, sh, c))
}

pub open spec fn min_int(a: int, b: int) -> int {
    if a < b {
        a
    } else {
        b
    }
}

pub open spec fn max_int(a: int, b: int) -> int {
    if a > b {
        a
    } else {
        b
    }
}

/// Statistics of component `k + 1` over the first `n` cells:
/// (cells, sum of x, sum of y, min x, max x, min y, max y), with the
/// minima starting at the grid size and the maxima at 0.
pub open spec fn blob_acc(lab: Seq<int>, sw: int, sh: int, k: int, n: int) -> (
    int,
    int,
    int,
    int,
    int,
    int,
    int,
)
    decreases n,
{
    if n <= 0 {
        (0, 0, 0, sw, 0, sh, 0)
    } else {
        let a = blob_acc(lab, sw, sh, k, n - 1);
        let c = n - 1;
        if lab[c] == k + 1 {
            let x = c % sw;
            let y = c / sw;
            (a.0 + 1, a.1 + x, a.2 + y, min_int(a.3, x), max_int(a.4, x), min_int(a.5, y), max_int(a.6, y))
        } else {
            a
        }
    }
}

/// Blob `k` of a labelled grid, with its box scaled back to frame pixels.
pub open spec fn blob_of(lab: Seq<int>, sw: int, sh: int, step: int, k: int) -> Blob {
    let a = blob_acc(lab, sw, sh, k, sw * sh);
    Blob {
        label: k as u32,
        pixels: a.0 as usize,
        sum_x: a.1 as u64,
        sum_y: a.2 as u64,
        min_x: (a.3 * step) as usize,
        max_x: ((a.4 + 1) * step) as usize,
        min_y: (a.5 * step) as usize,
        max_y: ((a.6 + 1) * step) as usize,
    }
}

/// Number of cells of blob `k`.
pub open spec fn blob_size(lab: Seq<int>, sw: int, sh: int, k: int) -> int {
    blob_acc(lab, sw, sh, k, sw * sh).0
}

/// `a` comes before `b` in the output: more cells first, ties by label.
pub open spec fn blob_before(a: Blob, b: Blob) -> bool {
    a.pixels > b.pixels || (a.pixels == b.pixels && a.label < b.label)
}

/// `res` lists exactly the blobs of `lab` with at least 3 cells, largest
/// first and, among equal sizes, in label order.
pub open spec fn blobs_reported(lab: Seq<int>, sw: int, sh: int, step: int, res: Seq<Blob>) -> bool {
    let count = prefix_max(lab, sw * sh);
    &&& forall|i: int|
        0 <= i < res.len() ==> (#[trigger] res[i]).label < count && res[i] == blob_of(
            lab,
            sw,
            sh,
            step,
            res[i].label as int,
        ) && res[i].pixels >= 3
    &&& forall|k: int|
        0 <= k < count && #[trigger] blob_size(lab, sw, sh, k) >= 3 ==> exists|i: int|
            0 <= i < res.len() && (#[trigger] res[i]).label == k
    &&& forall|i: int, j: int| 0 <= i < j < res.len() ==> blob_before(#[trigger] res[i], #[trigger] res[j])
}


// ---------------------------------------------------------------------------
// Arithmetic facts
// ---------------------------------------------------------------------------

proof fn lemma_grid_size(w: int, h: int, step: int)
    requires
        w >= 0,
        h >= 0,
        step >= 1,
    ensures
        (w / step) * step <= w,
        (h / step) * step <= h,
        (w / step) * (h / step) <= w * h,
        0 <= w / step <= w,
        0 <= h / step <= h,
{
    vstd::arithmetic::div_mod::lemma_fundamental_div_mod(w, step);
    vstd::arithmetic::div_mod::lemma_fundamental_div_mod(h, step);
    vstd::arithmetic::div_mod::lemma_mod_pos_bound(w, step);
    vstd::arithmetic::div_mod::lemma_mod_pos_bound(h, step);
    let sw = w / step;
    let sh = h / step;
    assert(sw * step == step * sw) by (nonlinear_arith);
    assert(sh * step == step * sh) by (nonlinear_arith);
    vstd::arithmetic::div_mod::lemma_div_pos_is_pos(w, step);
    vstd::arithmetic::div_mod::lemma_div_pos_is_pos(h, step);
    assert(sw * step >= sw) by (nonlinear_arith)
        requires
            sw >= 0,
            step >= 1,
    ;
    assert(sh * step >= sh) by (nonlinear_arith)
        requires
            sh >= 0,
            step >= 1,
    ;
    assert(sw * sh <= w * h) by (nonlinear_arith)
        requires
            0 <= sw <= w,
            0 <= sh <= h,
    ;
}

proof fn lemma_sample_in_frame(w: int, h: int, step: int, sw: int, sh: int, x: int, y: int)
    requires
        step >= 1,
        sw * step <= w,
        sh * step <= h,
        0 <= x < sw,
        0 <= y < sh,
    ensures
        0 <= x * step < w,
        0 <= y * step < h,
        0 <= (y * step) * w + x * step < w * h,
{
    assert(0 <= x * step < w) by (nonlinear_arith)
        requires
            step >= 1,
            sw * step <= w,
            0 <= x < sw,
    ;
    assert(0 <= y * step < h) by (nonlinear_arith)
        requires
            step >= 1,
            sh * step <= h,
            0 <= y < sh,
    ;
    let py = y * step;
    assert(0 <= py * w + x * step < w * h) by (nonlinear_arith)
        requires
            0 <= py < h,
            0 <= x * step < w,
    ;
}

// ---------------------------------------------------------------------------
// Stages
// ---------------------------------------------------------------------------

fn gray_of(rgb: &[u8], size: usize) -> (g: Vec<u8>)
    requires
        3 * size <= rgb@.len(),
    ensures
        g@ == gray_frame(rgb@, size as int),
{
    let total = rgb.len();
    assert(total == rgb@.len());
    let mut g: Vec<u8> = Vec::new();
    let mut i: usize = 0;
    while i < size
        invariant
            i <= size,
            3 * size <= rgb@.len(),
            rgb@.len() <= usize::MAX,
            g@.len() == i,
            forall|j: int| 0 <= j < i ==> g@[j] == luma_spec(rgb@[3 * j], rgb@[3 * j + 1], rgb@[3 * j + 2]),
        decreases size - i,
    {
        let j = i * 3;
        g.push(luma(rgb[j], rgb[j + 1], rgb[j + 2]));
        i = i + 1;
    }
    assert(g@ =~= gray_frame(rgb@, size as int));
    g
}

fn sample_motion(gray: &Vec<u8>, prev: &Vec<u8>, w: usize, h: usize, step: usize, sw: usize, sh: usize) -> (m: Vec<bool>)
    requires
        gray.len() == w * h,
        prev.len() == w * h,
        step >= 1,
        sw == w / step,
        sh == h / step,
        sw >= 1,
    ensures
        m@ == motion_mask(gray@, prev@, w as int, step as int, sw as int, sh as int),
        m.len() == sw * sh,
{
    proof {
        lemma_grid_size(w as int, h as int, step as int);
    }
    let n = sw * sh;
    let mut m: Vec<bool> = Vec::new();
    let mut c: usize = 0;
    let mut x: usize = 0;
    let mut y: usize = 0;
    while c < n
        invariant
            n == sw * sh,
            c <= n,
            x < sw,
            c == y * sw + x,
            gray.len() == w * h,
            prev.len() == w * h,
            step >= 1,
            sw == w / step,
            sh == h / step,
            sw * step <= w,
            sh * step <= h,
            sw >= 1,
            m@.len() == c,
            forall|j: int|
                0 <= j < c ==> m@[j] == motion_mask(gray@, prev@, w as int, step as int, sw as int, sh as int)[j],
        decreases n - c,
    {
        proof {
            lemma_next_cell(sw as int, c as int, x as int, y as int);
            assert(y < sh) by {
                if y >= sh {
                    assert(sh * sw == sw * sh) by (nonlinear_arith);
                    assert(y * sw >= sh * sw) by (nonlinear_arith)
                        requires
                            y >= sh,
                            sw >= 1,
                    ;
                }
            }
            lemma_sample_in_frame(w as int, h as int, step as int, sw as int, sh as int, x as int, y as int);
        }
        let py = y * step;
        let idx = py * w + x * step;
        let g = gray[idx];
        let p = prev[idx];
        let moved = if g > p {
            g - p > 25
        } else {
            p - g > 25
        };
        m.push(moved);
        c = c + 1;
        x = x + 1;
        if x == sw {
            x = 0;
            y = y + 1;
        }
    }
    assert(m@ =~= motion_mask(gray@, prev@, w as int, step as int, sw as int, sh as int));
    m
}

fn dilate(mask: &Vec<bool>, sw: usize, sh: usize) -> (d: Vec<bool>)
    requires
        sw >= 1,
        mask.len() == sw * sh,
    ensures
        d@ == dilated_mask(mask@, sw as int, sh as int),
{
    let n = mask.len();
    let mut d: Vec<bool> = Vec::new();
    let mut c: usize = 0;
    let mut x: usize = 0;
    let mut y: usize = 0;
    while c < n
        invariant
            n == sw * sh,
            n == mask.len(),
            c <= n,
            x < sw,
            c == y * sw + x,
            sw >= 1,
            d@.len() == c,
            forall|j: int| 0 <= j < c ==> d@[j] == dilated_cell(mask@, sw as int, sh as int, j),
        decreases n - c,
    {
        proof {
            lemma_next_cell(sw as int, c as int, x as int, y as int);
            assert(y < sh) by {
                if y >= sh {
                    assert(sh * sw == sw * sh) by (nonlinear_arith);
                    assert(y * sw >= sh * sw) by (nonlinear_arith)
                        requires
                            y >= sh,
                            sw >= 1,
                    ;
                }
            }
            assert(y * sw + sw <= n) by {
                assert((y + 1) * sw <= sh * sw) by (nonlinear_arith)
                    requires
                        y + 1 <= sh,
                        sw >= 1,
                ;
                assert((y + 1) * sw == y * sw + sw) by (nonlinear_arith);
                assert(sh * sw == sw * sh) by (nonlinear_arith);
            }
            assert(y + 1 < sh ==> y * sw + 2 * sw <= n) by {
                if y + 1 < sh {
                    assert((y + 2) * sw <= sh * sw) by (nonlinear_arith)
                        requires
                            y + 2 <= sh,
                            sw >= 1,
                    ;
                    assert((y + 2) * sw == y * sw + 2 * sw) by (nonlinear_arith);
                    assert(sh * sw == sw * sh) by (nonlinear_arith);
                }
            }
            assert(y + 1 < sh ==> c + sw < n) by {
                if y + 1 < sh {
                    assert((y + 1) * sw <= (sh - 1) * sw) by (nonlinear_arith)
                        requires
                            y + 1 <= sh - 1,
                            sw >= 1,
                    ;
                    assert((y + 1) * sw == y * sw + sw) by (nonlinear_arith);
                    assert((sh - 1) * sw == sh * sw - sw) by (nonlinear_arith);
                }
            }
        }
        let l = x > 0;
        let r = x + 1 < sw;
        let u = y > 0;
        let dn = y + 1 < sh;
        let v = mask[c] || (l && mask[c - 1]) || (r && mask[c + 1]) || (u && mask[c - sw]) || (dn
            && mask[c + sw]) || (u && l && mask[c - sw - 1]) || (u && r && mask[c - sw + 1]) || (dn
            && l && mask[c + sw - 1]) || (dn && r && mask[c + sw + 1]);
        d.push(v);
        c = c + 1;
        x = x + 1;
        if x == sw {
            x = 0;
            y = y + 1;
        }
    }
    assert(d@ =~= dilated_mask(mask@, sw as int, sh as int));
    d
}


/// Unscaled statistics of blob `k` after the first `c` cells.
pub open spec fn raw_matches(b: Blob, lab: Seq<int>, sw: int, sh: int, k: int, c: int) -> bool {
    let a = blob_acc(lab, sw, sh, k, c);
    &&& b.label == k
    &&& b.pixels == a.0
    &&& b.sum_x == a.1
    &&& b.sum_y == a.2
    &&& b.min_x == a.3
    &&& b.max_x == a.4
    &&& b.min_y == a.5
    &&& b.max_y == a.6
}

proof fn lemma_sum_bound(c: int, n: int, s: int)
    requires
        0 <= c < n,
        n < 0x1_0000_0000,
        0 <= s <= n,
    ensures
        (c + 1) * s <= n * s,
        n * s < 0x1_0000_0000_0000_0000,
{
    assert((c + 1) * s <= n * s) by (nonlinear_arith)
        requires
            c + 1 <= n,
            s >= 0,
    ;
    assert(n * s < 0x1_0000_0000_0000_0000) by (nonlinear_arith)
        requires
            0 <= n < 0x1_0000_0000,
            0 <= s <= n,
    ;
}

/// Per-blob statistics of a labelled grid, boxes scaled by `step`.
fn accumulate_blobs(
    labels: &Vec<u32>,
    count: u32,
    sw: usize,
    sh: usize,
    step: usize,
    Ghost(lab): Ghost<Seq<int>>,
) -> (blobs: Vec<Blob>)
    requires
        as_ints(labels@) == lab,
        labels.len() == sw * sh,
        sw * sh < u32::MAX,
        sw >= 1,
        sh >= 1,
        sw * step <= usize::MAX,
        sh * step <= usize::MAX,
        forall|c: int| 0 <= c < labels.len() ==> labels@[c] <= count,
    ensures
        blobs.len() == count,
        forall|k: int|
            0 <= k < count ==> #[trigger] blobs@[k] == blob_of(lab, sw as int, sh as int, step as int, k)
                && blobs@[k].pixels == blob_size(lab, sw as int, sh as int, k),
{
    let n = labels.len();
    let mut blobs: Vec<Blob> = Vec::new();
    let mut k: u32 = 0;
    while k < count
        invariant
            k <= count,
            blobs.len() == k,
            forall|j: int| 0 <= j < k ==> raw_matches(#[trigger] blobs@[j], lab, sw as int, sh as int, j, 0),
        decreases count - k,
    {
        blobs.push(Blob { label: k, pixels: 0, sum_x: 0, sum_y: 0, min_x: sw, max_x: 0, min_y: sh, max_y: 0 });
        k = k + 1;
    }
    let mut c: usize = 0;
    let mut x: usize = 0;
    let mut y: usize = 0;
    while c < n
        invariant
            n == sw * sh,
            n == labels.len(),
            n < u32::MAX,
            as_ints(labels@) == lab,
            forall|c: int| 0 <= c < labels.len() ==> labels@[c] <= count,
            c <= n,
            x < sw,
            c == y * sw + x,
            sw >= 1,
            blobs.len() == count,
            forall|j: int|
                0 <= j < count ==> raw_matches(#[trigger] blobs@[j], lab, sw as int, sh as int, j, c as int)
                    && blobs@[j].pixels <= c && blobs@[j].sum_x <= c * sw && blobs@[j].sum_y <= c * sh
                    && blobs@[j].min_x <= sw && blobs@[j].max_x < sw && blobs@[j].min_y <= sh
                    && blobs@[j].max_y < sh,
        decreases n - c,
    {
        proof {
            lemma_next_cell(sw as int, c as int, x as int, y as int);
            assert(y < sh) by {
                if y >= sh {
                    assert(sh * sw == sw * sh) by (nonlinear_arith);
                    assert(y * sw >= sh * sw) by (nonlinear_arith)
                        requires
                            y >= sh,
                            sw >= 1,
                    ;
                }
            }
            assert(sw <= n && sh <= n) by (nonlinear_arith)
                requires
                    n == sw * sh,
                    sw >= 1,
                    sh >= 1,
            ;
            lemma_sum_bound(c as int, n as int, sw as int);
            lemma_sum_bound(c as int, n as int, sh as int);
            assert((c + 1) * sw == c * sw + sw) by (nonlinear_arith);
            assert((c + 1) * sh == c * sh + sh) by (nonlinear_arith);
        }
        let ghost b0 = blobs@;
        let l = labels[c];
        if l != 0 {
            let kk = (l - 1) as usize;
            let b = blobs[kk];
            let nb = Blob {
                label: b.label,
                pixels: b.pixels + 1,
                sum_x: b.sum_x + x as u64,
                sum_y: b.sum_y + y as u64,
                min_x: if x < b.min_x {
                    x
                } else {
                    b.min_x
                },
                max_x: if x > b.max_x {
                    x
                } else {
                    b.max_x
                },
                min_y: if y < b.min_y {
                    y
                } else {
                    b.min_y
                },
                max_y: if y > b.max_y {
                    y
                } else {
                    b.max_y
                },
            };
            blobs.set(kk, nb);
        }
        proof {
            assert(lab[c as int] == labels@[c as int] as int);
            assert forall|j: int| 0 <= j < count implies raw_matches(#[trigger] blobs@[j], lab, sw as int, sh as int, j, c + 1)
                && blobs@[j].pixels <= c + 1 && blobs@[j].sum_x <= (c + 1) * sw && blobs@[j].sum_y <= (c
                + 1) * sh && blobs@[j].min_x <= sw && blobs@[j].max_x < sw && blobs@[j].min_y <= sh
                && blobs@[j].max_y < sh by {
                assert(raw_matches(b0[j], lab, sw as int, sh as int, j, c as int));
                assert(c * sw <= (c + 1) * sw);
                assert(c * sh <= (c + 1) * sh);
            }
        }
        c = c + 1;
        x = x + 1;
        if x == sw {
            x = 0;
            y = y + 1;
        }
    }
    proof {
        assert(sw * step <= usize::MAX);
    }
    let mut k: usize = 0;
    while k < blobs.len()
        invariant
            k <= blobs.len(),
            blobs.len() == count,
            n == sw * sh,
            sw * step <= usize::MAX,
            sh * step <= usize::MAX,
            forall|j: int|
                0 <= j < count ==> (j < k ==> #[trigger] blobs@[j] == blob_of(
                    lab,
                    sw as int,
                    sh as int,
                    step as int,
                    j,
                ) && blobs@[j].pixels == blob_size(lab, sw as int, sh as int, j)) && (j >= k ==> raw_matches(blobs@[j], lab, sw as int, sh as int, j, n as int)
                    && blobs@[j].min_x <= sw && blobs@[j].max_x < sw && blobs@[j].min_y <= sh
                    && blobs@[j].max_y < sh),
        decreases blobs.len() - k,
    {
        let b = blobs[k];
        proof {
            assert(b.min_x * step <= sw * step) by (nonlinear_arith)
                requires
                    b.min_x <= sw,
            ;
            assert((b.max_x + 1) * step <= sw * step) by (nonlinear_arith)
                requires
                    b.max_x < sw,
            ;
            assert(b.min_y * step <= sh * step) by (nonlinear_arith)
                requires
                    b.min_y <= sh,
            ;
            assert((b.max_y + 1) * step <= sh * step) by (nonlinear_arith)
                requires
                    b.max_y < sh,
            ;
        }
        let nb = Blob {
            label: b.label,
            pixels: b.pixels,
            sum_x: b.sum_x,
            sum_y: b.sum_y,
            min_x: b.min_x * step,
            max_x: (b.max_x + 1) * step,
            min_y: b.min_y * step,
            max_y: (b.max_y + 1) * step,
        };
        blobs.set(k, nb);
        k = k + 1;
    }
    blobs
}


/// Keeps the blobs of at least 3 cells, largest first (ties in label order).
fn report_blobs(
    blobs: &Vec<Blob>,
    Ghost(lab): Ghost<Seq<int>>,
    Ghost(sw): Ghost<int>,
    Ghost(sh): Ghost<int>,
    Ghost(step): Ghost<int>,
) -> (res: Vec<Blob>)
    requires
        blobs.len() == prefix_max(lab, sw * sh),
        blobs.len() <= u32::MAX,
        forall|k: int|
            0 <= k < blobs.len() ==> #[trigger] blobs@[k] == blob_of(lab, sw, sh, step, k)
                && blobs@[k].pixels == blob_size(lab, sw, sh, k),
    ensures
        blobs_reported(lab, sw, sh, step, res@),
{
    let count = blobs.len();
    let mut res: Vec<Blob> = Vec::new();
    let mut k: usize = 0;
    while k < count
        invariant
            count == blobs.len(),
            count == prefix_max(lab, sw * sh),
            count <= u32::MAX,
            k <= count,
            forall|j: int|
                0 <= j < blobs.len() ==> #[trigger] blobs@[j] == blob_of(lab, sw, sh, step, j)
                    && blobs@[j].pixels == blob_size(lab, sw, sh, j),
            forall|i: int|
                0 <= i < res.len() ==> (#[trigger] res@[i]).label < k && res@[i] == blob_of(
                    lab,
                    sw,
                    sh,
                    step,
                    res@[i].label as int,
                ) && res@[i].pixels >= 3,
            forall|j: int|
                0 <= j < k && #[trigger] blob_size(lab, sw, sh, j) >= 3 ==> exists|i: int|
                    0 <= i < res.len() && (#[trigger] res@[i]).label == j,
            forall|i: int, j: int| 0 <= i < j < res.len() ==> blob_before(#[trigger] res@[i], #[trigger] res@[j]),
        decreases count - k,
    {
        let b = blobs[k];
        assert(b.label == k as u32);
        if b.pixels >= 3 {
            let mut pos: usize = 0;
            while pos < res.len() && res[pos].pixels >= b.pixels
                invariant
                    pos <= res.len(),
                    forall|i: int| 0 <= i < pos ==> (#[trigger] res@[i]).pixels >= b.pixels,
                decreases res.len() - pos,
            {
                pos = pos + 1;
            }
            let ghost r0 = res@;
            proof {
                assert forall|i: int| pos <= i < r0.len() implies (#[trigger] r0[i]).pixels < b.pixels by {
                    if i > pos {
                        assert(blob_before(r0[pos as int], r0[i]));
                    }
                }
            }
            res.insert(pos, b);
            proof {
                let r1 = res@;
                assert(r1 == r0.insert(pos as int, b));
                assert forall|i: int| 0 <= i < r1.len() implies (#[trigger] r1[i]).label < k + 1 && r1[i]
                    == blob_of(lab, sw, sh, step, r1[i].label as int) && r1[i].pixels >= 3 by {
                    if i < pos {
                        assert(r1[i] == r0[i]);
                    } else if i > pos {
                        assert(r1[i] == r0[i - 1]);
                    }
                }
                assert forall|j: int|
                    0 <= j < k + 1 && #[trigger] blob_size(lab, sw, sh, j) >= 3 implies exists|i: int|
                    0 <= i < r1.len() && (#[trigger] r1[i]).label == j by {
                    if j == k {
                        assert(r1[pos as int].label == j);
                    } else {
                        let i0 = choose|i: int| 0 <= i < r0.len() && (#[trigger] r0[i]).label == j;
                        if i0 < pos {
                            assert(r1[i0].label == j);
                        } else {
                            assert(r1[i0 + 1].label == j);
                        }
                    }
                }
                assert forall|i: int, j: int| 0 <= i < j < r1.len() implies blob_before(
                    #[trigger] r1[i],
                    #[trigger] r1[j],
                ) by {
                    if j < pos {
                        assert(blob_before(r0[i], r0[j]));
                    } else if j == pos {
                        assert(r1[i] == r0[i]);
                    } else if i < pos {
                        assert(r1[j] == r0[j - 1]);
                        assert(blob_before(r0[i], r0[j - 1]));
                    } else if i == pos {
                        assert(r1[j] == r0[j - 1]);
                    } else {
                        assert(blob_before(r0[i - 1], r0[j - 1]));
                    }
                }
            }
        } else {
            proof {
                assert(blob_size(lab, sw, sh, k as int) < 3);
            }
        }
        k = k + 1;
    }
    res
}


fn zeros_u8(n: usize) -> (v: Vec<u8>)
    ensures
        v@ == Seq::new(n as nat, |i: int| 0u8),
{
    let mut v: Vec<u8> = Vec::new();
    while v.len() < n
        invariant
            v.len() <= n,
            forall|i: int| 0 <= i < v.len() ==> v@[i] == 0,
        decreases n - v.len(),
    {
        v.push(0);
    }
    assert(v@ =~= Seq::new(n as nat, |i: int| 0u8));
    v
}

impl MotionTracker {
    /// The grey frame remembered from the previous call.
    pub closed spec fn previous(&self) -> Seq<u8> {
        self.prev_gray@
    }

    /// A previous frame of the current size has been seen.
    pub closed spec fn primed(&self) -> bool {
        self.initialized
    }

    /// Whether a previous frame is held.
    pub fn is_primed(&self) -> (b: bool)
        ensures
            b == self.primed(),
    {
        self.initialized
    }

    /// Number of pixels of the previous frame.
    pub fn previous_len(&self) -> (n: usize)
        ensures
            n == self.previous().len(),
    {
        self.prev_gray.len()
    }

    /// A tracker that has seen no frame yet.
    pub fn new() -> (t: Self)
        ensures
            t.previous() == Seq::<u8>::empty(),
            !t.primed(),
    {
        MotionTracker { prev_gray: Vec::new(), initialized: false }
    }

    /// Compares the `w` x `h` RGB frame with the previous one and returns the
    /// moving regions. The first frame (or the first after a size change)
    /// is only remembered. Otherwise cells of a grid with stride `step`
    /// (at least 2) are marked where the grey level moved by more than 25,
    /// the marks are grown by one cell, and every 4-connected region of at
    /// least 3 cells is reported, largest first.
    pub fn detect(&mut self, rgb: &[u8], w: usize, h: usize, step: usize) -> (blobs: Vec<Blob>)
        requires
            3 * (w * h) <= rgb@.len(),
            ({
                let st = effective_step(step as int);
                let sw = w as int / st;
                let sh = h as int / st;
                old(self).previous().len() == w * h && old(self).primed() && sw >= 2 && sh >= 2 ==> sw * sh
                    < u32::MAX
            }),
        ensures
            ({
                let n = w as int * h as int;
                let gray = gray_frame(rgb@, n);
                let st = effective_step(step as int);
                let sw = w as int / st;
                let sh = h as int / st;
                if old(self).previous().len() != n || !old(self).primed() {
                    &&& blobs@.len() == 0
                    &&& final(self).previous() == gray
                    &&& final(self).primed()
                } else if sw < 2 || sh < 2 {
                    &&& blobs@.len() == 0
                    &&& final(self).previous() == old(self).previous()
                    &&& final(self).primed()
                } else {
                    let moving = dilated_mask(
                        motion_mask(gray, old(self).previous(), w as int, st, sw, sh),
                        sw,
                        sh,
                    );
                    &&& final(self).previous() == gray
                    &&& final(self).primed()
                    &&& blobs_reported(component_labels(moving, sw), sw, sh, st, blobs@)
                }
            }),
            forall|i: int|
                0 <= i < blobs@.len() ==> {
                    let b = #[trigger] blobs@[i];
                    let st = effective_step(step as int);
                    &&& b.pixels * b.min_x <= st * b.sum_x <= b.pixels * (b.max_x - st)
                    &&& b.pixels * b.min_y <= st * b.sum_y <= b.pixels * (b.max_y - st)
                },
    {
        let total = rgb.len();
        proof {
            assert(total == rgb@.len());
            assert(w * h <= total);
        }
        let size = w * h;
        if self.prev_gray.len() != size {
            self.prev_gray = zeros_u8(size);
            self.initialized = false;
        }
        let gray = gray_of(rgb, size);
        if !self.initialized {
            self.prev_gray = gray;
            self.initialized = true;
            return Vec::new();
        }
        let step = if step < 2 {
            2
        } else {
            step
        };
        let sw = w / step;
        let sh = h / step;
        if sw < 2 || sh < 2 {
            return Vec::new();
        }
        proof {
            lemma_grid_size(w as int, h as int, step as int);
        }
        let mask = sample_motion(&gray, &self.prev_gray, w, h, step, sw, sh);
        self.prev_gray = gray;
        let moving = dilate(&mask, sw, sh);
        let (labels, count) = label_components(&moving, sw, sh);
        let ghost lab = component_labels(moving@, sw as int);
        proof {
            assert forall|c: int| 0 <= c < labels.len() implies labels@[c] <= count by {
                crate::components::lemma_prefix_max_ge(lab, (sw * sh) as int, c);
                assert(lab[c] == labels@[c] as int);
            }
        }
        let blobs = accumulate_blobs(&labels, count, sw, sh, step, Ghost(lab));
        let res = report_blobs(&blobs, Ghost(lab), Ghost(sw as int), Ghost(sh as int), Ghost(step as int));
        proof {
            lemma_reported_centroid_in_box(lab, sw as int, sh as int, step as int, res@);
        }
        res
    }
}


/// The neighbours `dilated_cell` reads lie inside the grid.
pub proof fn lemma_neighbours_in_grid(sw: int, sh: int, c: int)
    requires
        sw >= 1,
        0 <= c < sw * sh,
    ensures
        ({
            let x = c % sw;
            let y = c / sw;
            &&& 0 <= x < sw
            &&& 0 <= y < sh
            &&& c == y * sw + x
            &&& x > 0 ==> c - 1 >= 0
            &&& x + 1 < sw ==> c + 1 < sw * sh
            &&& y > 0 ==> c - sw >= 0 && (x > 0 ==> c - sw - 1 >= 0)
            &&& y + 1 < sh ==> c + sw < sw * sh && (x + 1 < sw ==> c + sw + 1 < sw * sh)
        }),
{
    let x = c % sw;
    let y = c / sw;
    vstd::arithmetic::div_mod::lemma_fundamental_div_mod(c, sw);
    vstd::arithmetic::div_mod::lemma_mod_pos_bound(c, sw);
    assert(c == y * sw + x) by (nonlinear_arith)
        requires
            c == sw * y + x,
    ;
    assert(0 <= y < sh) by (nonlinear_arith)
        requires
            c == y * sw + x,
            0 <= x < sw,
            0 <= c < sw * sh,
            sw >= 1,
    ;
    assert(y * sw + sw <= sw * sh) by (nonlinear_arith)
        requires
            0 <= y < sh,
            sw >= 1,
    ;
    if y + 1 < sh {
        assert(y * sw + 2 * sw <= sw * sh) by (nonlinear_arith)
            requires
                0 <= y,
                y + 2 <= sh,
                sw >= 1,
        ;
    }
    if y > 0 {
        assert(y * sw >= sw) by (nonlinear_arith)
            requires
                y >= 1,
                sw >= 1,
        ;
    }
}

/// A frame identical to the previous one shows no motion, so no blob is
/// reported.
pub proof fn lemma_still_scene_reports_nothing(gray: Seq<u8>, w: int, h: int, step: int, res: Seq<Blob>)
    requires
        step >= 1,
        w >= 0,
        h >= 0,
        gray.len() == w * h,
        ({
            let sw = w / step;
            let sh = h / step;
            blobs_reported(
                component_labels(dilated_mask(motion_mask(gray, gray, w, step, sw, sh), sw, sh), sw),
                sw,
                sh,
                step,
                res,
            )
        }),
    ensures
        res.len() == 0,
{
    let sw = w / step;
    let sh = h / step;
    let m = motion_mask(gray, gray, w, step, sw, sh);
    let d = dilated_mask(m, sw, sh);
    vstd::arithmetic::div_mod::lemma_div_pos_is_pos(w, step);
    vstd::arithmetic::div_mod::lemma_div_pos_is_pos(h, step);
    assert(sw * sh >= 0) by (nonlinear_arith)
        requires
            sw >= 0,
            sh >= 0,
    ;
    assert forall|c: int| 0 <= c < m.len() implies !#[trigger] m[c] by {}
    assert forall|c: int| 0 <= c < d.len() implies !#[trigger] d[c] by {
        assert(sw >= 1) by {
            if sw <= 0 {
                assert(sw == 0);
            }
        }
        lemma_neighbours_in_grid(sw, sh, c);
    }
    let zeros = Seq::new(d.len(), |i: int| 0int);
    assert(is_component_labeling(d, sw, zeros));
    crate::components::lemma_component_labels_is(d, sw, zeros);
    assert(d.len() == sw * sh);
    crate::components::lemma_prefix_max_le(zeros, sw * sh, 0);
    if res.len() > 0 {
        assert(res[0].label < prefix_max(zeros, sw * sh));
    }
}


proof fn lemma_blob_acc_count(lab: Seq<int>, sw: int, sh: int, k: int, m: int)
    requires
        m >= 0,
    ensures
        0 <= blob_acc(lab, sw, sh, k, m).0 <= m,
    decreases m,
{
    if m > 0 {
        lemma_blob_acc_count(lab, sw, sh, k, m - 1);
    }
}

/// An entry of a reported list also appears in any other reported list for
/// the same labelling.
proof fn lemma_reported_member(lab: Seq<int>, sw: int, sh: int, step: int, r1: Seq<Blob>, r2: Seq<Blob>, i: int)
    requires
        sw >= 0,
        sh >= 0,
        sw * sh <= usize::MAX,
        blobs_reported(lab, sw, sh, step, r1),
        blobs_reported(lab, sw, sh, step, r2),
        0 <= i < r1.len(),
    ensures
        exists|j: int| 0 <= j < r2.len() && #[trigger] r2[j] == r1[i],
{
    let b = r1[i];
    let k = b.label as int;
    assert(sw * sh >= 0) by (nonlinear_arith)
        requires
            sw >= 0,
            sh >= 0,
    ;
    lemma_blob_acc_count(lab, sw, sh, k, sw * sh);
    assert(blob_size(lab, sw, sh, k) >= 3);
    let j = choose|j: int| 0 <= j < r2.len() && (#[trigger] r2[j]).label == k;
    assert(r2[j] == blob_of(lab, sw, sh, step, k));
}

proof fn lemma_reported_prefix(lab: Seq<int>, sw: int, sh: int, step: int, r1: Seq<Blob>, r2: Seq<Blob>, k: int)
    requires
        sw >= 0,
        sh >= 0,
        sw * sh <= usize::MAX,
        blobs_reported(lab, sw, sh, step, r1),
        blobs_reported(lab, sw, sh, step, r2),
        0 <= k <= r1.len(),
        k <= r2.len(),
    ensures
        forall|j: int| 0 <= j < k ==> r1[j] == r2[j],
    decreases k,
{
    if k > 0 {
        let p = k - 1;
        lemma_reported_prefix(lab, sw, sh, step, r1, r2, p);
        lemma_reported_member(lab, sw, sh, step, r1, r2, p);
        lemma_reported_member(lab, sw, sh, step, r2, r1, p);
        let i = choose|j: int| 0 <= j < r2.len() && #[trigger] r2[j] == r1[p];
        let j = choose|j: int| 0 <= j < r1.len() && #[trigger] r1[j] == r2[p];
        if i < p {
            assert(r2[i] == r1[i]);
            assert(blob_before(r1[i], r1[p]));
        }
        if j < p {
            assert(r1[j] == r2[j]);
            assert(blob_before(r2[j], r2[p]));
        }
        if i > p && j > p {
            assert(blob_before(r2[p], r2[i]));
            assert(blob_before(r1[p], r1[j]));
        }
    }
}

/// The reported list is determined by the labelling: any two lists that
/// both satisfy `blobs_reported` are equal.
pub proof fn lemma_blobs_reported_unique(lab: Seq<int>, sw: int, sh: int, step: int, r1: Seq<Blob>, r2: Seq<Blob>)
    requires
        sw >= 0,
        sh >= 0,
        sw * sh <= usize::MAX,
        blobs_reported(lab, sw, sh, step, r1),
        blobs_reported(lab, sw, sh, step, r2),
    ensures
        r1 == r2,
{
    if r1.len() > r2.len() {
        lemma_reported_prefix(lab, sw, sh, step, r1, r2, r2.len() as int);
        lemma_reported_member(lab, sw, sh, step, r1, r2, r2.len() as int);
        let i = choose|j: int| 0 <= j < r2.len() && #[trigger] r2[j] == r1[r2.len() as int];
        assert(r1[i] == r2[i]);
        assert(blob_before(r1[i], r1[r2.len() as int]));
    } else if r2.len() > r1.len() {
        lemma_reported_prefix(lab, sw, sh, step, r1, r2, r1.len() as int);
        lemma_reported_member(lab, sw, sh, step, r2, r1, r1.len() as int);
        let i = choose|j: int| 0 <= j < r1.len() && #[trigger] r1[j] == r2[r1.len() as int];
        assert(r1[i] == r2[i]);
        assert(blob_before(r2[i], r2[r1.len() as int]));
    } else {
        lemma_reported_prefix(lab, sw, sh, step, r1, r2, r1.len() as int);
        assert(r1 =~= r2);
    }
}

/// A sampling step below 2 reports exactly what step 2 reports on the same
/// frames.
pub proof fn lemma_step_below_two_reports_as_two(
    gray: Seq<u8>,
    prev: Seq<u8>,
    w: int,
    h: int,
    step: int,
    r1: Seq<Blob>,
    r2: Seq<Blob>,
)
    requires
        step < 2,
        0 <= w,
        0 <= h,
        w * h <= usize::MAX,
        ({
            let sw = w / effective_step(step);
            let sh = h / effective_step(step);
            blobs_reported(
                component_labels(dilated_mask(motion_mask(gray, prev, w, effective_step(step), sw, sh), sw, sh), sw),
                sw,
                sh,
                effective_step(step),
                r1,
            )
        }),
        ({
            let sw = w / 2;
            let sh = h / 2;
            blobs_reported(
                component_labels(dilated_mask(motion_mask(gray, prev, w, 2, sw, sh), sw, sh), sw),
                sw,
                sh,
                2,
                r2,
            )
        }),
    ensures
        r1 == r2,
{
    lemma_grid_size(w, h, 2);
    let sw = w / 2;
    let sh = h / 2;
    lemma_blobs_reported_unique(
        component_labels(dilated_mask(motion_mask(gray, prev, w, 2, sw, sh), sw, sh), sw),
        sw,
        sh,
        2,
        r1,
        r2,
    );
}


proof fn lemma_blob_acc_box(lab: Seq<int>, sw: int, sh: int, k: int, m: int)
    requires
        sw >= 1,
        sh >= 1,
        0 <= m <= sw * sh,
    ensures
        ({
            let a = blob_acc(lab, sw, sh, k, m);
            &&& 0 <= a.0 <= m
            &&& a.0 == 0 ==> a.1 == 0 && a.2 == 0 && a.3 == sw && a.4 == 0 && a.5 == sh && a.6 == 0
            &&& a.0 > 0 ==> {
                &&& 0 <= a.3 <= a.4 < sw
                &&& 0 <= a.5 <= a.6 < sh
                &&& a.0 * a.3 <= a.1 <= a.0 * a.4
                &&& a.0 * a.5 <= a.2 <= a.0 * a.6
            }
        }),
    decreases m,
{
    if m > 0 {
        lemma_blob_acc_box(lab, sw, sh, k, m - 1);
        let c = m - 1;
        if lab[c] == k + 1 {
            let a = blob_acc(lab, sw, sh, k, m - 1);
            let x = c % sw;
            let y = c / sw;
            lemma_neighbours_in_grid(sw, sh, c);
            let p = a.0;
            let mnx = min_int(a.3, x);
            let mxx = max_int(a.4, x);
            let mny = min_int(a.5, y);
            let mxy = max_int(a.6, y);
            assert(blob_acc(lab, sw, sh, k, m) == (p + 1, a.1 + x, a.2 + y, mnx, mxx, mny, mxy));
            if p == 0 {
                assert(mnx == x && mxx == x && mny == y && mxy == y);
                assert((p + 1) * mnx == x && (p + 1) * mxx == x) by (nonlinear_arith)
                    requires
                        p == 0,
                        mnx == x,
                        mxx == x,
                ;
                assert((p + 1) * mny == y && (p + 1) * mxy == y) by (nonlinear_arith)
                    requires
                        p == 0,
                        mny == y,
                        mxy == y,
                ;
            }
            if p > 0 {
                assert((p + 1) * mnx <= a.1 + x <= (p + 1) * mxx) by (nonlinear_arith)
                    requires
                        p > 0,
                        0 <= mnx <= a.3,
                        mnx <= x,
                        mxx >= a.4,
                        mxx >= x,
                        p * a.3 <= a.1 <= p * a.4,
                ;
                assert((p + 1) * mny <= a.2 + y <= (p + 1) * mxy) by (nonlinear_arith)
                    requires
                        p > 0,
                        0 <= mny <= a.5,
                        mny <= y,
                        mxy >= a.6,
                        mxy >= y,
                        p * a.5 <= a.2 <= p * a.6,
                ;
            }
        }
    }
}

/// Every reported blob's centroid lies inside its box:
/// `pixels * min_x <= step * sum_x <= pixels * (max_x - step)`, and the
/// same for y. In particular a blob one sampling column wide has
/// `step * sum_x == pixels * min_x`, and one row high has
/// `step * sum_y == pixels * min_y`.
pub proof fn lemma_reported_centroid_in_box(lab: Seq<int>, sw: int, sh: int, step: int, res: Seq<Blob>)
    requires
        sw >= 1,
        sh >= 1,
        step >= 1,
        sw * sh < u32::MAX,
        sw * step <= usize::MAX,
        sh * step <= usize::MAX,
        blobs_reported(lab, sw, sh, step, res),
    ensures
        forall|i: int|
            0 <= i < res.len() ==> {
                let b = #[trigger] res[i];
                &&& b.pixels * b.min_x <= step * b.sum_x <= b.pixels * (b.max_x - step)
                &&& b.pixels * b.min_y <= step * b.sum_y <= b.pixels * (b.max_y - step)
                &&& b.max_x == b.min_x + step ==> step * b.sum_x == b.pixels * b.min_x
                &&& b.max_y == b.min_y + step ==> step * b.sum_y == b.pixels * b.min_y
            },
{
    assert forall|i: int| 0 <= i < res.len() implies {
        let b = #[trigger] res[i];
        &&& b.pixels * b.min_x <= step * b.sum_x <= b.pixels * (b.max_x - step)
        &&& b.pixels * b.min_y <= step * b.sum_y <= b.pixels * (b.max_y - step)
        &&& b.max_x == b.min_x + step ==> step * b.sum_x == b.pixels * b.min_x
        &&& b.max_y == b.min_y + step ==> step * b.sum_y == b.pixels * b.min_y
    } by {
        let b = res[i];
        let k = b.label as int;
        let a = blob_acc(lab, sw, sh, k, sw * sh);
        lemma_blob_acc_box(lab, sw, sh, k, sw * sh);
        assert(b == blob_of(lab, sw, sh, step, k));
        assert(a.0 >= 3);
        assert(sw <= sw * sh) by (nonlinear_arith)
            requires
                sw >= 1,
                sh >= 1,
        ;
        assert(a.1 <= a.0 * a.4 < 0x1_0000_0000_0000_0000 && a.2 <= a.0 * a.6
            < 0x1_0000_0000_0000_0000) by (nonlinear_arith)
            requires
                0 <= a.0 <= sw * sh,
                sw * sh < 0x1_0000_0000,
                0 <= a.4 < sw,
                0 <= a.6 < sh,
                sw <= sw * sh,
                sh >= 1,
                a.1 <= a.0 * a.4,
                a.2 <= a.0 * a.6,
        ;
        assert(0 <= a.3 * step <= sw * step && (a.4 + 1) * step <= sw * step) by (nonlinear_arith)
            requires
                0 <= a.3 <= a.4 < sw,
                step >= 1,
        ;
        assert(0 <= a.5 * step <= sh * step && (a.6 + 1) * step <= sh * step) by (nonlinear_arith)
            requires
                0 <= a.5 <= a.6 < sh,
                step >= 1,
        ;
        assert(b.pixels == a.0 && b.sum_x == a.1 && b.sum_y == a.2);
        assert(b.min_x == a.3 * step && b.max_x == (a.4 + 1) * step);
        assert(b.min_y == a.5 * step && b.max_y == (a.6 + 1) * step);
        assert(a.0 * (a.3 * step) <= step * a.1 <= a.0 * ((a.4 + 1) * step - step)) by (nonlinear_arith)
            requires
                a.0 * a.3 <= a.1 <= a.0 * a.4,
                step >= 1,
                a.0 >= 0,
        ;
        assert(a.0 * (a.5 * step) <= step * a.2 <= a.0 * ((a.6 + 1) * step - step)) by (nonlinear_arith)
            requires
                a.0 * a.5 <= a.2 <= a.0 * a.6,
                step >= 1,
                a.0 >= 0,
        ;
    }
}

} // verus!
