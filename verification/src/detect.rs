//! Panel detection: gutter segmentation and a binary space partition of the page.
//!
//! The page is reduced to a luma image of at most 1400 pixels per side, the
//! paper colour is sampled from the margin, every pixel is classified as gutter
//! (paper or near black) or content, and the page is then split recursively
//! along empty gutter bands. All thresholds are exact rational comparisons.
use vstd::prelude::*;
use vstd::relations::{sorted_by, total_ordering};
use crate::panel::{PanelRect, full_page, full_page_spec, left_of, mul_wide};
use crate::seqs::{isort, insert_from_end};

verus! {

/// Version of the detector, stored in panel caches so stale results are dropped.
pub const DETECT_VERSION: u32 = 7;
/// Longest side of the working image.
pub const WORK_SIDE: usize = 1400;
/// Luma distance from the sampled paper colour still counted as paper.
pub const PAPER_TOL: u8 = 38;
/// Luma at or below which a pixel is treated as ink border / black gutter.
pub const BLACK_TOL: u8 = 28;
/// Maximum recursion depth of the partition.
pub const MAX_DEPTH: u32 = 16;
/// Maximum number of splits made on one page.
pub const MAX_SPLITS: u32 = 48;
/// Minimum thickness of a gutter band, in pixels.
pub const MIN_BAND_PX: usize = 2;

pub open spec fn abs_diff_spec(a: int, b: int) -> int {
    if a >= b { a - b } else { b - a }
}

/// A pixel is gutter when it is near black or close to the paper luma.
pub open spec fn is_gutter_spec(v: u8, paper: u8) -> bool {
    v <= BLACK_TOL || abs_diff_spec(v as int, paper as int) <= PAPER_TOL
}

pub fn is_gutter_luma(v: u8, paper: u8) -> (g: bool)
    ensures
        g == is_gutter_spec(v, paper),
{
    if v <= BLACK_TOL {
        return true;
    }
    let d = if v >= paper { v - paper } else { paper - v };
    d <= PAPER_TOL
}

/// The gutter mask of a luma image.
pub open spec fn gutter_mask_spec(lum: Seq<u8>, paper: u8) -> Seq<bool> {
    Seq::new(lum.len(), |i: int| is_gutter_spec(lum[i], paper))
}

pub fn binarize_gutter(lum: &[u8], paper: u8) -> (mask: Vec<bool>)
    ensures
        mask@ == gutter_mask_spec(lum@, paper),
{
    let mut mask: Vec<bool> = Vec::with_capacity(lum.len());
    let mut i: usize = 0;
    while i < lum.len()
        invariant
            i <= lum@.len(),
            mask@ == gutter_mask_spec(lum@.take(i as int), paper),
        decreases lum@.len() - i,
    {
        mask.push(is_gutter_luma(lum[i], paper));
        i += 1;
        assert(mask@ =~= gutter_mask_spec(lum@.take(i as int), paper));
    }
    assert(lum@.take(i as int) =~= lum@);
    mask
}

/// Rec. 601 style integer luma of one RGB triple.
pub open spec fn luma_spec(r: u8, g: u8, b: u8) -> u8 {
    ((r as int * 30 + g as int * 59 + b as int * 11) / 100) as u8
}

/// Luma of the pixel at `(x, y)` of a straight RGBA8 image `w` pixels wide.
pub open spec fn pixel_luma(rgba: Seq<u8>, w: int, x: int, y: int) -> u8 {
    let o = (y * w + x) * 4;
    luma_spec(rgba[o], rgba[o + 1], rgba[o + 2])
}

fn luma_of(r: u8, g: u8, b: u8) -> (l: u8)
    ensures
        l == luma_spec(r, g, b),
{
    let v: u32 = (r as u32) * 30 + (g as u32) * 59 + (b as u32) * 11;
    (v / 100) as u8
}

/// `a / b` rounded half away from zero, for non-negative values.
pub open spec fn round_div(a: int, b: int) -> int {
    (2 * a + b) / (2 * b)
}

/// Size of the working image: unchanged when both sides fit `max_side`, else the
/// longest side is brought to `max_side` (each side at least 8).
pub open spec fn work_dims(w: int, h: int, max_side: int) -> (int, int) {
    let m = if w >= h { w } else { h };
    if m <= max_side {
        (w, h)
    } else {
        let nw = round_div(w * max_side, m);
        let nh = round_div(h * max_side, m);
        (if nw < 8 { 8 } else { nw }, if nh < 8 { 8 } else { nh })
    }
}

/// Nearest-neighbour luma image of size `work_dims(w, h, max_side)`.
pub open spec fn downsample_spec(rgba: Seq<u8>, w: int, h: int, max_side: int) -> Seq<u8> {
    let (nw, nh) = work_dims(w, h, max_side);
    Seq::new(
        (nw * nh) as nat,
        |i: int| pixel_luma(rgba, w, (i % nw) * w / nw, (i / nw) * h / nh),
    )
}

proof fn lemma_index_bound(x: int, y: int, w: int, h: int)
    requires
        0 <= x < w,
        0 <= y < h,
    ensures
        0 <= y * w + x < w * h,
        (y * w + x) % w == x,
        (y * w + x) / w == y,
{
    assert(0 <= y * w + x < w * h) by (nonlinear_arith)
        requires 0 <= x < w, 0 <= y < h;
    vstd::arithmetic::div_mod::lemma_fundamental_div_mod_converse(y * w + x, w, y, x);
}

proof fn lemma_scale_index(x: int, w: int, nw: int)
    requires
        0 <= x < nw,
        0 < w,
    ensures
        0 <= x * w / nw < w,
{
    assert(0 <= x * w) by (nonlinear_arith)
        requires 0 <= x, 0 < w;
    assert(x * w < nw * w) by (nonlinear_arith)
        requires x < nw, 0 < w;
    vstd::arithmetic::div_mod::lemma_div_pos_is_pos(x * w, nw);
    vstd::arithmetic::div_mod::lemma_multiply_divide_lt(x * w, nw, w);
}


proof fn lemma_round_div_le(a: int, m: int, c: int)
    requires
        0 <= a <= m * c,
        0 < m,
    ensures
        0 <= round_div(a, m) <= c,
{
    assert(2 * a + m < (2 * m) * (c + 1)) by (nonlinear_arith)
        requires a <= m * c, 0 < m;
    vstd::arithmetic::div_mod::lemma_multiply_divide_lt(2 * a + m, 2 * m, c + 1);
    vstd::arithmetic::div_mod::lemma_div_pos_is_pos(2 * a + m, 2 * m);
}

pub proof fn lemma_work_dims(w: int, h: int, max_side: int)
    requires
        8 <= w,
        8 <= h,
        8 <= max_side,
    ensures
        8 <= work_dims(w, h, max_side).0 <= w,
        8 <= work_dims(w, h, max_side).1 <= h,
        work_dims(w, h, max_side).0 <= max_side,
        work_dims(w, h, max_side).1 <= max_side,
{
    let m = if w >= h { w } else { h };
    if m > max_side {
        let a = w * max_side;
        let b = h * max_side;
        assert(0 <= a <= m * w && a <= m * max_side) by (nonlinear_arith)
            requires a == w * max_side, max_side < m, 0 <= w, w <= m, 0 <= max_side;
        assert(0 <= b <= m * h && b <= m * max_side) by (nonlinear_arith)
            requires b == h * max_side, max_side < m, 0 <= h, h <= m, 0 <= max_side;
        lemma_round_div_le(a, m, w);
        lemma_round_div_le(a, m, max_side);
        lemma_round_div_le(b, m, h);
        lemma_round_div_le(b, m, max_side);
    }
}

/// Nearest-neighbour luma image of the page, at most `max_side` pixels per side.
pub fn downsample_luma(rgba: &[u8], w: usize, h: usize, max_side: usize) -> (res: (
    usize,
    usize,
    Vec<u8>,
))
    requires
        8 <= w,
        8 <= h,
        8 <= max_side <= 0x10000,
        w * h * 4 <= rgba@.len(),
    ensures
        (res.0 as int, res.1 as int) == work_dims(w as int, h as int, max_side as int),
        res.2@ == downsample_spec(rgba@, w as int, h as int, max_side as int),
{
    proof {
        lemma_work_dims(w as int, h as int, max_side as int);
    }
    let m: usize = if w >= h { w } else { h };
    let (nw, nh): (usize, usize) = if m <= max_side {
        (w, h)
    } else {
        assert((w as u128) * (max_side as u128) <= 0xffff_ffff_ffff_ffff_u128 * 0x10000) by (nonlinear_arith)
            requires w <= 0xffff_ffff_ffff_ffff_u128, max_side <= 0x10000;
        assert((h as u128) * (max_side as u128) <= 0xffff_ffff_ffff_ffff_u128 * 0x10000) by (nonlinear_arith)
            requires h <= 0xffff_ffff_ffff_ffff_u128, max_side <= 0x10000;
        let a: u128 = (w as u128) * (max_side as u128);
        let b: u128 = (h as u128) * (max_side as u128);
        let d: u128 = 2 * (m as u128);
        let rw: u128 = (2 * a + m as u128) / d;
        let rh: u128 = (2 * b + m as u128) / d;
        let nw: usize = if rw < 8 { 8 } else { rw as usize };
        let nh: usize = if rh < 8 { 8 } else { rh as usize };
        (nw, nh)
    };
    assert((nw as int, nh as int) == work_dims(w as int, h as int, max_side as int));
    assert(nw * nh <= w * h) by (nonlinear_arith)
        requires
            nw <= w,
            nh <= h,
            8 <= nw,
            8 <= nh;
    let total: usize = rgba.len();
    let ghost spec_out = downsample_spec(rgba@, w as int, h as int, max_side as int);
    let mut out: Vec<u8> = Vec::new();
    let mut y: usize = 0;
    while y < nh
        invariant
            y <= nh,
            8 <= nw,
            8 <= nh,
            nw * nh <= w * h,
            w * h * 4 <= rgba@.len(),
            total == rgba@.len(),
            8 <= w,
            8 <= h,
            (nw as int, nh as int) == work_dims(w as int, h as int, max_side as int),
            spec_out == downsample_spec(rgba@, w as int, h as int, max_side as int),
            out@.len() == y * nw,
            out@ =~= spec_out.take(out@.len() as int),
        decreases nh - y,
    {
        let mut x: usize = 0;
        while x < nw
            invariant
                y < nh,
                x <= nw,
                8 <= nw,
                8 <= nh,
                nw * nh <= w * h,
                w * h * 4 <= rgba@.len(),
                total == rgba@.len(),
                8 <= w,
                8 <= h,
                (nw as int, nh as int) == work_dims(w as int, h as int, max_side as int),
                spec_out == downsample_spec(rgba@, w as int, h as int, max_side as int),
                out@.len() == y * nw + x,
                out@ =~= spec_out.take(out@.len() as int),
            decreases nw - x,
        {
            proof {
                lemma_index_bound(x as int, y as int, nw as int, nh as int);
                lemma_scale_index(x as int, w as int, nw as int);
                lemma_scale_index(y as int, h as int, nh as int);
            }
            assert((x as u128) * (w as u128) <= 0xffff_ffff_ffff_ffff_u128 * 0xffff_ffff_ffff_ffff_u128) by (nonlinear_arith)
                requires x <= 0xffff_ffff_ffff_ffff_u128, w <= 0xffff_ffff_ffff_ffff_u128;
            assert((y as u128) * (h as u128) <= 0xffff_ffff_ffff_ffff_u128 * 0xffff_ffff_ffff_ffff_u128) by (nonlinear_arith)
                requires y <= 0xffff_ffff_ffff_ffff_u128, h <= 0xffff_ffff_ffff_ffff_u128;
            let sx: usize = ((x as u128) * (w as u128) / (nw as u128)) as usize;
            let sy: usize = ((y as u128) * (h as u128) / (nh as u128)) as usize;
            proof {
                lemma_index_bound(sx as int, sy as int, w as int, h as int);
                assert((sy * w + sx) * 4 + 3 < w * h * 4) by (nonlinear_arith)
                    requires sy * w + sx < w * h;
                assert(0 <= sy * w) by (nonlinear_arith) requires 0 <= sy, 0 <= w;
            }
            let i: usize = (sy * w + sx) * 4;
            let l = luma_of(rgba[i], rgba[i + 1], rgba[i + 2]);
            let ghost k = out@.len() as int;
            out.push(l);
            proof {
                assert(k == y * nw + x);
                assert(spec_out[k] == l);
                assert(out@ =~= spec_out.take(out@.len() as int));
            }
            x += 1;
        }
        assert((y + 1) * nw == y * nw + nw) by (nonlinear_arith);
        y += 1;
    }
    proof {
        assert(nh * nw == nw * nh) by (nonlinear_arith);
        assert(out@.len() == nw * nh);
        assert(spec_out.len() == nw * nh);
        assert(out@ =~= spec_out);
    }
    (nw, nh, out)
}


/// The margin luma samples: corners, mid edges and the quarter heights.
pub open spec fn margin_samples(lum: Seq<u8>, w: int, h: int) -> Seq<u8> {
    let at = |x: int, y: int| lum[y * w + x];
    seq![
        at(0, 0), at(w / 2, 0), at(w - 1, 0),
        at(0, h / 4), at(w - 1, h / 4),
        at(0, h / 2), at(w - 1, h / 2),
        at(0, (3 * h) / 4), at(w - 1, (3 * h) / 4),
        at(0, h - 1), at(w / 2, h - 1), at(w - 1, h - 1),
    ]
}

pub open spec fn byte_leq() -> spec_fn(u8, u8) -> bool {
    |a: u8, b: u8| a <= b
}

/// The margin samples in ascending order.
pub open spec fn sorted_margin(lum: Seq<u8>, w: int, h: int) -> Seq<u8> {
    margin_samples(lum, w, h).sort_by(byte_leq())
}

/// Very light or very dark luma: a candidate for the paper colour.
pub open spec fn paperish(c: u8) -> bool {
    c >= 170 || c <= 45
}

/// How much one sample supports `c` as the paper colour.
pub open spec fn closeness(s: u8, c: u8) -> int {
    let d = abs_diff_spec(s as int, c as int);
    if d <= PAPER_TOL as int { 10 - d / 3 } else { 0 }
}

/// Total support of all samples for `c`.
pub open spec fn paper_score(samples: Seq<u8>, c: u8) -> int
    decreases samples.len(),
{
    if samples.len() == 0 {
        0
    } else {
        paper_score(samples.drop_last(), c) + closeness(samples.last(), c)
    }
}

/// A paper-like sample whose support is not negative.
pub open spec fn eligible(samples: Seq<u8>, c: u8) -> bool {
    paperish(c) && paper_score(samples, c) >= 0
}

/// `b` is the smallest eligible sample with the highest support.
pub open spec fn is_paper_choice(samples: Seq<u8>, b: u8) -> bool {
    &&& exists|i: int| 0 <= i < samples.len() && eligible(samples, samples[i]) && samples[i] == b
    &&& forall|j: int|
        0 <= j < samples.len() && eligible(samples, #[trigger] samples[j]) ==> paper_score(samples, samples[j])
            <= paper_score(samples, b) && (paper_score(samples, samples[j]) == paper_score(
            samples,
            b,
        ) ==> b <= samples[j])
}

/// Paper luma: the best supported eligible margin sample, else the median sample.
pub open spec fn paper_luma_spec(lum: Seq<u8>, w: int, h: int) -> u8 {
    let s = sorted_margin(lum, w, h);
    if exists|i: int| 0 <= i < s.len() && eligible(s, s[i]) {
        choose|b: u8| is_paper_choice(s, b)
    } else {
        s[6]
    }
}

fn sort_bytes(v: &Vec<u8>) -> (r: Vec<u8>)
    ensures
        sorted_by(r@, byte_leq()),
        r@.to_multiset() == v@.to_multiset(),
{
    let mut r: Vec<u8> = Vec::new();
    let mut i: usize = 0;
    assert(v@.take(0) =~= Seq::<u8>::empty());
    assert(r@ =~= Seq::<u8>::empty());
    while i < v.len()
        invariant
            i <= v@.len(),
            sorted_by(r@, byte_leq()),
            r@.to_multiset() == v@.take(i as int).to_multiset(),
        decreases v@.len() - i,
    {
        let x = v[i];
        let mut p: usize = r.len();
        while p > 0 && r[p - 1] > x
            invariant
                p <= r@.len(),
                forall|k: int| p <= k < r@.len() ==> r@[k] > x,
            decreases p,
        {
            p -= 1;
        }
        let ghost old_r = r@;
        r.insert(p, x);
        proof {
            old_r.insert_ensures(p as int, x);
            assert(r@ == old_r.insert(p as int, x));
            assert forall|a: int, b: int| 0 <= a < b < r@.len() implies #[trigger] byte_leq()(r@[a], r@[b]) by {
                if a < p && b < p {
                    assert(byte_leq()(old_r[a], old_r[b]));
                } else if a < p && b == p {
                    if p > 0 {
                        assert(byte_leq()(old_r[a], old_r[p - 1]));
                    }
                } else if a < p {
                    assert(byte_leq()(old_r[a], old_r[b - 1]));
                } else if a == p {
                    assert(old_r[b - 1] > x);
                } else {
                    assert(byte_leq()(old_r[a - 1], old_r[b - 1]));
                }
            }
            crate::seqs::lemma_insert_to_multiset(old_r, p as int, x);
            crate::seqs::lemma_take_push_multiset(v@, i as int);
        }
        i += 1;
    }
    assert(v@.take(i as int) =~= v@);
    r
}

proof fn lemma_byte_leq_total()
    ensures
        total_ordering(byte_leq()),
{
    assert(vstd::relations::reflexive(byte_leq()));
    assert(vstd::relations::antisymmetric(byte_leq()));
    assert(vstd::relations::transitive(byte_leq()));
    assert(vstd::relations::strongly_connected(byte_leq()));
}

fn score_candidate(samples: &Vec<u8>, c: u8) -> (sc: i32)
    requires
        samples@.len() <= 100,
    ensures
        sc == paper_score(samples@, c),
{
    let mut sc: i32 = 0;
    let mut k: usize = 0;
    while k < samples.len()
        invariant
            k <= samples@.len(),
            samples@.len() <= 100,
            sc == paper_score(samples@.take(k as int), c),
            -2 * k <= sc <= 10 * k,
        decreases samples@.len() - k,
    {
        let s = samples[k];
        let d: u8 = if s >= c { s - c } else { c - s };
        if d <= PAPER_TOL {
            sc = sc + 10 - (d / 3) as i32;
        }
        proof {
            assert(samples@.take(k + 1).drop_last() =~= samples@.take(k as int));
        }
        k += 1;
    }
    assert(samples@.take(k as int) =~= samples@);
    sc
}

/// Estimate the paper luma from the page margin.
pub fn sample_paper_luma(lum: &[u8], w: usize, h: usize) -> (paper: u8)
    requires
        1 <= w,
        1 <= h,
        3 * h <= usize::MAX,
        lum@.len() == w * h,
    ensures
        paper == paper_luma_spec(lum@, w as int, h as int),
{
    let n: usize = lum.len();
    let at = |x: usize, y: usize| -> (v: u8)
        requires
            x < w,
            y < h,
            lum@.len() == w * h,
            n == lum@.len(),
        ensures
            v == lum@[y * w + x],
    {
        proof {
            lemma_index_bound(x as int, y as int, w as int, h as int);
        }
        lum[y * w + x]
    };
    let samples: Vec<u8> = vec![
        at(0, 0), at(w / 2, 0), at(w - 1, 0),
        at(0, h / 4), at(w - 1, h / 4),
        at(0, h / 2), at(w - 1, h / 2),
        at(0, (3 * h) / 4), at(w - 1, (3 * h) / 4),
        at(0, h - 1), at(w / 2, h - 1), at(w - 1, h - 1),
    ];
    assert(samples@ =~= margin_samples(lum@, w as int, h as int));
    let sorted = sort_bytes(&samples);
    let ghost s = sorted_margin(lum@, w as int, h as int);
    proof {
        lemma_byte_leq_total();
        margin_samples(lum@, w as int, h as int).lemma_sort_by_ensures(byte_leq());
        vstd::seq_lib::lemma_sorted_unique(sorted@, s, byte_leq());
        assert(sorted@ == s);
        sorted@.to_multiset_ensures();
        samples@.to_multiset_ensures();
    }
    let mut best: u8 = sorted[6];
    let mut best_score: i32 = -1;
    let mut idx: usize = 0;
    while idx < sorted.len()
        invariant
            sorted@ == s,
            s.len() == 12,
            sorted_by(s, byte_leq()),
            idx <= 12,
            best_score == -1 ==> best == s[6],
            best_score >= -1,
            best_score == -1 <==> (forall|j: int| 0 <= j < idx ==> !eligible(s, #[trigger] s[j])),
            best_score != -1 ==> {
                &&& exists|i: int| 0 <= i < idx && eligible(s, s[i]) && s[i] == best
                &&& best_score == paper_score(s, best)
                &&& forall|j: int|
                    0 <= j < idx && eligible(s, #[trigger] s[j]) ==> paper_score(s, s[j]) <= best_score && (
                    paper_score(s, s[j]) == best_score ==> best <= s[j])
            },
        decreases 12 - idx,
    {
        let c = sorted[idx];
        if c >= 170 || c <= 45 {
            let sc = score_candidate(&sorted, c);
            if sc > best_score {
                best_score = sc;
                best = c;
            } else {
                proof {
                    if best_score != -1 {
                        let i = choose|i: int| 0 <= i < idx && eligible(s, s[i]) && s[i] == best;
                        assert(byte_leq()(s[i], s[idx as int]));
                    }
                }
            }
        }
        idx += 1;
    }
    proof {
        if exists|i: int| 0 <= i < s.len() && eligible(s, s[i]) {
            let i0 = choose|i: int| 0 <= i < s.len() && eligible(s, s[i]);
            assert(eligible(s, s[i0]));
            assert(best_score != -1);
            assert(is_paper_choice(s, best));
            let c = choose|b: u8| is_paper_choice(s, b);
            let ic = choose|i: int| 0 <= i < s.len() && eligible(s, s[i]) && s[i] == c;
            let ib = choose|i: int| 0 <= i < s.len() && eligible(s, s[i]) && s[i] == best;
            assert(eligible(s, s[ic]));
            assert(eligible(s, s[ib]));
            assert(c == best);
        } else {
            assert(best_score == -1);
        }
    }
    best
}


/// A rectangle of the working image, `[x0, x1) x [y0, y1)`.
#[derive(Clone, Copy)]
pub struct Region {
    pub x0: usize,
    pub y0: usize,
    /// Exclusive.
    pub x1: usize,
    /// Exclusive.
    pub y1: usize,
}

impl Region {
    pub open spec fn width_spec(self) -> int {
        if self.x1 >= self.x0 { self.x1 - self.x0 } else { 0 }
    }

    pub open spec fn height_spec(self) -> int {
        if self.y1 >= self.y0 { self.y1 - self.y0 } else { 0 }
    }

    /// Area, saturating at `usize::MAX`.
    pub open spec fn area_spec(self) -> int {
        let a = self.width_spec() * self.height_spec();
        if a > usize::MAX { usize::MAX as int } else { a }
    }

    /// The region lies inside a `w` by `h` image.
    pub open spec fn inside(self, w: int, h: int) -> bool {
        self.x0 <= self.x1 <= w && self.y0 <= self.y1 <= h
    }

    pub fn width(self) -> (r: usize)
        ensures
            r == self.width_spec(),
    {
        self.x1.saturating_sub(self.x0)
    }

    pub fn height(self) -> (r: usize)
        ensures
            r == self.height_spec(),
    {
        self.y1.saturating_sub(self.y0)
    }

    pub fn area(self) -> (r: usize)
        ensures
            r == self.area_spec(),
    {
        match self.width().checked_mul(self.height()) {
            Some(a) => a,
            None => usize::MAX,
        }
    }
}

/// Number of gutter pixels of row `y` between columns `x0` and `x1`.
pub open spec fn row_count(g: Seq<bool>, w: int, y: int, x0: int, x1: int) -> int
    decreases x1 - x0,
{
    if x1 <= x0 {
        0
    } else {
        row_count(g, w, y, x0, x1 - 1) + if g[y * w + x1 - 1] { 1int } else { 0int }
    }
}

/// Number of gutter pixels of column `x` between rows `y0` and `y1`.
pub open spec fn col_count(g: Seq<bool>, w: int, x: int, y0: int, y1: int) -> int
    decreases y1 - y0,
{
    if y1 <= y0 {
        0
    } else {
        col_count(g, w, x, y0, y1 - 1) + if g[(y1 - 1) * w + x] { 1int } else { 0int }
    }
}

/// Row `y` of the region is a gutter line: at least 88% of its pixels are gutter.
pub open spec fn row_gutter_spec(g: Seq<bool>, w: int, reg: Region, y: int) -> bool {
    let n = reg.width_spec();
    n == 0 || 25 * row_count(g, w, y, reg.x0 as int, reg.x1 as int) >= 22 * n
}

/// Column `x` of the region is a gutter line: at least 88% of its pixels are gutter.
pub open spec fn col_gutter_spec(g: Seq<bool>, w: int, reg: Region, x: int) -> bool {
    let n = reg.height_spec();
    n == 0 || 25 * col_count(g, w, x, reg.y0 as int, reg.y1 as int) >= 22 * n
}

proof fn lemma_row_count_bound(g: Seq<bool>, w: int, y: int, x0: int, x1: int)
    ensures
        0 <= row_count(g, w, y, x0, x1) <= if x1 >= x0 { x1 - x0 } else { 0 },
    decreases x1 - x0,
{
    if x1 > x0 {
        lemma_row_count_bound(g, w, y, x0, x1 - 1);
    }
}

proof fn lemma_col_count_bound(g: Seq<bool>, w: int, x: int, y0: int, y1: int)
    ensures
        0 <= col_count(g, w, x, y0, y1) <= if y1 >= y0 { y1 - y0 } else { 0 },
    decreases y1 - y0,
{
    if y1 > y0 {
        lemma_col_count_bound(g, w, x, y0, y1 - 1);
    }
}

pub fn row_is_gutter(gutter: &[bool], w: usize, reg: &Region, y: usize) -> (r: bool)
    requires
        reg.x0 <= reg.x1 <= w,
        (y + 1) * w <= gutter@.len(),
    ensures
        r == row_gutter_spec(gutter@, w as int, *reg, y as int),
{
    let n = reg.width();
    if n == 0 {
        return true;
    }
    let len = gutter.len();
    let mut g: usize = 0;
    let mut x: usize = reg.x0;
    while x < reg.x1
        invariant
            reg.x0 <= x <= reg.x1 <= w,
            (y + 1) * w <= gutter@.len(),
            len == gutter@.len(),
            g == row_count(gutter@, w as int, y as int, reg.x0 as int, x as int),
            g <= x - reg.x0,
        decreases reg.x1 - x,
    {
        assert(0 <= y * w && y * w + x < (y + 1) * w) by (nonlinear_arith)
            requires x < w, 0 <= y;
        if gutter[y * w + x] {
            g += 1;
        }
        x += 1;
    }
    25 * (g as u128) >= 22 * (n as u128)
}

pub fn col_is_gutter(gutter: &[bool], w: usize, reg: &Region, x: usize) -> (r: bool)
    requires
        x < w,
        reg.y0 <= reg.y1,
        reg.y1 * w <= gutter@.len(),
    ensures
        r == col_gutter_spec(gutter@, w as int, *reg, x as int),
{
    let n = reg.height();
    if n == 0 {
        return true;
    }
    let len = gutter.len();
    let mut g: usize = 0;
    let mut y: usize = reg.y0;
    while y < reg.y1
        invariant
            reg.y0 <= y <= reg.y1,
            x < w,
            reg.y1 * w <= gutter@.len(),
            len == gutter@.len(),
            g == col_count(gutter@, w as int, x as int, reg.y0 as int, y as int),
            g <= y - reg.y0,
        decreases reg.y1 - y,
    {
        assert(0 <= y * w && y * w + x < reg.y1 * w) by (nonlinear_arith)
            requires x < w, y < reg.y1, 0 <= y;
        if gutter[y * w + x] {
            g += 1;
        }
        y += 1;
    }
    25 * (g as u128) >= 22 * (n as u128)
}

/// Drop gutter rows from the top of the region.
pub open spec fn trim_top(g: Seq<bool>, w: int, reg: Region) -> Region
    decreases reg.y1 - reg.y0,
{
    if reg.y0 < reg.y1 && row_gutter_spec(g, w, reg, reg.y0 as int) {
        trim_top(g, w, Region { y0: (reg.y0 + 1) as usize, ..reg })
    } else {
        reg
    }
}

/// Drop gutter rows from the bottom of the region.
pub open spec fn trim_bottom(g: Seq<bool>, w: int, reg: Region) -> Region
    decreases reg.y1 - reg.y0,
{
    if reg.y1 > reg.y0 && row_gutter_spec(g, w, reg, reg.y1 - 1) {
        trim_bottom(g, w, Region { y1: (reg.y1 - 1) as usize, ..reg })
    } else {
        reg
    }
}

/// Drop gutter columns from the left of the region.
pub open spec fn trim_left(g: Seq<bool>, w: int, reg: Region) -> Region
    decreases reg.x1 - reg.x0,
{
    if reg.x0 < reg.x1 && col_gutter_spec(g, w, reg, reg.x0 as int) {
        trim_left(g, w, Region { x0: (reg.x0 + 1) as usize, ..reg })
    } else {
        reg
    }
}

/// Drop gutter columns from the right of the region.
pub open spec fn trim_right(g: Seq<bool>, w: int, reg: Region) -> Region
    decreases reg.x1 - reg.x0,
{
    if reg.x1 > reg.x0 && col_gutter_spec(g, w, reg, reg.x1 - 1) {
        trim_right(g, w, Region { x1: (reg.x1 - 1) as usize, ..reg })
    } else {
        reg
    }
}

/// The region without its gutter margins: top, bottom, left, then right.
pub open spec fn trim_spec(g: Seq<bool>, w: int, reg: Region) -> Region {
    trim_right(g, w, trim_left(g, w, trim_bottom(g, w, trim_top(g, w, reg))))
}

proof fn lemma_trim_inside(g: Seq<bool>, w: int, h: int, reg: Region)
    requires
        reg.inside(w, h),
    ensures
        trim_top(g, w, reg).inside(w, h),
        trim_top(g, w, reg).x0 == reg.x0 && trim_top(g, w, reg).x1 == reg.x1,
        trim_top(g, w, reg).y1 == reg.y1 && trim_top(g, w, reg).y0 >= reg.y0,
        trim_bottom(g, w, reg).inside(w, h),
        trim_bottom(g, w, reg).x0 == reg.x0 && trim_bottom(g, w, reg).x1 == reg.x1,
        trim_bottom(g, w, reg).y0 == reg.y0 && trim_bottom(g, w, reg).y1 <= reg.y1,
        trim_left(g, w, reg).inside(w, h),
        trim_left(g, w, reg).y0 == reg.y0 && trim_left(g, w, reg).y1 == reg.y1,
        trim_left(g, w, reg).x1 == reg.x1 && trim_left(g, w, reg).x0 >= reg.x0,
        trim_right(g, w, reg).inside(w, h),
        trim_right(g, w, reg).y0 == reg.y0 && trim_right(g, w, reg).y1 == reg.y1,
        trim_right(g, w, reg).x0 == reg.x0 && trim_right(g, w, reg).x1 <= reg.x1,
    decreases reg.x1 - reg.x0 + reg.y1 - reg.y0,
{
    if reg.y0 < reg.y1 {
        lemma_trim_inside(g, w, h, Region { y0: (reg.y0 + 1) as usize, ..reg });
        lemma_trim_inside(g, w, h, Region { y1: (reg.y1 - 1) as usize, ..reg });
    }
    if reg.x0 < reg.x1 {
        lemma_trim_inside(g, w, h, Region { x0: (reg.x0 + 1) as usize, ..reg });
        lemma_trim_inside(g, w, h, Region { x1: (reg.x1 - 1) as usize, ..reg });
    }
}

/// The trimmed region lies inside the region it was trimmed from.
pub proof fn lemma_trim_spec_within(g: Seq<bool>, w: int, h: int, reg: Region)
    requires
        reg.inside(w, h),
    ensures
        trim_spec(g, w, reg).inside(w, h),
        reg.x0 <= trim_spec(g, w, reg).x0,
        trim_spec(g, w, reg).x1 <= reg.x1,
        reg.y0 <= trim_spec(g, w, reg).y0,
        trim_spec(g, w, reg).y1 <= reg.y1,
{
    let a = trim_top(g, w, reg);
    lemma_trim_inside(g, w, h, reg);
    let b = trim_bottom(g, w, a);
    lemma_trim_inside(g, w, h, a);
    let c = trim_left(g, w, b);
    lemma_trim_inside(g, w, h, b);
    lemma_trim_inside(g, w, h, c);
}

pub fn trim_empty_margins(gutter: &[bool], w: usize, h: usize, reg: &mut Region)
    requires
        old(reg).inside(w as int, h as int),
        gutter@.len() == w * h,
    ensures
        *final(reg) == trim_spec(gutter@, w as int, *old(reg)),
{
    let ghost g = gutter@;
    let ghost r0 = *reg;
    proof {
        lemma_trim_inside(g, w as int, h as int, r0);
    }
    // Top
    loop
        invariant
            reg.inside(w as int, h as int),
            gutter@ == g,
            g.len() == w * h,
            trim_top(g, w as int, *reg) == trim_top(g, w as int, r0),
        ensures
            *reg == trim_top(g, w as int, r0),
        decreases reg.y1 - reg.y0,
    {
        if reg.y0 >= reg.y1 {
            break;
        }
        assert((reg.y0 + 1) * w <= w * h) by (nonlinear_arith)
            requires reg.y0 < reg.y1, reg.y1 <= h;
        if !row_is_gutter(gutter, w, reg, reg.y0) {
            break;
        }
        reg.y0 = reg.y0 + 1;
    }
    let ghost r1 = *reg;
    proof {
        lemma_trim_inside(g, w as int, h as int, r1);
    }
    // Bottom
    loop
        invariant
            reg.inside(w as int, h as int),
            gutter@ == g,
            g.len() == w * h,
            trim_bottom(g, w as int, *reg) == trim_bottom(g, w as int, r1),
        ensures
            *reg == trim_bottom(g, w as int, r1),
        decreases reg.y1 - reg.y0,
    {
        if reg.y1 <= reg.y0 {
            break;
        }
        assert(reg.y1 * w <= w * h) by (nonlinear_arith)
            requires reg.y1 <= h;
        if !row_is_gutter(gutter, w, reg, reg.y1 - 1) {
            break;
        }
        reg.y1 = reg.y1 - 1;
    }
    let ghost r2 = *reg;
    // Left
    loop
        invariant
            reg.inside(w as int, h as int),
            gutter@ == g,
            g.len() == w * h,
            trim_left(g, w as int, *reg) == trim_left(g, w as int, r2),
        ensures
            *reg == trim_left(g, w as int, r2),
        decreases reg.x1 - reg.x0,
    {
        if reg.x0 >= reg.x1 {
            break;
        }
        assert(reg.y1 * w <= w * h) by (nonlinear_arith)
            requires reg.y1 <= h;
        if !col_is_gutter(gutter, w, reg, reg.x0) {
            break;
        }
        reg.x0 = reg.x0 + 1;
    }
    let ghost r3 = *reg;
    // Right
    loop
        invariant
            reg.inside(w as int, h as int),
            gutter@ == g,
            g.len() == w * h,
            trim_right(g, w as int, *reg) == trim_right(g, w as int, r3),
        ensures
            *reg == trim_right(g, w as int, r3),
        decreases reg.x1 - reg.x0,
    {
        if reg.x1 <= reg.x0 {
            break;
        }
        assert(reg.y1 * w <= w * h) by (nonlinear_arith)
            requires reg.y1 <= h;
        if !col_is_gutter(gutter, w, reg, reg.x1 - 1) {
            break;
        }
        reg.x1 = reg.x1 - 1;
    }
}


/// Line `i` of the region (a row when `horizontal`, else a column) is a gutter line.
pub open spec fn line_gutter(g: Seq<bool>, w: int, reg: Region, horizontal: bool, i: int) -> bool {
    if horizontal {
        row_gutter_spec(g, w, reg, i)
    } else {
        col_gutter_spec(g, w, reg, i)
    }
}

/// First line at or after `i` (before `end`) that is not a gutter line, or `end`.
pub open spec fn skip_gutter(
    g: Seq<bool>,
    w: int,
    reg: Region,
    horizontal: bool,
    i: int,
    end: int,
) -> int
    decreases end - i,
{
    if i < end && line_gutter(g, w, reg, horizontal, i) {
        skip_gutter(g, w, reg, horizontal, i + 1, end)
    } else {
        i
    }
}

pub proof fn lemma_skip_gutter(g: Seq<bool>, w: int, reg: Region, horizontal: bool, i: int, end: int)
    requires
        i <= end,
    ensures
        i <= skip_gutter(g, w, reg, horizontal, i, end) <= end,
        i < end && line_gutter(g, w, reg, horizontal, i) ==> i < skip_gutter(
            g,
            w,
            reg,
            horizontal,
            i,
            end,
        ),
        forall|k: int|
            i <= k < skip_gutter(g, w, reg, horizontal, i, end) ==> line_gutter(
                g,
                w,
                reg,
                horizontal,
                k,
            ),
        skip_gutter(g, w, reg, horizontal, i, end) < end ==> !line_gutter(
            g,
            w,
            reg,
            horizontal,
            skip_gutter(g, w, reg, horizontal, i, end),
        ),
    decreases end - i,
{
    if i < end && line_gutter(g, w, reg, horizontal, i) {
        lemma_skip_gutter(g, w, reg, horizontal, i + 1, end);
    }
}

/// Scan from line `i` for the first maximal run of gutter lines that is at least
/// `min_thick` thick and has content on both sides.
pub open spec fn band_search(
    g: Seq<bool>,
    w: int,
    reg: Region,
    horizontal: bool,
    i: int,
    start: int,
    end: int,
    min_thick: int,
) -> Option<(int, int)>
    decreases end - i,
{
    if i >= end {
        None
    } else if !line_gutter(g, w, reg, horizontal, i) {
        band_search(g, w, reg, horizontal, i + 1, start, end, min_thick)
    } else {
        let b1 = skip_gutter(g, w, reg, horizontal, i, end);
        proof {
            lemma_skip_gutter(g, w, reg, horizontal, i, end);
        }
        if b1 - i >= min_thick && i > start && b1 < end {
            Some((i, b1))
        } else {
            band_search(g, w, reg, horizontal, b1, start, end, min_thick)
        }
    }
}

/// The first internal gutter band of the region, `[b0, b1)`, once the leading
/// gutter lines are skipped; `None` when the region is too thin.
pub open spec fn find_band_spec(
    g: Seq<bool>,
    w: int,
    reg: Region,
    horizontal: bool,
    min_thick: int,
) -> Option<(int, int)> {
    let start: int = if horizontal { reg.y0 as int } else { reg.x0 as int };
    let end: int = if horizontal { reg.y1 as int } else { reg.x1 as int };
    if end <= start + min_thick + 2 {
        None
    } else {
        band_search(
            g,
            w,
            reg,
            horizontal,
            skip_gutter(g, w, reg, horizontal, start, end),
            start,
            end,
            min_thick,
        )
    }
}

proof fn lemma_band_search(
    g: Seq<bool>,
    w: int,
    reg: Region,
    horizontal: bool,
    i: int,
    start: int,
    end: int,
    min_thick: int,
)
    requires
        i <= end,
    ensures
        band_search(g, w, reg, horizontal, i, start, end, min_thick) matches Some((b0, b1)) ==> {
            &&& start < b0
            &&& i <= b0
            &&& b0 + min_thick <= b1
            &&& b0 < b1
            &&& b1 < end
        },
    decreases end - i,
{
    if i >= end {
    } else if !line_gutter(g, w, reg, horizontal, i) {
        lemma_band_search(g, w, reg, horizontal, i + 1, start, end, min_thick);
    } else {
        lemma_skip_gutter(g, w, reg, horizontal, i, end);
        let b1 = skip_gutter(g, w, reg, horizontal, i, end);
        if b1 - i >= min_thick && i > start && b1 < end {
        } else {
            lemma_band_search(g, w, reg, horizontal, b1, start, end, min_thick);
        }
    }
}

/// A band found inside a region lies strictly inside the region's span.
pub proof fn lemma_find_band_bounds(
    g: Seq<bool>,
    w: int,
    reg: Region,
    horizontal: bool,
    min_thick: int,
)
    requires
        reg.x0 <= reg.x1,
        reg.y0 <= reg.y1,
    ensures
        find_band_spec(g, w, reg, horizontal, min_thick) matches Some((b0, b1)) ==> {
            &&& (if horizontal { reg.y0 as int } else { reg.x0 as int }) < b0
            &&& b0 + min_thick <= b1
            &&& b0 < b1
            &&& b1 < (if horizontal { reg.y1 as int } else { reg.x1 as int })
        },
{
    let start: int = if horizontal { reg.y0 as int } else { reg.x0 as int };
    let end: int = if horizontal { reg.y1 as int } else { reg.x1 as int };
    if end > start + min_thick + 2 {
        lemma_skip_gutter(g, w, reg, horizontal, start, end);
        lemma_band_search(
            g,
            w,
            reg,
            horizontal,
            skip_gutter(g, w, reg, horizontal, start, end),
            start,
            end,
            min_thick,
        );
    }
}

fn line_is_gutter(gutter: &[bool], w: usize, h: usize, reg: &Region, horizontal: bool, i: usize) -> (r: bool)
    requires
        reg.inside(w as int, h as int),
        gutter@.len() == w * h,
        horizontal ==> i < reg.y1,
        !horizontal ==> i < reg.x1,
    ensures
        r == line_gutter(gutter@, w as int, *reg, horizontal, i as int),
{
    if horizontal {
        assert((i + 1) * w <= w * h) by (nonlinear_arith)
            requires i < h;
        row_is_gutter(gutter, w, reg, i)
    } else {
        assert(reg.y1 * w <= w * h) by (nonlinear_arith)
            requires reg.y1 <= h;
        col_is_gutter(gutter, w, reg, i)
    }
}

/// Find the first internal gutter band of the region, `[b0, b1)`.
pub fn find_empty_band(
    gutter: &[bool],
    w: usize,
    h: usize,
    reg: Region,
    horizontal: bool,
    min_thick: usize,
) -> (band: Option<(usize, usize)>)
    requires
        reg.inside(w as int, h as int),
        gutter@.len() == w * h,
        reg.x0 + min_thick + 2 <= usize::MAX,
        reg.y0 + min_thick + 2 <= usize::MAX,
    ensures
        band is Some <==> find_band_spec(
            gutter@,
            w as int,
            reg,
            horizontal,
            min_thick as int,
        ) is Some,
        band matches Some((b0, b1)) ==> find_band_spec(
            gutter@,
            w as int,
            reg,
            horizontal,
            min_thick as int,
        ) == Some((b0 as int, b1 as int)),
{
    let ghost g = gutter@;
    let (start, end) = if horizontal {
        (reg.y0, reg.y1)
    } else {
        (reg.x0, reg.x1)
    };
    if end <= start + min_thick + 2 {
        return None;
    }
    // Skip the leading gutter lines.
    let mut i: usize = start;
    loop
        invariant
            start <= i <= end,
            start == (if horizontal { reg.y0 } else { reg.x0 }),
            end == (if horizontal { reg.y1 } else { reg.x1 }),
            reg.inside(w as int, h as int),
            gutter@ == g,
            g.len() == w * h,
            skip_gutter(g, w as int, reg, horizontal, i as int, end as int) == skip_gutter(
                g,
                w as int,
                reg,
                horizontal,
                start as int,
                end as int,
            ),
        ensures
            i == skip_gutter(g, w as int, reg, horizontal, start as int, end as int),
            i <= end,
        decreases end - i,
    {
        if i >= end {
            break;
        }
        if !line_is_gutter(gutter, w, h, &reg, horizontal, i) {
            break;
        }
        i += 1;
    }
    let ghost target = band_search(
        g,
        w as int,
        reg,
        horizontal,
        i as int,
        start as int,
        end as int,
        min_thick as int,
    );
    assert(target == find_band_spec(g, w as int, reg, horizontal, min_thick as int));
    while i < end
        invariant
            start <= i <= end,
            start == (if horizontal { reg.y0 } else { reg.x0 }),
            end == (if horizontal { reg.y1 } else { reg.x1 }),
            reg.inside(w as int, h as int),
            gutter@ == g,
            g.len() == w * h,
            band_search(
                g,
                w as int,
                reg,
                horizontal,
                i as int,
                start as int,
                end as int,
                min_thick as int,
            ) == target,
            target == find_band_spec(g, w as int, reg, horizontal, min_thick as int),
        decreases end - i,
    {
        if !line_is_gutter(gutter, w, h, &reg, horizontal, i) {
            i += 1;
            continue;
        }
        let b0 = i;
        loop
            invariant
                b0 <= i <= end,
                band_search(
                    g,
                    w as int,
                    reg,
                    horizontal,
                    b0 as int,
                    start as int,
                    end as int,
                    min_thick as int,
                ) == target,
                line_gutter(g, w as int, reg, horizontal, b0 as int),
                target == find_band_spec(g, w as int, reg, horizontal, min_thick as int),
                start == (if horizontal { reg.y0 } else { reg.x0 }),
                start <= b0 < end,
                end == (if horizontal { reg.y1 } else { reg.x1 }),
                reg.inside(w as int, h as int),
                gutter@ == g,
                g.len() == w * h,
                skip_gutter(g, w as int, reg, horizontal, i as int, end as int) == skip_gutter(
                    g,
                    w as int,
                    reg,
                    horizontal,
                    b0 as int,
                    end as int,
                ),
            ensures
                i == skip_gutter(g, w as int, reg, horizontal, b0 as int, end as int),
                b0 <= i <= end,
            decreases end - i,
        {
            if i >= end {
                break;
            }
            if !line_is_gutter(gutter, w, h, &reg, horizontal, i) {
                break;
            }
            i += 1;
        }
        let b1 = i;
        proof {
            lemma_skip_gutter(g, w as int, reg, horizontal, b0 as int, end as int);
            assert(band_search(
                g,
                w as int,
                reg,
                horizontal,
                b0 as int,
                start as int,
                end as int,
                min_thick as int,
            ) == if b1 - b0 >= min_thick && b0 > start && b1 < end {
                Some((b0 as int, b1 as int))
            } else {
                band_search(g, w as int, reg, horizontal, b1 as int, start as int, end as int, min_thick as int)
            });
        }
        if b1 - b0 >= min_thick && b0 > start && b1 < end {
            return Some((b0, b1));
        }
    }
    None
}

pub type Rect = (usize, usize, usize, usize);

/// The rectangle `(x, y, width, height)` covering a region.
pub open spec fn leaf_rect(reg: Region) -> Rect {
    (reg.x0, reg.y0, reg.width_spec() as usize, reg.height_spec() as usize)
}

/// Minimum band thickness for a region side of `n` pixels: 1.2%, at least 2.
pub open spec fn min_band(n: int) -> int {
    if n * 12 / 1000 < MIN_BAND_PX as int { MIN_BAND_PX as int } else { n * 12 / 1000 }
}

/// Which band to split along: the one starting closer to the region's origin,
/// horizontal on ties.
pub open spec fn pick_split(
    hb: Option<(int, int)>,
    vb: Option<(int, int)>,
    reg: Region,
) -> Option<(bool, (int, int))> {
    match (hb, vb) {
        (Some(hb), Some(vb)) => if hb.0 - reg.y0 <= vb.0 - reg.x0 {
            Some((true, hb))
        } else {
            Some((false, vb))
        },
        (Some(hb), None) => Some((true, hb)),
        (None, Some(vb)) => Some((false, vb)),
        (None, None) => None,
    }
}

/// The two parts of a region on either side of a band.
pub open spec fn split_parts(reg: Region, horizontal: bool, b0: int, b1: int) -> (Region, Region) {
    if horizontal {
        (Region { y1: b0 as usize, ..reg }, Region { y0: b1 as usize, ..reg })
    } else {
        (Region { x1: b0 as usize, ..reg }, Region { x0: b1 as usize, ..reg })
    }
}

/// Leaf rectangles of the partition of `reg`, and the split count afterwards.
pub open spec fn bsp_spec(
    g: Seq<bool>,
    w: int,
    reg: Region,
    depth: int,
    min_leaf: int,
    splits: int,
) -> (Seq<Rect>, int)
    decreases MAX_DEPTH - depth,
{
    if reg.width_spec() < 4 || reg.height_spec() < 4 {
        (Seq::empty(), splits)
    } else if depth >= MAX_DEPTH || splits >= MAX_SPLITS {
        (if reg.area_spec() >= min_leaf { seq![leaf_rect(reg)] } else { Seq::empty() }, splits)
    } else {
        let t = trim_spec(g, w, reg);
        if t.width_spec() < 4 || t.height_spec() < 4 {
            (Seq::empty(), splits)
        } else if t.area_spec() <= min_leaf {
            (seq![leaf_rect(t)], splits)
        } else {
            let hb = find_band_spec(g, w, t, true, min_band(t.height_spec()));
            let vb = find_band_spec(g, w, t, false, min_band(t.width_spec()));
            match pick_split(hb, vb, t) {
                None => (
                    if t.area_spec() >= min_leaf { seq![leaf_rect(t)] } else { Seq::empty() },
                    splits,
                ),
                Some((horizontal, (b0, b1))) => {
                    let (a, b) = split_parts(t, horizontal, b0, b1);
                    let first = if a.area_spec() >= min_leaf / 2 {
                        bsp_spec(g, w, a, depth + 1, min_leaf, splits + 1)
                    } else {
                        (Seq::empty(), splits + 1)
                    };
                    let second = if b.area_spec() >= min_leaf / 2 {
                        bsp_spec(g, w, b, depth + 1, min_leaf, first.1)
                    } else {
                        (Seq::empty(), first.1)
                    };
                    (first.0 + second.0, second.1)
                },
            }
        }
    }
}

/// Every leaf lies inside its region, is at least 4 pixels on each side, and the
/// split count never passes its limit.
pub proof fn lemma_bsp_spec(
    g: Seq<bool>,
    w: int,
    h: int,
    reg: Region,
    depth: int,
    min_leaf: int,
    splits: int,
)
    requires
        reg.inside(w, h),
        0 <= splits <= MAX_SPLITS,
        0 <= depth,
    ensures
        splits <= bsp_spec(g, w, reg, depth, min_leaf, splits).1 <= MAX_SPLITS,
        forall|k: int|
            0 <= k < bsp_spec(g, w, reg, depth, min_leaf, splits).0.len() ==> {
                let r = #[trigger] bsp_spec(g, w, reg, depth, min_leaf, splits).0[k];
                &&& reg.x0 <= r.0
                &&& reg.y0 <= r.1
                &&& 4 <= r.2
                &&& 4 <= r.3
                &&& r.0 + r.2 <= reg.x1
                &&& r.1 + r.3 <= reg.y1
            },
    decreases MAX_DEPTH - depth,
{
    if reg.width_spec() < 4 || reg.height_spec() < 4 {
    } else if depth >= MAX_DEPTH || splits >= MAX_SPLITS {
    } else {
        let t = trim_spec(g, w, reg);
        lemma_trim_spec_within(g, w, h, reg);
        if t.width_spec() < 4 || t.height_spec() < 4 {
        } else if t.area_spec() <= min_leaf {
        } else {
            let hb = find_band_spec(g, w, t, true, min_band(t.height_spec()));
            let vb = find_band_spec(g, w, t, false, min_band(t.width_spec()));
            lemma_find_band_bounds(g, w, t, true, min_band(t.height_spec()));
            lemma_find_band_bounds(g, w, t, false, min_band(t.width_spec()));
            match pick_split(hb, vb, t) {
                None => {},
                Some((horizontal, (b0, b1))) => {
                    let (a, b) = split_parts(t, horizontal, b0, b1);
                    assert(a.inside(w, h));
                    assert(b.inside(w, h));
                    let first = if a.area_spec() >= min_leaf / 2 {
                        lemma_bsp_spec(g, w, h, a, depth + 1, min_leaf, splits + 1);
                        bsp_spec(g, w, a, depth + 1, min_leaf, splits + 1)
                    } else {
                        (Seq::empty(), splits + 1)
                    };
                    let second = if b.area_spec() >= min_leaf / 2 {
                        lemma_bsp_spec(g, w, h, b, depth + 1, min_leaf, first.1);
                        bsp_spec(g, w, b, depth + 1, min_leaf, first.1)
                    } else {
                        (Seq::empty(), first.1)
                    };
                    let all = first.0 + second.0;
                    assert(bsp_spec(g, w, reg, depth, min_leaf, splits) == (all, second.1));
                    assert forall|k: int| 0 <= k < all.len() implies {
                        let r = #[trigger] all[k];
                        &&& reg.x0 <= r.0
                        &&& reg.y0 <= r.1
                        &&& 4 <= r.2
                        &&& 4 <= r.3
                        &&& r.0 + r.2 <= reg.x1
                        &&& r.1 + r.3 <= reg.y1
                    } by {
                        if k < first.0.len() {
                            assert(all[k] == first.0[k]);
                        } else {
                            assert(all[k] == second.0[k - first.0.len()]);
                        }
                    }
                },
            }
        }
    }
}


/// Two rectangles share no pixel: one lies wholly left of, right of, above or
/// below the other.
pub open spec fn rects_apart(r: Rect, s: Rect) -> bool {
    r.0 + r.2 <= s.0 || s.0 + s.2 <= r.0 || r.1 + r.3 <= s.1 || s.1 + s.3 <= r.1
}

/// The leaves of the recursive split are pairwise disjoint.
pub proof fn lemma_bsp_disjoint(
    g: Seq<bool>,
    w: int,
    h: int,
    reg: Region,
    depth: int,
    min_leaf: int,
    splits: int,
)
    requires
        reg.inside(w, h),
        0 <= splits <= MAX_SPLITS,
        0 <= depth,
    ensures
        forall|j: int, k: int|
            0 <= j < k < bsp_spec(g, w, reg, depth, min_leaf, splits).0.len() ==> rects_apart(
                #[trigger] bsp_spec(g, w, reg, depth, min_leaf, splits).0[j],
                #[trigger] bsp_spec(g, w, reg, depth, min_leaf, splits).0[k],
            ),
    decreases MAX_DEPTH - depth,
{
    if reg.width_spec() < 4 || reg.height_spec() < 4 {
    } else if depth >= MAX_DEPTH || splits >= MAX_SPLITS {
    } else {
        let t = trim_spec(g, w, reg);
        lemma_trim_spec_within(g, w, h, reg);
        if t.width_spec() < 4 || t.height_spec() < 4 {
        } else if t.area_spec() <= min_leaf {
        } else {
            let hb = find_band_spec(g, w, t, true, min_band(t.height_spec()));
            let vb = find_band_spec(g, w, t, false, min_band(t.width_spec()));
            lemma_find_band_bounds(g, w, t, true, min_band(t.height_spec()));
            lemma_find_band_bounds(g, w, t, false, min_band(t.width_spec()));
            match pick_split(hb, vb, t) {
                None => {},
                Some((horizontal, (b0, b1))) => {
                    let (a, b) = split_parts(t, horizontal, b0, b1);
                    assert(a.inside(w, h));
                    assert(b.inside(w, h));
                    let first = if a.area_spec() >= min_leaf / 2 {
                        lemma_bsp_spec(g, w, h, a, depth + 1, min_leaf, splits + 1);
                        lemma_bsp_disjoint(g, w, h, a, depth + 1, min_leaf, splits + 1);
                        bsp_spec(g, w, a, depth + 1, min_leaf, splits + 1)
                    } else {
                        (Seq::empty(), splits + 1)
                    };
                    lemma_bsp_spec(g, w, h, a, depth + 1, min_leaf, splits + 1);
                    let second = if b.area_spec() >= min_leaf / 2 {
                        lemma_bsp_spec(g, w, h, b, depth + 1, min_leaf, first.1);
                        lemma_bsp_disjoint(g, w, h, b, depth + 1, min_leaf, first.1);
                        bsp_spec(g, w, b, depth + 1, min_leaf, first.1)
                    } else {
                        (Seq::empty(), first.1)
                    };
                    let all = first.0 + second.0;
                    assert(bsp_spec(g, w, reg, depth, min_leaf, splits) == (all, second.1));
                    assert forall|j: int, k: int| 0 <= j < k < all.len() implies rects_apart(
                        #[trigger] all[j],
                        #[trigger] all[k],
                    ) by {
                        if k < first.0.len() {
                            assert(all[j] == first.0[j] && all[k] == first.0[k]);
                        } else if j >= first.0.len() {
                            assert(all[j] == second.0[j - first.0.len()]);
                            assert(all[k] == second.0[k - first.0.len()]);
                        } else {
                            let r = first.0[j];
                            let q = second.0[k - first.0.len()];
                            assert(all[j] == r && all[k] == q);
                            assert(r.0 + r.2 <= a.x1 && r.1 + r.3 <= a.y1);
                            assert(b.x0 <= q.0 && b.y0 <= q.1);
                        }
                    }
                },
            }
        }
    }
}

fn min_band_of(n: usize) -> (r: usize)
    ensures
        r == min_band(n as int),
        r <= n + 2,
{
    let m: usize = ((n as u128) * 12 / 1000) as usize;
    if m < MIN_BAND_PX {
        MIN_BAND_PX
    } else {
        m
    }
}

/// Recursively split `reg` along empty gutter bands, appending the leaf panels.
pub fn bsp_split(
    gutter: &[bool],
    w: usize,
    h: usize,
    reg: Region,
    depth: u32,
    min_leaf: usize,
    splits: &mut u32,
    out: &mut Vec<Rect>,
)
    requires
        reg.inside(w as int, h as int),
        gutter@.len() == w * h,
        w + h + 8 <= usize::MAX,
        *old(splits) <= MAX_SPLITS,
    ensures
        final(out)@ == old(out)@ + bsp_spec(
            gutter@,
            w as int,
            reg,
            depth as int,
            min_leaf as int,
            *old(splits) as int,
        ).0,
        *final(splits) == bsp_spec(
            gutter@,
            w as int,
            reg,
            depth as int,
            min_leaf as int,
            *old(splits) as int,
        ).1,
    decreases MAX_DEPTH - depth,
{
    let ghost g = gutter@;
    let ghost s0 = *splits as int;
    let ghost reg0 = reg;
    proof {
        lemma_bsp_spec(g, w as int, h as int, reg, depth as int, min_leaf as int, s0);
    }
    let mut reg = reg;
    if reg.width() < 4 || reg.height() < 4 {
        assert(out@ =~= old(out)@ + Seq::<Rect>::empty());
        return;
    }
    if depth >= MAX_DEPTH || *splits >= MAX_SPLITS {
        if reg.area() >= min_leaf {
            out.push((reg.x0, reg.y0, reg.width(), reg.height()));
        } else {
            assert(out@ =~= old(out)@ + Seq::<Rect>::empty());
        }
        return;
    }
    trim_empty_margins(gutter, w, h, &mut reg);
    proof {
        lemma_trim_spec_within(g, w as int, h as int, reg0);
    }
    if reg.width() < 4 || reg.height() < 4 {
        assert(out@ =~= old(out)@ + Seq::<Rect>::empty());
        return;
    }
    if reg.area() <= min_leaf {
        out.push((reg.x0, reg.y0, reg.width(), reg.height()));
        return;
    }
    let min_band_h = min_band_of(reg.height());
    let min_band_w = min_band_of(reg.width());
    let h_band = find_empty_band(gutter, w, h, reg, true, min_band_h);
    let v_band = find_empty_band(gutter, w, h, reg, false, min_band_w);
    let ghost hb = find_band_spec(g, w as int, reg, true, min_band(reg.height_spec()));
    let ghost vb = find_band_spec(g, w as int, reg, false, min_band(reg.width_spec()));
    proof {
        lemma_find_band_bounds(g, w as int, reg, true, min_band(reg.height_spec()));
        lemma_find_band_bounds(g, w as int, reg, false, min_band(reg.width_spec()));
    }
    let split: Option<(bool, (usize, usize))> = match (h_band, v_band) {
        (Some(hb), Some(vb)) => {
            let h_rel = hb.0 - reg.y0;
            let v_rel = vb.0 - reg.x0;
            if h_rel <= v_rel {
                Some((true, hb))
            } else {
                Some((false, vb))
            }
        },
        (Some(hb), None) => Some((true, hb)),
        (None, Some(vb)) => Some((false, vb)),
        (None, None) => None,
    };
    proof {
        match split {
            Some((hz, (b0, b1))) => {
                assert(pick_split(hb, vb, reg) == Some((hz, (b0 as int, b1 as int))));
            },
            None => {
                assert(pick_split(hb, vb, reg) is None);
            },
        }
    }
    let (horizontal, (b0, b1)) = match split {
        Some(sp) => sp,
        None => {
            if reg.area() >= min_leaf {
                out.push((reg.x0, reg.y0, reg.width(), reg.height()));
            } else {
                assert(out@ =~= old(out)@ + Seq::<Rect>::empty());
            }
            return;
        },
    };
    *splits = *splits + 1;
    let (first, second) = if horizontal {
        (
            Region { x0: reg.x0, y0: reg.y0, x1: reg.x1, y1: b0 },
            Region { x0: reg.x0, y0: b1, x1: reg.x1, y1: reg.y1 },
        )
    } else {
        (
            Region { x0: reg.x0, y0: reg.y0, x1: b0, y1: reg.y1 },
            Region { x0: b1, y0: reg.y0, x1: reg.x1, y1: reg.y1 },
        )
    };
    assert((first, second) == split_parts(reg, horizontal, b0 as int, b1 as int));
    let ghost mid_out = out@;
    if first.area() >= min_leaf / 2 {
        proof {
            lemma_bsp_spec(g, w as int, h as int, first, depth as int + 1, min_leaf as int, s0 + 1);
        }
        bsp_split(gutter, w, h, first, depth + 1, min_leaf, splits, out);
    }
    let ghost after_first = out@;
    if second.area() >= min_leaf / 2 {
        bsp_split(gutter, w, h, second, depth + 1, min_leaf, splits, out);
    }
    proof {
        let fst = if first.area_spec() >= min_leaf / 2 {
            bsp_spec(g, w as int, first, depth + 1, min_leaf as int, s0 + 1)
        } else {
            (Seq::empty(), s0 + 1)
        };
        assert(after_first =~= mid_out + fst.0);
        let snd = if second.area_spec() >= min_leaf / 2 {
            bsp_spec(g, w as int, second, depth + 1, min_leaf as int, fst.1)
        } else {
            (Seq::empty(), fst.1)
        };
        assert(out@ =~= after_first + snd.0);
        assert(bsp_spec(g, w as int, reg0, depth as int, min_leaf as int, s0) == (fst.0 + snd.0, snd.1));
        assert(out@ =~= old(out)@ + (fst.0 + snd.0));
    }
}


/// Row `y` of the whole page is a gutter row (at least 88% gutter).
pub open spec fn full_gutter_row(g: Seq<bool>, w: int, y: int) -> bool {
    25 * row_count(g, w, y, 0, w) >= 22 * w
}

/// Row `y` or one of its neighbours is a gutter row.
pub open spec fn thick_row(g: Seq<bool>, w: int, h: int, y: int) -> bool {
    (y > 0 && full_gutter_row(g, w, y - 1)) || full_gutter_row(g, w, y) || (y + 1 < h
        && full_gutter_row(g, w, y + 1))
}

/// First row at or after `y` whose thickened gutter flag differs from `flag`.
pub open spec fn scan_rows(g: Seq<bool>, w: int, h: int, y: int, flag: bool) -> int
    decreases h - y,
{
    if y < h && thick_row(g, w, h, y) == flag {
        scan_rows(g, w, h, y + 1, flag)
    } else {
        y
    }
}

pub proof fn lemma_scan_rows(g: Seq<bool>, w: int, h: int, y: int, flag: bool)
    requires
        y <= h,
    ensures
        y <= scan_rows(g, w, h, y, flag) <= h,
        y < h && thick_row(g, w, h, y) == flag ==> y < scan_rows(g, w, h, y, flag),
    decreases h - y,
{
    if y < h && thick_row(g, w, h, y) == flag {
        lemma_scan_rows(g, w, h, y + 1, flag);
    }
}

/// The full-width bands of content rows from row `y` down that are at least
/// `min_h` rows tall.
pub open spec fn row_bands(g: Seq<bool>, w: int, h: int, y: int, min_h: int) -> Seq<Rect>
    decreases h - y,
{
    if y >= h {
        Seq::empty()
    } else {
        let y0 = scan_rows(g, w, h, y, true);
        if y0 >= h {
            Seq::empty()
        } else {
            let y1 = scan_rows(g, w, h, y0, false);
            proof {
                lemma_scan_rows(g, w, h, y, true);
                lemma_scan_rows(g, w, h, y0, false);
            }
            let rest = row_bands(g, w, h, y1, min_h);
            if y1 - y0 >= min_h {
                seq![(0usize, y0 as usize, w as usize, (y1 - y0) as usize)] + rest
            } else {
                rest
            }
        }
    }
}

/// Minimum height of a row slice: 6% of the page, at least 12 rows.
pub open spec fn min_slice(h: int) -> int {
    if h * 6 / 100 < 12 { 12 } else { h * 6 / 100 }
}

/// Full-width slices between gutter rows, or the whole page when there are none.
pub open spec fn row_slices_spec(g: Seq<bool>, w: int, h: int) -> Seq<Rect> {
    let b = row_bands(g, w, h, 0, min_slice(h));
    if b.len() == 0 { seq![(0usize, 0usize, w as usize, h as usize)] } else { b }
}

proof fn lemma_row_bands(g: Seq<bool>, w: int, h: int, y: int, min_h: int)
    requires
        0 <= y <= h,
        0 < min_h,
        0 <= w <= usize::MAX,
        h <= usize::MAX,
    ensures
        forall|k: int|
            0 <= k < row_bands(g, w, h, y, min_h).len() ==> {
                let r = #[trigger] row_bands(g, w, h, y, min_h)[k];
                &&& r.0 == 0
                &&& r.2 == w
                &&& y <= r.1
                &&& 1 <= r.3
                &&& r.1 + r.3 <= h
            },
    decreases h - y,
{
    if y < h {
        let y0 = scan_rows(g, w, h, y, true);
        lemma_scan_rows(g, w, h, y, true);
        if y0 < h {
            let y1 = scan_rows(g, w, h, y0, false);
            lemma_scan_rows(g, w, h, y0, false);
            lemma_row_bands(g, w, h, y1, min_h);
            let rest = row_bands(g, w, h, y1, min_h);
            if y1 - y0 >= min_h {
                let head = seq![(0usize, y0 as usize, w as usize, (y1 - y0) as usize)];
                assert forall|k: int| 0 <= k < (head + rest).len() implies {
                    let r = #[trigger] (head + rest)[k];
                    &&& r.0 == 0
                    &&& r.2 == w
                    &&& y <= r.1
                    &&& 1 <= r.3
                    &&& r.1 + r.3 <= h
                } by {
                    if k > 0 {
                        assert((head + rest)[k] == rest[k - 1]);
                    } else {
                        assert((head + rest)[k] == head[0]);
                    }
                }
            }
        }
    }
}

/// Full-width slices of the page between gutter rows.
pub fn detect_row_slices(gutter: &[bool], w: usize, h: usize) -> (rows: Vec<Rect>)
    requires
        1 <= w,
        1 <= h,
        gutter@.len() == w * h,
    ensures
        rows@ == row_slices_spec(gutter@, w as int, h as int),
{
    let ghost g = gutter@;
    let whole = Region { x0: 0, y0: 0, x1: w, y1: h };
    let mut full: Vec<bool> = Vec::new();
    let mut y: usize = 0;
    while y < h
        invariant
            y <= h,
            whole == (Region { x0: 0, y0: 0, x1: w, y1: h }),
            gutter@ == g,
            g.len() == w * h,
            full@.len() == y,
            forall|k: int| 0 <= k < y ==> full@[k] == full_gutter_row(g, w as int, k),
        decreases h - y,
    {
        assert((y + 1) * w <= w * h) by (nonlinear_arith)
            requires y < h;
        let r = row_is_gutter(gutter, w, &whole, y);
        full.push(r);
        y += 1;
    }
    // Thicken so thin gutters still separate.
    let mut thick: Vec<bool> = Vec::new();
    let mut y: usize = 0;
    while y < h
        invariant
            y <= h,
            full@.len() == h,
            forall|k: int| 0 <= k < h ==> full@[k] == full_gutter_row(g, w as int, k),
            thick@.len() == y,
            forall|k: int| 0 <= k < y ==> thick@[k] == thick_row(g, w as int, h as int, k),
        decreases h - y,
    {
        let t = (y > 0 && full[y - 1]) || full[y] || (y + 1 < h && full[y + 1]);
        thick.push(t);
        y += 1;
    }
    let six: u128 = (h as u128) * 6 / 100;
    assert(six <= h) by (nonlinear_arith)
        requires six == (h as u128) * 6 / 100, 0 <= h;
    let min_h: usize = if six < 12 { 12 } else { six as usize };
    assert(min_h == if h * 6 / 100 < 12 { 12 } else { h * 6 / 100 });
    let mut bands: Vec<Rect> = Vec::new();
    let mut y: usize = 0;
    let ghost target = row_bands(g, w as int, h as int, 0, min_h as int);
    while y < h
        invariant
            y <= h,
            thick@.len() == h,
            forall|k: int| 0 <= k < h ==> thick@[k] == thick_row(g, w as int, h as int, k),
            bands@ + row_bands(g, w as int, h as int, y as int, min_h as int) == target,
        ensures
            bands@ == target,
        decreases h - y,
    {
        let ghost ystart = y;
        while y < h && thick[y]
            invariant
                ystart <= y <= h,
                thick@.len() == h,
                forall|k: int| 0 <= k < h ==> thick@[k] == thick_row(g, w as int, h as int, k),
                scan_rows(g, w as int, h as int, y as int, true) == scan_rows(
                    g,
                    w as int,
                    h as int,
                    ystart as int,
                    true,
                ),
            decreases h - y,
        {
            y += 1;
        }
        if y >= h {
            assert(row_bands(g, w as int, h as int, ystart as int, min_h as int) =~= Seq::empty());
            assert(bands@ =~= bands@ + Seq::<Rect>::empty());
            break;
        }
        let y0 = y;
        while y < h && !thick[y]
            invariant
                y0 <= y <= h,
                thick@.len() == h,
                forall|k: int| 0 <= k < h ==> thick@[k] == thick_row(g, w as int, h as int, k),
                scan_rows(g, w as int, h as int, y as int, false) == scan_rows(
                    g,
                    w as int,
                    h as int,
                    y0 as int,
                    false,
                ),
            decreases h - y,
        {
            y += 1;
        }
        let ghost rest = row_bands(g, w as int, h as int, y as int, min_h as int);
        if y - y0 >= min_h {
            let ghost before = bands@;
            bands.push((0, y0, w, y - y0));
            proof {
                assert(row_bands(g, w as int, h as int, ystart as int, min_h as int) == seq![(
                    0usize,
                    y0,
                    w,
                    (y - y0) as usize,
                )] + rest);
                assert(bands@ + rest =~= before + (seq![(0usize, y0, w, (y - y0) as usize)] + rest));
            }
        } else {
            assert(row_bands(g, w as int, h as int, ystart as int, min_h as int) == rest);
        }
    }
    if bands.len() == 0 {
        vec![(0, 0, w, h)]
    } else {
        bands
    }
}


/// A working-image rectangle as a fraction of the `sw` by `sh` page, in units of
/// a hundredth of a pixel; width and height are clamped to [4%, 100%].
pub open spec fn norm_rect(r: Rect, sw: int, sh: int) -> PanelRect {
    let across = 100 * sw;
    let down = 100 * sh;
    let x = if 100 * r.0 > across { across } else { 100 * r.0 };
    let y = if 100 * r.1 > down { down } else { 100 * r.1 };
    let w = if 100 * r.2 < 4 * sw { 4 * sw } else if 100 * r.2 > across { across } else { 100 * r.2 };
    let h = if 100 * r.3 < 4 * sh { 4 * sh } else if 100 * r.3 > down { down } else { 100 * r.3 };
    PanelRect {
        x: x as u32,
        y: y as u32,
        w: w as u32,
        h: h as u32,
        across: across as u32,
        down: down as u32,
    }
}

/// The panel covers at least 85% of the minimum leaf area (1/70 of the page).
pub open spec fn big_enough(p: PanelRect) -> bool {
    1400 * (p.w as int * p.h as int) >= 17 * (p.across as int * p.down as int)
}

/// Snap panels that nearly touch the page edges to those edges, and widen
/// panels spanning most of the width to the full width.
pub open spec fn snap_panel(p: PanelRect) -> PanelRect {
    let across = p.across as int;
    let down = p.down as int;
    let p1 = if 50 * p.x <= across {
        PanelRect { w: (if p.w + p.x > across { across } else { p.w + p.x }) as u32, x: 0, ..p }
    } else {
        p
    };
    let p2 = if 200 * p1.y <= 3 * down {
        PanelRect { h: (if p1.h + p1.y > down { down } else { p1.h + p1.y }) as u32, y: 0, ..p1 }
    } else {
        p1
    };
    let p3 = if 50 * (p2.x + p2.w) >= 49 * across {
        PanelRect { w: (across - p2.x) as u32, ..p2 }
    } else {
        p2
    };
    let p4 = if 200 * (p3.y + p3.h) >= 197 * down {
        PanelRect { h: (down - p3.y) as u32, ..p3 }
    } else {
        p3
    };
    let p5 = if 25 * p4.w >= 22 * across {
        PanelRect { x: 0, w: across as u32, ..p4 }
    } else {
        p4
    };
    whole_page_canon(p5)
}

/// A panel covering the whole page is written as the whole page, `0, 0, 1, 1`
/// out of `1, 1`, so that equal rectangles compare equal.
pub open spec fn whole_page_canon(p: PanelRect) -> PanelRect {
    if p.x == 0 && p.y == 0 && p.w == p.across && p.h == p.down {
        full_page_spec()
    } else {
        p
    }
}

/// Normalise, drop the tiny ones, and snap.
pub open spec fn norm_all(rects: Seq<Rect>, sw: int, sh: int) -> Seq<PanelRect>
    decreases rects.len(),
{
    if rects.len() == 0 {
        Seq::empty()
    } else {
        let rest = norm_all(rects.drop_last(), sw, sh);
        let p = norm_rect(rects.last(), sw, sh);
        if big_enough(p) { rest.push(snap_panel(p)) } else { rest }
    }
}

/// Page order of detected panels: vertical centres within 5% of the page count
/// as one row, ordered left to right; otherwise top to bottom.
pub open spec fn page_order(a: PanelRect, b: PanelRect) -> bool {
    let ca = (2 * a.y + a.h) * b.down;
    let cb = (2 * b.y + b.h) * a.down;
    let d = if ca >= cb { ca - cb } else { cb - ca };
    if 10 * d < a.down as int * b.down as int {
        left_of(a, b)
    } else {
        ca < cb
    }
}

pub open spec fn page_less() -> spec_fn(PanelRect, PanelRect) -> bool {
    |a: PanelRect, b: PanelRect| page_order(a, b)
}

/// Detected rectangles as normalised panels in page order (the whole page when
/// none is large enough).
pub open spec fn to_norm_spec(rects: Seq<Rect>, sw: int, sh: int) -> Seq<PanelRect> {
    let ps = isort(norm_all(rects, sw, sh), page_less());
    if ps.len() == 0 { seq![full_page_spec()] } else { ps }
}

/// The rectangle lies on the `sw` by `sh` page and is not empty.
pub open spec fn rect_on_page(r: Rect, sw: int, sh: int) -> bool {
    &&& 1 <= r.2
    &&& 1 <= r.3
    &&& r.0 + r.2 <= sw
    &&& r.1 + r.3 <= sh
}

/// A panel on the page with a positive size.
pub open spec fn proper_panel(p: PanelRect) -> bool {
    p.wf() && p.w > 0 && p.h > 0
}

pub proof fn lemma_snap_proper(r: Rect, sw: int, sh: int)
    requires
        rect_on_page(r, sw, sh),
        1 <= sw <= WORK_SIDE,
        1 <= sh <= WORK_SIDE,
    ensures
        proper_panel(snap_panel(norm_rect(r, sw, sh))),
        snap_panel(norm_rect(r, sw, sh)) == full_page_spec() || (snap_panel(norm_rect(r, sw, sh)).across
            == 100 * sw && snap_panel(norm_rect(r, sw, sh)).down == 100 * sh),
{
}

proof fn lemma_norm_all(rects: Seq<Rect>, sw: int, sh: int)
    requires
        forall|k: int| 0 <= k < rects.len() ==> rect_on_page(#[trigger] rects[k], sw, sh),
        1 <= sw <= WORK_SIDE,
        1 <= sh <= WORK_SIDE,
    ensures
        forall|k: int| 0 <= k < norm_all(rects, sw, sh).len() ==> proper_panel(#[trigger] norm_all(rects, sw, sh)[k]),
    decreases rects.len(),
{
    if rects.len() > 0 {
        let t = rects.drop_last();
        assert forall|k: int| 0 <= k < t.len() implies rect_on_page(#[trigger] t[k], sw, sh) by {
            assert(t[k] == rects[k]);
        }
        lemma_norm_all(t, sw, sh);
        lemma_snap_proper(rects.last(), sw, sh);
        let rest = norm_all(t, sw, sh);
        let p = norm_rect(rects.last(), sw, sh);
        if big_enough(p) {
            let all = rest.push(snap_panel(p));
            assert forall|k: int| 0 <= k < all.len() implies proper_panel(#[trigger] all[k]) by {
                if k < rest.len() {
                    assert(all[k] == rest[k]);
                }
            }
        }
    }
}

/// Every normalised panel lies on the page with a positive size.
pub proof fn lemma_to_norm_proper(rects: Seq<Rect>, sw: int, sh: int)
    requires
        forall|k: int| 0 <= k < rects.len() ==> rect_on_page(#[trigger] rects[k], sw, sh),
        1 <= sw <= WORK_SIDE,
        1 <= sh <= WORK_SIDE,
    ensures
        to_norm_spec(rects, sw, sh).len() > 0,
        forall|k: int| 0 <= k < to_norm_spec(rects, sw, sh).len() ==> proper_panel(#[trigger] to_norm_spec(rects, sw, sh)[k]),
{
    broadcast use vstd::seq_lib::group_to_multiset_ensures;
    let ps = norm_all(rects, sw, sh);
    lemma_norm_all(rects, sw, sh);
    crate::seqs::lemma_isort_multiset(ps, page_less());
    let sorted = isort(ps, page_less());
    assert forall|k: int| 0 <= k < sorted.len() implies proper_panel(#[trigger] sorted[k]) by {
        assert(sorted.contains(sorted[k]));
        crate::seqs::lemma_multiset_contains(sorted, ps, sorted[k]);
        let j = choose|j: int| 0 <= j < ps.len() && ps[j] == sorted[k];
        assert(proper_panel(ps[j]));
    }
    if sorted.len() == 0 {
        assert(proper_panel(full_page_spec()));
    }
}

/// `b` may come right after `a` when reading the page: if their vertical
/// centres lie 5% of the page height or more apart, `a`'s centre is the higher
/// one; if they are closer (one row), `b`'s left edge is not left of `a`'s.
pub open spec fn reads_before(a: PanelRect, b: PanelRect) -> bool {
    let ca = (2 * a.y + a.h) * b.down;
    let cb = (2 * b.y + b.h) * a.down;
    let d = if ca >= cb { ca - cb } else { cb - ca };
    &&& 10 * d >= a.down * b.down ==> ca < cb
    &&& 10 * d < a.down * b.down ==> a.x * b.across <= b.x * a.across
}

/// Panels listed top to bottom, left to right within a row.
pub open spec fn in_reading_order(ps: Seq<PanelRect>) -> bool {
    forall|k: int| 0 <= k < ps.len() - 1 ==> reads_before(#[trigger] ps[k], ps[k + 1])
}

proof fn lemma_page_less_asymmetric()
    ensures
        crate::seqs::asymmetric(page_less()),
{
    assert forall|a: PanelRect, b: PanelRect| #[trigger] page_less()(a, b) implies !page_less()(b, a) by {
        vstd::arithmetic::mul::lemma_mul_is_commutative(a.down as int, b.down as int);
    }
}

/// Proper panels with no neighbours out of page order are in reading order.
proof fn lemma_ordered_reads(s: Seq<PanelRect>)
    requires
        crate::seqs::adjacent_ordered(s, page_less()),
        forall|k: int| 0 <= k < s.len() ==> proper_panel(#[trigger] s[k]),
    ensures
        in_reading_order(s),
{
    assert forall|k: int| 0 <= k < s.len() - 1 implies reads_before(#[trigger] s[k], s[k + 1]) by {
        let a = s[k];
        let b = s[k + 1];
        assert(!page_less()(s[k + 1], s[k]));
        assert(proper_panel(a) && proper_panel(b));
        vstd::arithmetic::mul::lemma_mul_is_commutative(a.down as int, b.down as int);
        assert(a.down as int * b.down as int > 0) by (nonlinear_arith)
            requires a.down > 0, b.down > 0;
    }
}

/// Detected rectangles, normalised and sorted, come out in reading order.
pub proof fn lemma_to_norm_reading_order(rects: Seq<Rect>, sw: int, sh: int)
    requires
        forall|k: int| 0 <= k < rects.len() ==> rect_on_page(#[trigger] rects[k], sw, sh),
        1 <= sw <= WORK_SIDE,
        1 <= sh <= WORK_SIDE,
    ensures
        in_reading_order(to_norm_spec(rects, sw, sh)),
{
    lemma_to_norm_proper(rects, sw, sh);
    lemma_page_less_asymmetric();
    let ps = norm_all(rects, sw, sh);
    crate::seqs::lemma_isort_ordered(ps, page_less());
    if isort(ps, page_less()).len() > 0 {
        lemma_ordered_reads(to_norm_spec(rects, sw, sh));
    }
}

pub(crate) fn norm_rect_exec(r: Rect, sw: usize, sh: usize) -> (p: PanelRect)
    requires
        rect_on_page(r, sw as int, sh as int),
        1 <= sw <= WORK_SIDE,
        1 <= sh <= WORK_SIDE,
    ensures
        p == norm_rect(r, sw as int, sh as int),
{
    let across: u32 = 100 * sw as u32;
    let down: u32 = 100 * sh as u32;
    let x: u32 = 100 * r.0 as u32;
    let y: u32 = 100 * r.1 as u32;
    let w: u32 = if 100 * (r.2 as u32) < 4 * (sw as u32) {
        4 * sw as u32
    } else {
        100 * r.2 as u32
    };
    let h: u32 = if 100 * (r.3 as u32) < 4 * (sh as u32) {
        4 * sh as u32
    } else {
        100 * r.3 as u32
    };
    PanelRect { x, y, w, h, across, down }
}

pub(crate) fn snap_panel_exec(p: PanelRect) -> (q: PanelRect)
    requires
        p.across <= 100 * WORK_SIDE,
        p.down <= 100 * WORK_SIDE,
        p.x <= p.across,
        p.y <= p.down,
        p.w <= p.across,
        p.h <= p.down,
    ensures
        q == snap_panel(p),
{
    let across = p.across;
    let down = p.down;
    let mut q = p;
    if 50 * q.x <= across {
        q.w = if q.w + q.x > across { across } else { q.w + q.x };
        q.x = 0;
    }
    if 200 * q.y <= 3 * down {
        q.h = if q.h + q.y > down { down } else { q.h + q.y };
        q.y = 0;
    }
    if 50 * (q.x + q.w) >= 49 * across {
        q.w = across - q.x;
    }
    if 200 * (q.y + q.h) >= 197 * down {
        q.h = down - q.y;
    }
    if 25 * q.w >= 22 * across {
        q.x = 0;
        q.w = across;
    }
    if q.x == 0 && q.y == 0 && q.w == q.across && q.h == q.down {
        q = PanelRect { x: 0, y: 0, w: 1, h: 1, across: 1, down: 1 };
    }
    q
}

fn page_order_exec(a: &PanelRect, b: &PanelRect) -> (r: bool)
    ensures
        r == page_order(*a, *b),
{
    let ca = mul_wide(2 * (a.y as u128) + a.h as u128, b.down as u128);
    let cb = mul_wide(2 * (b.y as u128) + b.h as u128, a.down as u128);
    let d = if ca >= cb { ca - cb } else { cb - ca };
    let dd = mul_wide(a.down as u128, b.down as u128);
    if d < (dd + 9) / 10 {
        mul_wide(a.x as u128, b.across as u128) < mul_wide(b.x as u128, a.across as u128)
    } else {
        ca < cb
    }
}

fn insert_page_order(r: &mut Vec<PanelRect>, e: PanelRect)
    ensures
        final(r)@ == insert_from_end(old(r)@, e, page_less()),
{
    let mut p: usize = r.len();
    while p > 0 && page_order_exec(&e, &r[p - 1])
        invariant
            p <= r@.len(),
            forall|k: int| p <= k < r@.len() ==> page_less()(e, #[trigger] r@[k]),
        decreases p,
    {
        p -= 1;
    }
    proof {
        crate::seqs::lemma_insert_from_end_at(r@, e, page_less(), p as int);
    }
    r.insert(p, e);
}

/// Normalise detected rectangles to page fractions, drop tiny ones, snap the
/// edges and put them in page order.
pub fn to_norm_panels(rects: &[Rect], sw: usize, sh: usize) -> (panels: Vec<PanelRect>)
    requires
        forall|k: int| 0 <= k < rects@.len() ==> rect_on_page(#[trigger] rects@[k], sw as int, sh as int),
        1 <= sw <= WORK_SIDE,
        1 <= sh <= WORK_SIDE,
    ensures
        panels@ == to_norm_spec(rects@, sw as int, sh as int),
{
    let mut kept: Vec<PanelRect> = Vec::new();
    let mut i: usize = 0;
    while i < rects.len()
        invariant
            i <= rects@.len(),
            forall|k: int| 0 <= k < rects@.len() ==> rect_on_page(#[trigger] rects@[k], sw as int, sh as int),
            1 <= sw <= WORK_SIDE,
            1 <= sh <= WORK_SIDE,
            kept@ == norm_all(rects@.take(i as int), sw as int, sh as int),
        decreases rects@.len() - i,
    {
        let p = norm_rect_exec(rects[i], sw, sh);
        let lhs = mul_wide(1400 * (p.w as u128), p.h as u128);
        let rhs = mul_wide(17 * (p.across as u128), p.down as u128);
        proof {
            assert(lhs == 1400 * (p.w as int * p.h as int)) by (nonlinear_arith)
                requires lhs == (1400 * p.w as int) * p.h as int;
            assert(rhs == 17 * (p.across as int * p.down as int)) by (nonlinear_arith)
                requires rhs == (17 * p.across as int) * p.down as int;
        }
        let big = lhs >= rhs;
        if big {
            kept.push(snap_panel_exec(p));
        }
        proof {
            assert(rects@.take(i + 1).drop_last() =~= rects@.take(i as int));
        }
        i += 1;
    }
    assert(rects@.take(i as int) =~= rects@);
    let mut sorted: Vec<PanelRect> = Vec::new();
    let mut j: usize = 0;
    while j < kept.len()
        invariant
            j <= kept@.len(),
            sorted@ == isort(kept@.take(j as int), page_less()),
        decreases kept@.len() - j,
    {
        proof {
            crate::seqs::lemma_isort_take(kept@, j as int, page_less());
        }
        insert_page_order(&mut sorted, kept[j]);
        j += 1;
    }
    assert(kept@.take(j as int) =~= kept@);
    if sorted.len() == 0 {
        full_page()
    } else {
        sorted
    }
}


pub open spec fn rect_area(r: Rect) -> int {
    r.2 as int * r.3 as int
}

pub open spec fn total_area(rects: Seq<Rect>) -> int
    decreases rects.len(),
{
    if rects.len() == 0 { 0 } else { total_area(rects.drop_last()) + rect_area(rects.last()) }
}

/// A plausible layout: one panel covering at least 45% of the page, or 2 to 16
/// panels covering between 35% and 115% of it together.
pub open spec fn looks_usable_spec(rects: Seq<Rect>, w: int, h: int) -> bool {
    let n = rects.len();
    if n == 0 || n > 16 {
        false
    } else if n == 1 {
        20 * rect_area(rects[0]) >= 9 * (w * h)
    } else {
        20 * total_area(rects) >= 7 * (w * h) && 20 * total_area(rects) <= 23 * (w * h)
    }
}

pub fn looks_usable(rects: &[Rect], w: usize, h: usize) -> (ok: bool)
    requires
        forall|k: int| 0 <= k < rects@.len() ==> rect_on_page(#[trigger] rects@[k], w as int, h as int),
        w <= WORK_SIDE,
        h <= WORK_SIDE,
    ensures
        ok == looks_usable_spec(rects@, w as int, h as int),
{
    let n = rects.len();
    if n == 0 || n > 16 {
        return false;
    }
    assert(w * h <= WORK_SIDE * WORK_SIDE) by (nonlinear_arith)
        requires w <= WORK_SIDE, h <= WORK_SIDE;
    let page: u64 = (w as u64) * (h as u64);
    if n == 1 {
        let r = rects[0];
        assert(r.2 * r.3 <= w * h) by (nonlinear_arith)
            requires r.2 <= w, r.3 <= h;
        let a: u64 = (r.2 as u64) * (r.3 as u64);
        return 20 * a >= 9 * page;
    }
    let mut cover: u64 = 0;
    let mut i: usize = 0;
    while i < n
        invariant
            i <= n,
            n == rects@.len(),
            n <= 16,
            forall|k: int| 0 <= k < rects@.len() ==> rect_on_page(#[trigger] rects@[k], w as int, h as int),
            w <= WORK_SIDE,
            h <= WORK_SIDE,
            cover == total_area(rects@.take(i as int)),
            cover <= i * (WORK_SIDE * WORK_SIDE),
        decreases n - i,
    {
        let r = rects[i];
        assert(r.2 * r.3 <= WORK_SIDE * WORK_SIDE) by (nonlinear_arith)
            requires r.2 <= w, r.3 <= h, w <= WORK_SIDE, h <= WORK_SIDE;
        assert((i + 1) * (WORK_SIDE * WORK_SIDE) == i * (WORK_SIDE * WORK_SIDE) + WORK_SIDE * WORK_SIDE) by (nonlinear_arith);
        let a: u64 = (r.2 as u64) * (r.3 as u64);
        cover = cover + a;
        proof {
            assert(rects@.take(i + 1).drop_last() =~= rects@.take(i as int));
        }
        i += 1;
    }
    assert(rects@.take(i as int) =~= rects@);
    20 * cover >= 7 * page && 20 * cover <= 23 * page
}

/// Panels from full-width row slices when there are 2 to 10 of them, else the page.
pub open spec fn fallback_spec(g: Seq<bool>, w: int, h: int) -> Seq<PanelRect> {
    let rows = row_slices_spec(g, w, h);
    if 2 <= rows.len() <= 10 && (forall|k: int| 0 <= k < rows.len() ==> 50 * (#[trigger] rows[k]).2 >= 41 * w) {
        let panels = to_norm_spec(rows, w, h);
        if panels.len() >= 2 { panels } else { seq![full_page_spec()] }
    } else {
        seq![full_page_spec()]
    }
}

/// Every row slice lies on the page.
pub proof fn lemma_row_slices_on_page(g: Seq<bool>, w: int, h: int)
    requires
        1 <= w <= WORK_SIDE,
        1 <= h <= WORK_SIDE,
    ensures
        forall|k: int| 0 <= k < row_slices_spec(g, w, h).len() ==> rect_on_page(#[trigger] row_slices_spec(g, w, h)[k], w, h),
{
    lemma_row_bands(g, w, h, 0, min_slice(h));
}

/// Fall back to full-width row slices, or the whole page.
pub fn fallback_rows_or_page(gutter: &[bool], w: usize, h: usize) -> (panels: Vec<PanelRect>)
    requires
        1 <= w <= WORK_SIDE,
        1 <= h <= WORK_SIDE,
        gutter@.len() == w * h,
    ensures
        panels@ == fallback_spec(gutter@, w as int, h as int),
{
    let rows = detect_row_slices(gutter, w, h);
    proof {
        lemma_row_slices_on_page(gutter@, w as int, h as int);
    }
    if rows.len() >= 2 && rows.len() <= 10 {
        let mut all_wide = true;
        let mut k: usize = 0;
        while k < rows.len()
            invariant
                k <= rows@.len(),
                all_wide == (forall|j: int| 0 <= j < k ==> 50 * (#[trigger] rows@[j]).2 >= 41 * w),
            decreases rows@.len() - k,
        {
            if 50 * (rows[k].2 as u128) < 41 * (w as u128) {
                all_wide = false;
            }
            k += 1;
        }
        if all_wide {
            let panels = to_norm_panels(rows.as_slice(), w, h);
            if panels.len() >= 2 {
                return panels;
            }
        }
    }
    full_page()
}

pub open spec fn count_true(s: Seq<bool>) -> int
    decreases s.len(),
{
    if s.len() == 0 { 0 } else { count_true(s.drop_last()) + if s.last() { 1int } else { 0int } }
}

/// Whole-page panels when gutter covers under 4% or over 96% of the page.
pub open spec fn extreme_gutter(g: Seq<bool>, area: int) -> bool {
    25 * count_true(g) < area || 25 * count_true(g) > 24 * area
}

/// Minimum leaf area: 1/70 of the page, at least 64 pixels.
pub open spec fn min_leaf_spec(area: int) -> int {
    if area / 70 < 64 { 64 } else { area / 70 }
}

/// The panels detected on a straight RGBA8 page.
/// The panels a gutter mask of an `sw` by `sh` working image gives: the
/// whole page when almost nothing or almost everything is gutter; else the
/// leaves of the recursive split on empty bands when they look like a
/// layout, else full-width row slices, else the whole page.
pub open spec fn layout_spec(g: Seq<bool>, sw: int, sh: int) -> Seq<PanelRect> {
    if extreme_gutter(g, sw * sh) {
        seq![full_page_spec()]
    } else {
        let whole = Region { x0: 0, y0: 0, x1: sw as usize, y1: sh as usize };
        let rects = bsp_spec(g, sw, whole, 0, min_leaf_spec(sw * sh), 0).0;
        if rects.len() == 0 {
            fallback_spec(g, sw, sh)
        } else if looks_usable_spec(rects, sw, sh) {
            to_norm_spec(rects, sw, sh)
        } else {
            fallback_spec(g, sw, sh)
        }
    }
}

pub open spec fn detect_spec(rgba: Seq<u8>, width: int, height: int) -> Seq<PanelRect> {
    if width < 8 || height < 8 || rgba.len() < width * height * 4 {
        seq![full_page_spec()]
    } else {
        let (sw, sh) = work_dims(width, height, WORK_SIDE as int);
        let lum = downsample_spec(rgba, width, height, WORK_SIDE as int);
        let paper = paper_luma_spec(lum, sw, sh);
        layout_spec(gutter_mask_spec(lum, paper), sw, sh)
    }
}

/// Whatever the gutter mask, the panels it gives are in reading order.
pub proof fn lemma_layout_reading_order(g: Seq<bool>, sw: int, sh: int)
    requires
        8 <= sw <= WORK_SIDE,
        8 <= sh <= WORK_SIDE,
        g.len() == sw * sh,
    ensures
        in_reading_order(layout_spec(g, sw, sh)),
{
    let whole = Region { x0: 0, y0: 0, x1: sw as usize, y1: sh as usize };
    let min_leaf = min_leaf_spec(sw * sh);
    lemma_bsp_spec(g, sw, sh, whole, 0, min_leaf, 0);
    let rects = bsp_spec(g, sw, whole, 0, min_leaf, 0).0;
    assert forall|k: int| 0 <= k < rects.len() implies rect_on_page(#[trigger] rects[k], sw, sh) by {
    }
    lemma_to_norm_reading_order(rects, sw, sh);
    lemma_row_slices_on_page(g, sw, sh);
    lemma_to_norm_reading_order(row_slices_spec(g, sw, sh), sw, sh);
}

/// The panels of a gutter mask of an `sw` by `sh` working image (see
/// `layout_spec`).
pub fn layout_from_gutter(gutter: &[bool], sw: usize, sh: usize) -> (panels: Vec<PanelRect>)
    requires
        8 <= sw <= WORK_SIDE,
        8 <= sh <= WORK_SIDE,
        gutter@.len() == sw * sh,
    ensures
        panels@ == layout_spec(gutter@, sw as int, sh as int),
        panels@.len() > 0,
        forall|k: int| 0 <= k < panels@.len() ==> proper_panel(#[trigger] panels@[k]),
        in_reading_order(panels@),
{
    proof {
        assert(proper_panel(full_page_spec()));
        assert(sw * sh <= WORK_SIDE * WORK_SIDE) by (nonlinear_arith)
            requires sw <= WORK_SIDE, sh <= WORK_SIDE;
        lemma_layout_reading_order(gutter@, sw as int, sh as int);
    }
    let ghost g = gutter@;
    let area: usize = sw * sh;
    let mut count: usize = 0;
    let mut i: usize = 0;
    while i < gutter.len()
        invariant
            i <= gutter@.len(),
            count == count_true(gutter@.take(i as int)),
            count <= i,
        decreases gutter@.len() - i,
    {
        if gutter[i] {
            count += 1;
        }
        proof {
            assert(gutter@.take(i + 1).drop_last() =~= gutter@.take(i as int));
        }
        i += 1;
    }
    assert(gutter@.take(i as int) =~= gutter@);
    if 25 * count < area || 25 * count > 24 * area {
        return full_page();
    }
    let min_leaf: usize = if area / 70 < 64 { 64 } else { area / 70 };
    let mut splits: u32 = 0;
    let mut rects: Vec<Rect> = Vec::new();
    let whole = Region { x0: 0, y0: 0, x1: sw, y1: sh };
    bsp_split(gutter, sw, sh, whole, 0, min_leaf, &mut splits, &mut rects);
    proof {
        lemma_bsp_spec(g, sw as int, sh as int, whole, 0, min_leaf as int, 0);
        assert(rects@ =~= bsp_spec(g, sw as int, whole, 0, min_leaf as int, 0).0);
        assert forall|k: int| 0 <= k < rects@.len() implies rect_on_page(#[trigger] rects@[k], sw as int, sh as int) by {
        }
        lemma_to_norm_proper(rects@, sw as int, sh as int);
        lemma_row_slices_on_page(g, sw as int, sh as int);
        lemma_to_norm_proper(row_slices_spec(g, sw as int, sh as int), sw as int, sh as int);
    }
    if rects.len() == 0 {
        return fallback_rows_or_page(gutter, sw, sh);
    }
    if looks_usable(rects.as_slice(), sw, sh) {
        return to_norm_panels(rects.as_slice(), sw, sh);
    }
    fallback_rows_or_page(gutter, sw, sh)
}

/// Detect panel rectangles of a straight RGBA8 page, as fractions of the page.
/// Pages smaller than 8 by 8, short pixel buffers and pages with no usable
/// layout give the whole page as a single panel.
pub fn detect_panels(rgba: &[u8], width: u32, height: u32) -> (panels: Vec<PanelRect>)
    ensures
        panels@ == detect_spec(rgba@, width as int, height as int),
        panels@.len() > 0,
        forall|k: int| 0 <= k < panels@.len() ==> proper_panel(#[trigger] panels@[k]),
        in_reading_order(panels@),
{
    proof {
        assert(proper_panel(full_page_spec()));
    }
    assert(width as int * height as int <= u32::MAX as int * u32::MAX as int) by (nonlinear_arith)
        requires width <= u32::MAX, height <= u32::MAX;
    if width < 8 || height < 8 || (rgba.len() as u128) < ((width as u64) * (height as u64)) as u128 * 4 {
        return full_page();
    }
    let w = width as usize;
    let h = height as usize;
    let (sw, sh, lum) = downsample_luma(rgba, w, h, WORK_SIDE);
    proof {
        lemma_work_dims(w as int, h as int, WORK_SIDE as int);
        assert(sw * sh <= WORK_SIDE * WORK_SIDE) by (nonlinear_arith)
            requires sw <= WORK_SIDE, sh <= WORK_SIDE;
        assert(lum@.len() == sw * sh);
    }
    let paper = sample_paper_luma(lum.as_slice(), sw, sh);
    let gutter = binarize_gutter(lum.as_slice(), paper);
    layout_from_gutter(gutter.as_slice(), sw, sh)
}

} // verus!
