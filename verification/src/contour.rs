//! Panel detection by contours, detector version 5: threshold the gutters,
//! close the panel mask, clear the page margin reached from the corners, and
//! take the bounding boxes of the connected panel regions. Weak or
//! unconventional pages fall back to full-width row slices, then to the whole
//! page. Grids are row-major, `w` cells wide.
use vstd::prelude::*;
use crate::detect::{proper_panel, lemma_snap_proper, Rect, min_slice, row_count, norm_rect, norm_rect_exec, snap_panel, snap_panel_exec, rect_on_page, work_dims, downsample_spec, downsample_luma, WORK_SIDE};
use crate::panel::{PanelRect, full_page, full_page_spec, left_of, mul_wide, reading_less};
use crate::seqs::{adjacent_ordered, asymmetric};
use crate::seqs::{isort, insert_from_end};

verus! {

/// The version written into panel caches by this detector.
pub const DETECT_VERSION: u32 = 5;

/// Cell `(x, y)` of a row-major grid `w` cells wide.
pub open spec fn at<T>(m: Seq<T>, w: int, x: int, y: int) -> T {
    m[y * w + x]
}

/// First coordinate of a window of radius `r` around `c`, clipped at 0.
pub open spec fn lo(c: int, r: int) -> int {
    if c >= r { c - r } else { 0 }
}

/// End (exclusive) of a window of radius `r` around `c`, clipped at `n`.
pub open spec fn hi(c: int, r: int, n: int) -> int {
    if c + r + 1 <= n { c + r + 1 } else { n }
}

/// Some cell of the window `[x0, x1) × [y0, y1)` holds `v`.
pub open spec fn window_has(m: Seq<bool>, w: int, x0: int, x1: int, y0: int, y1: int, v: bool) -> bool {
    exists|xx: int, yy: int| x0 <= xx < x1 && y0 <= yy < y1 && #[trigger] at(m, w, xx, yy) == v
}

/// For every cell: whether the window of radius `r` around it holds `v` is `v`.
/// With `v` true this is dilation, with `v` false erosion.
pub open spec fn window_map(m: Seq<bool>, w: int, h: int, r: int, v: bool) -> Seq<bool> {
    Seq::new(
        (w * h) as nat,
        |i: int| window_has(m, w, lo(i % w, r), hi(i % w, r, w), lo(i / w, r), hi(i / w, r, h), v) == v,
    )
}

/// A cell is set when some cell within `r` (in both directions) is set.
pub open spec fn dilate_spec(m: Seq<bool>, w: int, h: int, r: int) -> Seq<bool> {
    window_map(m, w, h, r, true)
}

/// A cell is set when every cell within `r` (in both directions) is set.
pub open spec fn erode_spec(m: Seq<bool>, w: int, h: int, r: int) -> Seq<bool> {
    window_map(m, w, h, r, false)
}

/// Morphological closing repeated `iterations` times: dilate, then erode.
pub open spec fn close_spec(m: Seq<bool>, w: int, h: int, r: int, iterations: nat) -> Seq<bool>
    decreases iterations,
{
    if iterations == 0 {
        m
    } else {
        close_spec(erode_spec(dilate_spec(m, w, h, r), w, h, r), w, h, r, (iterations - 1) as nat)
    }
}

proof fn lemma_close_len(m: Seq<bool>, w: int, h: int, r: int, iterations: nat)
    requires
        m.len() == w * h,
        0 <= w,
        0 <= h,
    ensures
        close_spec(m, w, h, r, iterations).len() == w * h,
    decreases iterations,
{
    assert(0 <= w * h) by (nonlinear_arith)
        requires 0 <= w, 0 <= h;
    if iterations > 0 {
        lemma_close_len(erode_spec(dilate_spec(m, w, h, r), w, h, r), w, h, r, (iterations - 1) as nat);
    }
}

pub proof fn lemma_cell_index(x: int, y: int, w: int, h: int)
    requires
        0 <= x < w,
        0 <= y < h,
    ensures
        0 <= y * w + x < w * h,
        (y * w + x) % w == x,
        (y * w + x) / w == y,
        y * w + w <= w * h,
{
    assert((y + 1) * w <= h * w) by (nonlinear_arith)
        requires 0 <= x < w, 0 <= y < h;
    assert((y + 1) * w == y * w + w) by (nonlinear_arith);
    assert(0 <= y * w) by (nonlinear_arith)
        requires 0 <= x < w, 0 <= y < h;
    assert(h * w == w * h) by (nonlinear_arith);
    vstd::arithmetic::div_mod::lemma_fundamental_div_mod_converse(y * w + x, w, y, x);
}

fn window_search(m: &[bool], w: usize, x0: usize, x1: usize, y0: usize, y1: usize, v: bool) -> (r: bool)
    requires
        x0 <= x1 <= w,
        y0 <= y1,
        y1 * w <= m@.len(),
    ensures
        r == window_has(m@, w as int, x0 as int, x1 as int, y0 as int, y1 as int, v),
{
    let n = m.len();
    let mut yy = y0;
    while yy < y1
        invariant
            x0 <= x1 <= w,
            y0 <= yy <= y1,
            n == m@.len(),
            y1 * w <= n,
            forall|a: int, b: int|
                x0 <= a < x1 && y0 <= b < yy ==> #[trigger] at(m@, w as int, a, b) != v,
        decreases y1 - yy,
    {
        let mut xx = x0;
        while xx < x1
            invariant
                x0 <= xx <= x1 <= w,
                y0 <= yy < y1,
                n == m@.len(),
                y1 * w <= n,
                forall|a: int, b: int|
                    x0 <= a < x1 && y0 <= b < yy ==> #[trigger] at(m@, w as int, a, b) != v,
                forall|a: int| x0 <= a < xx ==> #[trigger] at(m@, w as int, a, yy as int) != v,
            decreases x1 - xx,
        {
            assert((yy + 1) * w <= y1 * w) by (nonlinear_arith)
                requires yy < y1;
            assert((yy + 1) * w == yy * w + w) by (nonlinear_arith);
            let idx = yy * w + xx;
            if m[idx] == v {
                assert(at(m@, w as int, xx as int, yy as int) == v);
                return true;
            }
            xx += 1;
        }
        yy += 1;
    }
    false
}

/// For every cell, whether its window of radius `r` holds `v` is `v`.
fn window_map_exec(m: &[bool], w: usize, h: usize, r: usize, v: bool) -> (out: Vec<bool>)
    requires
        m@.len() == w * h,
    ensures
        out@ == window_map(m@, w as int, h as int, r as int, v),
{
    let n = m.len();
    let mut out: Vec<bool> = Vec::new();
    let mut i: usize = 0;
    let mut x: usize = 0;
    let mut y: usize = 0;
    let ghost target = window_map(m@, w as int, h as int, r as int, v);
    while i < n
        invariant
            n == w * h,
            m@.len() == n,
            i <= n,
            i == y * w + x,
            i < n ==> x < w && y < h,
            target == window_map(m@, w as int, h as int, r as int, v),
            out@ == target.take(i as int),
        decreases n - i,
    {
        proof {
            lemma_cell_index(x as int, y as int, w as int, h as int);
        }
        let x0 = if x >= r { x - r } else { 0 };
        let x1 = if r < w - x { x + r + 1 } else { w };
        let y0 = if y >= r { y - r } else { 0 };
        let y1 = if r < h - y { y + r + 1 } else { h };
        assert(y1 * w <= n) by (nonlinear_arith)
            requires y1 <= h, n == w * h;
        let found = window_search(m, w, x0, x1, y0, y1, v);
        out.push(found == v);
        proof {
            assert(target[i as int] == (found == v));
            assert(out@ =~= target.take(i + 1));
        }
        i += 1;
        if x + 1 == w {
            assert((y + 1) * w == y * w + w) by (nonlinear_arith);
            x = 0;
            y += 1;
            proof {
                if i < n {
                    assert(y < h) by (nonlinear_arith)
                        requires i == y * w, i < n, n == w * h;
                }
            }
        } else {
            x += 1;
        }
    }
    assert(target.take(n as int) =~= target);
    out
}

/// Grow the set cells of a mask by `radius` in both directions.
pub fn dilate(mask: &mut Vec<bool>, w: usize, h: usize, radius: usize)
    requires
        old(mask)@.len() == w * h,
    ensures
        final(mask)@ == dilate_spec(old(mask)@, w as int, h as int, radius as int),
{
    let out = window_map_exec(mask.as_slice(), w, h, radius, true);
    *mask = out;
}

/// Shrink the set cells of a mask by `radius` in both directions.
pub fn erode(mask: &mut Vec<bool>, w: usize, h: usize, radius: usize)
    requires
        old(mask)@.len() == w * h,
    ensures
        final(mask)@ == erode_spec(old(mask)@, w as int, h as int, radius as int),
{
    let out = window_map_exec(mask.as_slice(), w, h, radius, false);
    *mask = out;
}

/// Morphological closing (dilate, then erode), `iterations` times: bridges
/// small holes such as halftone dots.
pub fn morph_close(mask: &mut Vec<bool>, w: usize, h: usize, radius: usize, iterations: usize)
    requires
        old(mask)@.len() == w * h,
    ensures
        final(mask)@ == close_spec(old(mask)@, w as int, h as int, radius as int, iterations as nat),
        final(mask)@.len() == old(mask)@.len(),
        forall|i: int| 0 <= i < w * h && old(mask)@[i] ==> #[trigger] final(mask)@[i],
{
    proof {
        lemma_close_len(old(mask)@, w as int, h as int, radius as int, iterations as nat);
        assert forall|i: int| 0 <= i < w * h && old(mask)@[i] implies #[trigger] close_spec(
            old(mask)@,
            w as int,
            h as int,
            radius as int,
            iterations as nat,
        )[i] by {
            lemma_close_keeps_set(old(mask)@, w as int, h as int, radius as int, iterations as nat, i);
        }
    }
    let mut k: usize = 0;
    while k < iterations
        invariant
            k <= iterations,
            mask@.len() == w * h,
            close_spec(mask@, w as int, h as int, radius as int, (iterations - k) as nat) == close_spec(
                old(mask)@,
                w as int,
                h as int,
                radius as int,
                iterations as nat,
            ),
        decreases iterations - k,
    {
        dilate(mask, w, h, radius);
        erode(mask, w, h, radius);
        k += 1;
    }
}

/// One closing (dilate, then erode) keeps every set cell.
proof fn lemma_close_once_keeps(m: Seq<bool>, w: int, h: int, r: int, i: int)
    requires
        m.len() == w * h,
        0 <= w,
        0 <= h,
        0 <= r,
        0 <= i < w * h,
        m[i],
    ensures
        erode_spec(dilate_spec(m, w, h, r), w, h, r)[i],
{
    assert(0 < w && 0 < h) by (nonlinear_arith)
        requires 0 <= i < w * h, 0 <= w, 0 <= h;
    let d = dilate_spec(m, w, h, r);
    let x = i % w;
    let y = i / w;
    vstd::arithmetic::div_mod::lemma_fundamental_div_mod(i, w);
    assert(0 <= x < w);
    assert(0 <= y < h) by (nonlinear_arith)
        requires i == w * y + x, 0 <= x < w, 0 <= i < w * h, 0 < w;
    assert(w * y == y * w) by (nonlinear_arith);
    assert(at(m, w, x, y) == m[i]);
    if window_has(d, w, lo(x, r), hi(x, r, w), lo(y, r), hi(y, r, h), false) {
        let (xx, yy) = choose|xx: int, yy: int|
            lo(x, r) <= xx < hi(x, r, w) && lo(y, r) <= yy < hi(y, r, h) && #[trigger] at(d, w, xx, yy) == false;
        lemma_cell_index(xx, yy, w, h);
        let j = yy * w + xx;
        assert(lo(xx, r) <= x < hi(xx, r, w) && lo(yy, r) <= y < hi(yy, r, h));
        assert(at(m, w, x, y) == true);
        assert(window_has(m, w, lo(j % w, r), hi(j % w, r, w), lo(j / w, r), hi(j / w, r, h), true));
        assert(d[j]);
        assert(false);
    }
}

/// Closing a mask never clears a set cell.
pub proof fn lemma_close_keeps_set(m: Seq<bool>, w: int, h: int, r: int, iterations: nat, i: int)
    requires
        m.len() == w * h,
        0 <= w,
        0 <= h,
        0 <= r,
        0 <= i < w * h,
        m[i],
    ensures
        close_spec(m, w, h, r, iterations)[i],
    decreases iterations,
{
    if iterations > 0 {
        assert(0 <= w * h);
        lemma_close_once_keeps(m, w, h, r, i);
        let m1 = erode_spec(dilate_spec(m, w, h, r), w, h, r);
        lemma_close_keeps_set(m1, w, h, r, (iterations - 1) as nat, i);
    }
}

/// Two cells share an edge.
pub open spec fn adjacent(a: (int, int), b: (int, int)) -> bool {
    (a.0 == b.0 && (a.1 == b.1 + 1 || b.1 == a.1 + 1)) || (a.1 == b.1 && (a.0 == b.0 + 1 || b.0
        == a.0 + 1))
}

/// A cell a fill may enter: on the grid, allowed, and not marked before.
pub open spec fn open_cell(allowed: Seq<bool>, marked: Seq<bool>, w: int, h: int, c: (int, int)) -> bool {
    0 <= c.0 < w && 0 <= c.1 < h && at(allowed, w, c.0, c.1) && !at(marked, w, c.0, c.1)
}

/// Each cell of `p` is a neighbour of the one before.
pub open spec fn steps_adjacent(p: Seq<(int, int)>) -> bool {
    forall|j: int, k: int| 0 <= j && k == j + 1 && k < p.len() ==> #[trigger] adjacent(p[j], p[k])
}

/// A non-empty path of open cells, each a neighbour of the one before.
pub open spec fn open_path(allowed: Seq<bool>, marked: Seq<bool>, w: int, h: int, p: Seq<(int, int)>) -> bool {
    &&& p.len() > 0
    &&& forall|k: int| 0 <= k < p.len() ==> open_cell(allowed, marked, w, h, #[trigger] p[k])
    &&& steps_adjacent(p)
}

/// `t` can be reached from `s` through open cells.
pub open spec fn reaches(allowed: Seq<bool>, marked: Seq<bool>, w: int, h: int, s: (int, int), t: (int, int)) -> bool {
    exists|p: Seq<(int, int)>| #[trigger] open_path(allowed, marked, w, h, p) && p[0] == s && p.last() == t
}

/// The marks after a fill from `s`: every cell reached from `s` through open
/// cells is marked as well.
pub open spec fn fill_spec(allowed: Seq<bool>, marked: Seq<bool>, w: int, h: int, s: (int, int)) -> Seq<bool> {
    Seq::new(marked.len(), |i: int| marked[i] || reaches(allowed, marked, w, h, s, (i % w, i / w)))
}

/// Number of unset cells.
pub open spec fn unset_count(m: Seq<bool>) -> nat
    decreases m.len(),
{
    if m.len() == 0 {
        0
    } else {
        unset_count(m.drop_last()) + if m.last() { 0nat } else { 1nat }
    }
}

proof fn lemma_unset_count_set(m: Seq<bool>, i: int)
    requires
        0 <= i < m.len(),
        !m[i],
    ensures
        unset_count(m.update(i, true)) + 1 == unset_count(m),
    decreases m.len(),
{
    let u = m.update(i, true);
    if i < m.len() - 1 {
        assert(u.drop_last() =~= m.drop_last().update(i, true));
        lemma_unset_count_set(m.drop_last(), i);
    } else {
        assert(u.drop_last() =~= m.drop_last());
    }
}

proof fn lemma_reaches_self(allowed: Seq<bool>, marked: Seq<bool>, w: int, h: int, s: (int, int))
    requires
        open_cell(allowed, marked, w, h, s),
    ensures
        reaches(allowed, marked, w, h, s, s),
{
    let p = seq![s];
    assert(open_path(allowed, marked, w, h, p));
}

proof fn lemma_reaches_step(
    allowed: Seq<bool>,
    marked: Seq<bool>,
    w: int,
    h: int,
    s: (int, int),
    d: (int, int),
    e: (int, int),
)
    requires
        reaches(allowed, marked, w, h, s, d),
        adjacent(d, e),
        open_cell(allowed, marked, w, h, e),
    ensures
        reaches(allowed, marked, w, h, s, e),
{
    let p = choose|p: Seq<(int, int)>| #[trigger] open_path(allowed, marked, w, h, p) && p[0] == s && p.last() == d;
    let q = p.push(e);
    assert forall|k: int| 0 <= k < q.len() implies open_cell(allowed, marked, w, h, #[trigger] q[k]) by {
        if k < p.len() {
            assert(q[k] == p[k]);
        }
    }
    assert forall|j: int, k: int| 0 <= j && k == j + 1 && k < q.len() implies #[trigger] adjacent(q[j], q[k]) by {
        if k < p.len() {
            assert(q[j] == p[j] && q[k] == p[k]);
            assert(adjacent(p[j], p[k]));
        } else {
            assert(q[j] == d);
        }
    }
    assert(open_path(allowed, marked, w, h, q));
    assert(q[0] == s && q.last() == e);
}

/// Marked cells, new ones included, are closed under stepping to an open
/// neighbour.
pub open spec fn closed_fill(allowed: Seq<bool>, m0: Seq<bool>, out: Seq<bool>, w: int, h: int) -> bool {
    forall|c: (int, int), e: (int, int)|
        0 <= c.0 < w && 0 <= c.1 < h && at(out, w, c.0, c.1) && !at(m0, w, c.0, c.1) && open_cell(
            allowed,
            m0,
            w,
            h,
            e,
        ) && #[trigger] adjacent(c, e) ==> at(out, w, e.0, e.1)
}

proof fn lemma_fill_complete(
    allowed: Seq<bool>,
    m0: Seq<bool>,
    out: Seq<bool>,
    w: int,
    h: int,
    p: Seq<(int, int)>,
)
    requires
        open_path(allowed, m0, w, h, p),
        at(out, w, p[0].0, p[0].1),
        closed_fill(allowed, m0, out, w, h),
    ensures
        at(out, w, p.last().0, p.last().1),
    decreases p.len(),
{
    if p.len() > 1 {
        let q = p.drop_last();
        assert forall|k: int| 0 <= k < q.len() implies open_cell(allowed, m0, w, h, #[trigger] q[k]) by {
            assert(q[k] == p[k]);
        }
        assert forall|j: int, k: int| 0 <= j && k == j + 1 && k < q.len() implies #[trigger] adjacent(q[j], q[k]) by {
            assert(q[j] == p[j] && q[k] == p[k]);
            assert(adjacent(p[j], p[k]));
        }
        lemma_fill_complete(allowed, m0, out, w, h, q);
        let c = p[p.len() - 2];
        let e = p[p.len() - 1];
        assert(adjacent(c, e));
        assert(open_cell(allowed, m0, w, h, c));
        assert(open_cell(allowed, m0, w, h, e));
    }
}

proof fn lemma_cell_of_index(i: int, w: int, h: int)
    requires
        0 <= i < w * h,
        0 < w,
    ensures
        0 <= i % w < w,
        0 <= i / w < h,
        i == (i / w) * w + i % w,
{
    vstd::arithmetic::div_mod::lemma_fundamental_div_mod(i, w);
    vstd::arithmetic::div_mod::lemma_mod_bound(i, w);
    vstd::arithmetic::div_mod::lemma_div_pos_is_pos(i, w);
    let q = i / w;
    let r = i % w;
    assert(w * q == q * w) by (nonlinear_arith);
    assert(q < h) by (nonlinear_arith)
        requires i == q * w + r, 0 <= r, i < w * h, w > 0;
}

/// The cell of a stack entry.
pub open spec fn cell_of(p: (usize, usize)) -> (int, int) {
    (p.0 as int, p.1 as int)
}

/// Some stack entry is the cell `c`.
pub open spec fn stacked(st: Seq<(usize, usize)>, c: (int, int)) -> bool {
    exists|k: int| 0 <= k < st.len() && #[trigger] cell_of(st[k]) == c
}

proof fn lemma_stacked_push(st: Seq<(usize, usize)>, v: (usize, usize))
    ensures
        stacked(st.push(v), cell_of(v)),
        forall|e: (int, int)| stacked(st, e) ==> #[trigger] stacked(st.push(v), e),
{
    let t = st.push(v);
    assert(cell_of(t[st.len() as int]) == cell_of(v));
    assert forall|e: (int, int)| stacked(st, e) implies #[trigger] stacked(t, e) by {
        let k = choose|k: int| 0 <= k < st.len() && #[trigger] cell_of(st[k]) == e;
        assert(cell_of(t[k]) == e);
    }
}

proof fn lemma_stacked_pop(st: Seq<(usize, usize)>)
    requires
        st.len() > 0,
    ensures
        forall|e: (int, int)| stacked(st, e) && e != cell_of(st.last()) ==> #[trigger] stacked(
            st.drop_last(),
            e,
        ),
{
    let t = st.drop_last();
    assert forall|e: (int, int)| stacked(st, e) && e != cell_of(st.last()) implies #[trigger] stacked(t, e) by {
        let k = choose|k: int| 0 <= k < st.len() && #[trigger] cell_of(st[k]) == e;
        assert(k != st.len() - 1);
        assert(cell_of(t[k]) == e);
    }
}

/// The invariant of a fill from `s` that started from the marks `m0`: marks
/// only grow; new marks are reachable; stacked open cells are reachable; new
/// marks have every open neighbour marked or stacked; and the start is marked
/// or stacked.
pub open spec fn fill_inv(
    allowed: Seq<bool>,
    m0: Seq<bool>,
    out: Seq<bool>,
    st: Seq<(usize, usize)>,
    w: int,
    h: int,
    s: (int, int),
) -> bool {
    &&& allowed.len() == w * h
    &&& m0.len() == w * h
    &&& out.len() == w * h
    &&& open_cell(allowed, m0, w, h, s)
    &&& forall|i: int| 0 <= i < m0.len() && m0[i] ==> out[i]
    &&& forall|k: int| 0 <= k < st.len() ==> (#[trigger] st[k]).0 < w && st[k].1 < h
    &&& forall|c: (int, int)|
        0 <= c.0 < w && 0 <= c.1 < h && #[trigger] at(out, w, c.0, c.1) && !at(m0, w, c.0, c.1)
            ==> reaches(allowed, m0, w, h, s, c)
    &&& forall|k: int|
        0 <= k < st.len() && open_cell(allowed, m0, w, h, #[trigger] cell_of(st[k])) ==> reaches(
            allowed,
            m0,
            w,
            h,
            s,
            cell_of(st[k]),
        )
    &&& forall|c: (int, int), e: (int, int)|
        0 <= c.0 < w && 0 <= c.1 < h && at(out, w, c.0, c.1) && !at(m0, w, c.0, c.1) && open_cell(
            allowed,
            m0,
            w,
            h,
            e,
        ) && #[trigger] adjacent(c, e) ==> at(out, w, e.0, e.1) || stacked(st, e)
    &&& at(out, w, s.0, s.1) || stacked(st, s)
}

/// Popping a cell that is marked already, or not allowed, keeps the invariant.
proof fn lemma_fill_skip(
    allowed: Seq<bool>,
    m0: Seq<bool>,
    out: Seq<bool>,
    st: Seq<(usize, usize)>,
    w: int,
    h: int,
    s: (int, int),
)
    requires
        st.len() > 0,
        fill_inv(allowed, m0, out, st, w, h, s),
        at(out, w, cell_of(st.last()).0, cell_of(st.last()).1) || !at(
            allowed,
            w,
            cell_of(st.last()).0,
            cell_of(st.last()).1,
        ),
    ensures
        fill_inv(allowed, m0, out, st.drop_last(), w, h, s),
{
    let t = st.drop_last();
    let c = cell_of(st.last());
    lemma_stacked_pop(st);
    assert forall|k: int| 0 <= k < t.len() implies (#[trigger] t[k]).0 < w && t[k].1 < h by {
        assert(t[k] == st[k]);
    }
    assert forall|k: int|
        0 <= k < t.len() && open_cell(allowed, m0, w, h, #[trigger] cell_of(t[k])) implies reaches(
        allowed,
        m0,
        w,
        h,
        s,
        cell_of(t[k]),
    ) by {
        assert(t[k] == st[k]);
    }
    assert forall|c2: (int, int), e: (int, int)|
        0 <= c2.0 < w && 0 <= c2.1 < h && at(out, w, c2.0, c2.1) && !at(m0, w, c2.0, c2.1)
            && open_cell(allowed, m0, w, h, e) && #[trigger] adjacent(c2, e) implies at(out, w, e.0, e.1)
        || stacked(t, e) by {
        if !at(out, w, e.0, e.1) {
            assert(e != c);
        }
    }
}

/// Marking the popped cell and stacking its neighbours keeps the invariant.
proof fn lemma_fill_mark(
    allowed: Seq<bool>,
    m0: Seq<bool>,
    out: Seq<bool>,
    st: Seq<(usize, usize)>,
    st2: Seq<(usize, usize)>,
    w: int,
    h: int,
    s: (int, int),
    x: int,
    y: int,
)
    requires
        st.len() > 0,
        fill_inv(allowed, m0, out, st, w, h, s),
        cell_of(st.last()) == (x, y),
        0 <= x < w,
        0 <= y < h,
        at(allowed, w, x, y),
        !at(out, w, x, y),
        forall|k: int| 0 <= k < st.len() - 1 ==> st2[k] == st[k],
        st2.len() >= st.len() - 1,
        forall|k: int| 0 <= k < st2.len() ==> (#[trigger] st2[k]).0 < w && st2[k].1 < h,
        forall|k: int| st.len() - 1 <= k < st2.len() ==> adjacent((x, y), #[trigger] cell_of(st2[k])),
        x > 0 ==> stacked(st2, (x - 1, y)),
        x + 1 < w ==> stacked(st2, (x + 1, y)),
        y > 0 ==> stacked(st2, (x, y - 1)),
        y + 1 < h ==> stacked(st2, (x, y + 1)),
    ensures
        fill_inv(allowed, m0, out.update(y * w + x, true), st2, w, h, s),
{
    let c = (x, y);
    let i = y * w + x;
    let out2 = out.update(i, true);
    lemma_cell_index(x, y, w, h);
    assert(!at(m0, w, x, y));
    assert(open_cell(allowed, m0, w, h, c));
    assert(reaches(allowed, m0, w, h, s, c));
    lemma_stacked_pop(st);
    assert forall|c2: (int, int)| 0 <= c2.0 < w && 0 <= c2.1 < h implies #[trigger] at(out2, w, c2.0, c2.1)
        == (at(out, w, c2.0, c2.1) || c2 == c) by {
        lemma_cell_index(c2.0, c2.1, w, h);
        if c2 != c {
            if c2.1 * w + c2.0 == i {
                vstd::arithmetic::div_mod::lemma_fundamental_div_mod_converse(i, w, y, x);
                vstd::arithmetic::div_mod::lemma_fundamental_div_mod_converse(i, w, c2.1, c2.0);
            }
        }
    }
    assert forall|i2: int| 0 <= i2 < m0.len() && m0[i2] implies out2[i2] by {}
    assert forall|c2: (int, int)|
        0 <= c2.0 < w && 0 <= c2.1 < h && #[trigger] at(out2, w, c2.0, c2.1) && !at(m0, w, c2.0, c2.1)
            implies reaches(allowed, m0, w, h, s, c2) by {
        if c2 != c {
            assert(at(out, w, c2.0, c2.1));
        }
    }
    assert forall|k: int|
        0 <= k < st2.len() && open_cell(allowed, m0, w, h, #[trigger] cell_of(st2[k])) implies reaches(
        allowed,
        m0,
        w,
        h,
        s,
        cell_of(st2[k]),
    ) by {
        if k < st.len() - 1 {
            assert(st2[k] == st[k]);
        } else {
            assert(adjacent(c, cell_of(st2[k])));
            lemma_reaches_step(allowed, m0, w, h, s, c, cell_of(st2[k]));
        }
    }
    assert forall|e: (int, int)| stacked(st.drop_last(), e) implies #[trigger] stacked(st2, e) by {
        let k = choose|k: int| 0 <= k < st.len() - 1 && #[trigger] cell_of(st.drop_last()[k]) == e;
        assert(st2[k] == st[k]);
        assert(cell_of(st2[k]) == e);
    }
    assert forall|c2: (int, int), e: (int, int)|
        0 <= c2.0 < w && 0 <= c2.1 < h && at(out2, w, c2.0, c2.1) && !at(m0, w, c2.0, c2.1)
            && open_cell(allowed, m0, w, h, e) && #[trigger] adjacent(c2, e) implies at(out2, w, e.0, e.1)
        || stacked(st2, e) by {
        if c2 == c {
        } else {
            assert(at(out, w, c2.0, c2.1));
            if !at(out2, w, e.0, e.1) {
                assert(!at(out, w, e.0, e.1));
                assert(stacked(st, e));
                assert(e != c);
                assert(stacked(st.drop_last(), e));
            }
        }
    }
    if !at(out2, w, s.0, s.1) {
        assert(s != c);
        assert(stacked(st, s));
        assert(stacked(st.drop_last(), s));
    }
}

/// The fill of `flood_fill_bool`, also listing the cells it marked.
fn fill_collect(allowed: &[bool], out: &mut Vec<bool>, w: usize, h: usize, sx: usize, sy: usize) -> (filled: Vec<usize>)
    requires
        allowed@.len() == w * h,
        old(out)@.len() == w * h,
        sx < w,
        sy < h,
    ensures
        final(out)@ == fill_spec(allowed@, old(out)@, w as int, h as int, (sx as int, sy as int)),
        forall|k: int| 0 <= k < filled@.len() ==> (#[trigger] filled@[k]) < w * h && final(out)@[filled@[k] as int]
            && !old(out)@[filled@[k] as int],
        forall|j: int| 0 <= j < w * h && final(out)@[j] && !old(out)@[j] ==> exists|k: int|
            0 <= k < filled@.len() && #[trigger] filled@[k] == j,
{
    let mut filled: Vec<usize> = Vec::new();
    let ghost m0 = out@;
    let ghost s = (sx as int, sy as int);
    let ghost wi = w as int;
    let ghost hh = h as int;
    let n = allowed.len();
    proof {
        lemma_cell_index(sx as int, sy as int, w as int, h as int);
    }
    let si = sy * w + sx;
    if out[si] || !allowed[si] {
        proof {
            assert(!open_cell(allowed@, m0, wi, hh, s));
            assert forall|i: int| 0 <= i < m0.len() implies !#[trigger] reaches(allowed@, m0, wi, hh, s, (i % wi, i / wi)) by {
                if reaches(allowed@, m0, wi, hh, s, (i % wi, i / wi)) {
                    let p = choose|p: Seq<(int, int)>| #[trigger] open_path(allowed@, m0, wi, hh, p) && p[0] == s && p.last() == (i % wi, i / wi);
                    assert(open_cell(allowed@, m0, wi, hh, p[0]));
                }
            }
            assert(out@ =~= fill_spec(allowed@, m0, wi, hh, s));
        }
        return filled;
    }
    let mut stack: Vec<(usize, usize)> = Vec::new();
    stack.push((sx, sy));
    proof {
        lemma_reaches_self(allowed@, m0, wi, hh, s);
        assert(cell_of(stack@[0]) == s);
        assert(fill_inv(allowed@, m0, out@, stack@, wi, hh, s));
    }
    while stack.len() > 0
        invariant
            wi == w,
            hh == h,
            s == (sx as int, sy as int),
            n == w * h,
            fill_inv(allowed@, m0, out@, stack@, wi, hh, s),
            forall|k: int| 0 <= k < filled@.len() ==> (#[trigger] filled@[k]) < n && out@[filled@[k] as int]
                && !m0[filled@[k] as int],
            forall|j: int| 0 <= j < n && out@[j] && !m0[j] ==> exists|k: int|
                0 <= k < filled@.len() && #[trigger] filled@[k] == j,
        decreases unset_count(out@), stack@.len(),
    {
        let ghost before = stack@;
        let (x, y) = match stack.pop() {
            Some(t) => t,
            None => (0, 0),
        };
        proof {
            assert(stack@ =~= before.drop_last());
            assert(before.last() == (x, y));
            assert(before[before.len() - 1].0 < w && before[before.len() - 1].1 < h);
            lemma_cell_index(x as int, y as int, w as int, h as int);
        }
        let i = y * w + x;
        if out[i] || !allowed[i] {
            proof {
                lemma_fill_skip(allowed@, m0, out@, before, wi, hh, s);
            }
        } else {
            proof {
                lemma_unset_count_set(out@, i as int);
            }
            let ghost out_before = out@;
            let ghost mid = stack@;
            if x > 0 {
                let ghost st0 = stack@;
                stack.push((x - 1, y));
                proof {
                    lemma_stacked_push(st0, ((x - 1) as usize, y));
                }
            }
            if x + 1 < w {
                let ghost st0 = stack@;
                stack.push((x + 1, y));
                proof {
                    lemma_stacked_push(st0, ((x + 1) as usize, y));
                }
            }
            if y > 0 {
                let ghost st0 = stack@;
                stack.push((x, y - 1));
                proof {
                    lemma_stacked_push(st0, (x, (y - 1) as usize));
                }
            }
            if y + 1 < h {
                let ghost st0 = stack@;
                stack.push((x, y + 1));
                proof {
                    lemma_stacked_push(st0, (x, (y + 1) as usize));
                }
            }
            proof {
                lemma_fill_mark(allowed@, m0, out_before, before, stack@, wi, hh, s, x as int, y as int);
            }
            let ghost f0 = filled@;
            out.set(i, true);
            filled.push(i);
            proof {
                assert(filled@[f0.len() as int] == i);
                assert forall|k: int| 0 <= k < filled@.len() implies (#[trigger] filled@[k]) < n && out@[filled@[k] as int]
                    && !m0[filled@[k] as int] by {
                    if k < f0.len() {
                        assert(filled@[k] == f0[k]);
                    }
                }
                assert forall|j: int| 0 <= j < n && out@[j] && !m0[j] implies exists|k: int|
                    0 <= k < filled@.len() && #[trigger] filled@[k] == j by {
                    if j != i {
                        assert(out_before[j]);
                        let k = choose|k: int| 0 <= k < f0.len() && #[trigger] f0[k] == j;
                        assert(filled@[k] == f0[k]);
                    }
                }
            }
        }
    }
    proof {
        assert forall|i: int| 0 <= i < m0.len() implies out@[i] == (m0[i] || reaches(allowed@, m0, wi, hh, s, (i % wi, i / wi))) by {
            lemma_cell_of_index(i, wi, hh);
            let c = (i % wi, i / wi);
            if reaches(allowed@, m0, wi, hh, s, c) {
                let p = choose|p: Seq<(int, int)>| #[trigger] open_path(allowed@, m0, wi, hh, p) && p[0] == s && p.last() == c;
                lemma_fill_complete(allowed@, m0, out@, wi, hh, p);
            }
            if out@[i] && !m0[i] {
                assert(at(out@, wi, c.0, c.1));
            }
        }
        assert(out@ =~= fill_spec(allowed@, m0, wi, hh, s));
    }
    filled
}

/// Mark every cell reachable from `(sx, sy)` through allowed, unmarked cells
/// (4-neighbourhood). Nothing happens when the start is marked or not allowed.
pub fn flood_fill_bool(allowed: &[bool], out: &mut Vec<bool>, w: usize, h: usize, sx: usize, sy: usize)
    requires
        allowed@.len() == w * h,
        old(out)@.len() == w * h,
        sx < w,
        sy < h,
    ensures
        final(out)@ == fill_spec(allowed@, old(out)@, w as int, h as int, (sx as int, sy as int)),
{
    let _ = fill_collect(allowed, out, w, h, sx, sy);
}

/// A grid of `n` unset cells.
pub open spec fn unmarked(n: int) -> Seq<bool> {
    Seq::new(n as nat, |i: int| false)
}

/// Cells `a` and `b` lie in one 4-connected region of the mask.
pub open spec fn connected(mask: Seq<bool>, w: int, h: int, a: (int, int), b: (int, int)) -> bool {
    reaches(mask, unmarked(w * h), w, h, a, b)
}

/// The cell with row-major index `i`.
pub open spec fn cell_at(i: int, w: int) -> (int, int) {
    (i % w, i / w)
}

/// The first cell, in scan order from `k` on, in the region of cell `i`.
pub open spec fn first_conn(mask: Seq<bool>, w: int, h: int, i: int, k: int) -> int
    decreases i - k,
{
    if k >= i {
        i
    } else if connected(mask, w, h, cell_at(k, w), cell_at(i, w)) {
        k
    } else {
        first_conn(mask, w, h, i, k + 1)
    }
}

/// Cell `j` of the mask comes first, in scan order, in its region.
pub open spec fn is_first(mask: Seq<bool>, w: int, h: int, j: int) -> bool {
    mask[j] && forall|k: int| 0 <= k < j ==> !#[trigger] connected(mask, w, h, cell_at(k, w), cell_at(j, w))
}

/// How many regions start before index `i`.
pub open spec fn firsts_before(mask: Seq<bool>, w: int, h: int, i: int) -> nat
    decreases i,
{
    if i <= 0 {
        0
    } else {
        firsts_before(mask, w, h, i - 1) + if is_first(mask, w, h, i - 1) { 1nat } else { 0nat }
    }
}

/// The regions of the mask numbered from 1 in the order of their first cells;
/// 0 off the mask.
pub open spec fn label_spec(mask: Seq<bool>, w: int, h: int) -> Seq<usize> {
    Seq::new(
        mask.len(),
        |i: int|
            if !mask[i] {
                0usize
            } else {
                (1 + firsts_before(mask, w, h, first_conn(mask, w, h, i, 0))) as usize
            },
    )
}

proof fn lemma_firsts_before_le(mask: Seq<bool>, w: int, h: int, i: int)
    requires
        0 <= i,
    ensures
        firsts_before(mask, w, h, i) <= i,
    decreases i,
{
    if i > 0 {
        lemma_firsts_before_le(mask, w, h, i - 1);
    }
}

proof fn lemma_open_unmarked(mask: Seq<bool>, w: int, h: int, c: (int, int))
    requires
        0 < w,
        0 <= h,
        mask.len() == w * h,
    ensures
        open_cell(mask, unmarked(w * h), w, h, c) == (0 <= c.0 < w && 0 <= c.1 < h && at(mask, w, c.0, c.1)),
{
    if 0 <= c.0 < w && 0 <= c.1 < h {
        lemma_cell_index(c.0, c.1, w, h);
    }
}

proof fn lemma_conn_sym(mask: Seq<bool>, w: int, h: int, a: (int, int), b: (int, int))
    requires
        connected(mask, w, h, a, b),
    ensures
        connected(mask, w, h, b, a),
{
    let m = unmarked(w * h);
    let p = choose|p: Seq<(int, int)>| #[trigger] open_path(mask, m, w, h, p) && p[0] == a && p.last() == b;
    let q = Seq::new(p.len(), |k: int| p[p.len() - 1 - k]);
    assert forall|k: int| 0 <= k < q.len() implies open_cell(mask, m, w, h, #[trigger] q[k]) by {
        assert(open_cell(mask, m, w, h, p[p.len() - 1 - k]));
    }
    assert forall|j: int, k: int| 0 <= j && k == j + 1 && k < q.len() implies #[trigger] adjacent(q[j], q[k]) by {
        let a2 = p.len() - 1 - k;
        let b2 = a2 + 1;
        assert(adjacent(p[a2], p[b2]));
    }
    assert(open_path(mask, m, w, h, q));
    assert(q[0] == b && q.last() == a);
}

proof fn lemma_conn_trans(mask: Seq<bool>, w: int, h: int, a: (int, int), b: (int, int), c: (int, int))
    requires
        connected(mask, w, h, a, b),
        connected(mask, w, h, b, c),
    ensures
        connected(mask, w, h, a, c),
{
    let m = unmarked(w * h);
    let p = choose|p: Seq<(int, int)>| #[trigger] open_path(mask, m, w, h, p) && p[0] == a && p.last() == b;
    let q = choose|q: Seq<(int, int)>| #[trigger] open_path(mask, m, w, h, q) && q[0] == b && q.last() == c;
    let r = p + q.skip(1);
    assert forall|k: int| 0 <= k < r.len() implies open_cell(mask, m, w, h, #[trigger] r[k]) by {
        if k < p.len() {
            assert(r[k] == p[k]);
        } else {
            assert(r[k] == q[k - p.len() + 1]);
        }
    }
    assert forall|j: int, k: int| 0 <= j && k == j + 1 && k < r.len() implies #[trigger] adjacent(r[j], r[k]) by {
        if k < p.len() {
            assert(r[j] == p[j] && r[k] == p[k]);
            assert(adjacent(p[j], p[k]));
        } else if j == p.len() - 1 {
            assert(r[j] == b && r[k] == q[1]);
            assert(adjacent(q[0], q[1]));
        } else {
            let j2 = j - p.len() + 1;
            assert(r[j] == q[j2] && r[k] == q[j2 + 1]);
            assert(adjacent(q[j2], q[j2 + 1]));
        }
    }
    assert(open_path(mask, m, w, h, r));
    assert(r[0] == a);
    if q.len() > 1 {
        assert(r.last() == q.last());
    } else {
        assert(r.last() == p.last());
    }
}

/// A fill from `s` over the mask, with marks that its region avoids, reaches
/// exactly its region.
proof fn lemma_fill_region(
    mask: Seq<bool>,
    marked: Seq<bool>,
    w: int,
    h: int,
    s: (int, int),
    t: (int, int),
)
    requires
        0 < w,
        0 <= h,
        mask.len() == w * h,
        marked.len() == w * h,
        forall|c: (int, int)|
            #[trigger] connected(mask, w, h, s, c) ==> !at(marked, w, c.0, c.1),
    ensures
        reaches(mask, marked, w, h, s, t) == connected(mask, w, h, s, t),
{
    let m = unmarked(w * h);
    if reaches(mask, marked, w, h, s, t) {
        let p = choose|p: Seq<(int, int)>| #[trigger] open_path(mask, marked, w, h, p) && p[0] == s && p.last() == t;
        assert forall|k: int| 0 <= k < p.len() implies open_cell(mask, m, w, h, #[trigger] p[k]) by {
            assert(open_cell(mask, marked, w, h, p[k]));
            lemma_open_unmarked(mask, w, h, p[k]);
        }
        assert(open_path(mask, m, w, h, p));
    }
    if connected(mask, w, h, s, t) {
        let p = choose|p: Seq<(int, int)>| #[trigger] open_path(mask, m, w, h, p) && p[0] == s && p.last() == t;
        assert forall|k: int| 0 <= k < p.len() implies open_cell(mask, marked, w, h, #[trigger] p[k]) by {
            let q = p.take(k + 1);
            assert forall|k2: int| 0 <= k2 < q.len() implies open_cell(mask, m, w, h, #[trigger] q[k2]) by {
                assert(q[k2] == p[k2]);
            }
            assert forall|j: int, k2: int| 0 <= j && k2 == j + 1 && k2 < q.len() implies #[trigger] adjacent(q[j], q[k2]) by {
                assert(q[j] == p[j] && q[k2] == p[k2]);
                assert(adjacent(p[j], p[k2]));
            }
            assert(open_path(mask, m, w, h, q));
            assert(connected(mask, w, h, s, p[k]));
            lemma_open_unmarked(mask, w, h, p[k]);
        }
        assert(open_path(mask, marked, w, h, p));
    }
}

proof fn lemma_first_conn_is(mask: Seq<bool>, w: int, h: int, j: int, i: int, k: int)
    requires
        0 <= k <= i <= j,
        forall|k2: int| 0 <= k2 < i ==> !#[trigger] connected(mask, w, h, cell_at(k2, w), cell_at(j, w)),
        i < j ==> connected(mask, w, h, cell_at(i, w), cell_at(j, w)),
    ensures
        first_conn(mask, w, h, j, k) == i,
    decreases i - k,
{
    if k < i {
        assert(!connected(mask, w, h, cell_at(k, w), cell_at(j, w)));
        lemma_first_conn_is(mask, w, h, j, i, k + 1);
    }
}

/// The labelling invariant after scanning the cells before `i`: the visited
/// cells are the regions of those cells, and visited cells carry their final
/// labels while the others carry 0.
pub open spec fn label_inv(mask: Seq<bool>, visited: Seq<bool>, labels: Seq<usize>, w: int, h: int, i: int) -> bool {
    &&& mask.len() == w * h
    &&& visited.len() == w * h
    &&& labels.len() == w * h
    &&& forall|j: int|
        0 <= j < w * h ==> #[trigger] visited[j] == exists|r: int|
            0 <= r < i && #[trigger] connected(mask, w, h, cell_at(r, w), cell_at(j, w))
    &&& forall|j: int|
        0 <= j < w * h ==> #[trigger] labels[j] == if visited[j] {
            label_spec(mask, w, h)[j]
        } else {
            0usize
        }
}

proof fn lemma_conn_cells(mask: Seq<bool>, w: int, h: int, a: (int, int), b: (int, int))
    requires
        0 < w,
        0 <= h,
        mask.len() == w * h,
        connected(mask, w, h, a, b),
    ensures
        0 <= a.0 < w && 0 <= a.1 < h && at(mask, w, a.0, a.1),
        0 <= b.0 < w && 0 <= b.1 < h && at(mask, w, b.0, b.1),
{
    let m = unmarked(w * h);
    let p = choose|p: Seq<(int, int)>| #[trigger] open_path(mask, m, w, h, p) && p[0] == a && p.last() == b;
    assert(open_cell(mask, m, w, h, p[0]));
    assert(open_cell(mask, m, w, h, p[p.len() - 1]));
    lemma_open_unmarked(mask, w, h, a);
    lemma_open_unmarked(mask, w, h, b);
}

/// Label the 4-connected regions of a mask: 0 off the mask, and the regions
/// numbered from 1 in the order of their first cells in row-major order.
pub fn label_components(mask: &[bool], w: usize, h: usize) -> (labels: Vec<usize>)
    requires
        mask@.len() == w * h,
        w * h < usize::MAX,
    ensures
        labels@ == label_spec(mask@, w as int, h as int),
{
    let n = mask.len();
    let ghost wi = w as int;
    let ghost hh = h as int;
    let mut labels: Vec<usize> = Vec::new();
    let mut visited: Vec<bool> = Vec::new();
    let mut k: usize = 0;
    while k < n
        invariant
            k <= n,
            labels@ == Seq::new(k as nat, |j: int| 0usize),
            visited@ == Seq::new(k as nat, |j: int| false),
        decreases n - k,
    {
        labels.push(0);
        visited.push(false);
        k += 1;
        proof {
            assert(labels@ =~= Seq::new(k as nat, |j: int| 0usize));
            assert(visited@ =~= Seq::new(k as nat, |j: int| false));
        }
    }
    if n == 0 {
        proof {
            assert(labels@ =~= label_spec(mask@, wi, hh));
        }
        return labels;
    }
    let mut next: usize = 1;
    let mut i: usize = 0;
    let mut x: usize = 0;
    let mut y: usize = 0;
    proof {
        assert(w > 0) by (nonlinear_arith)
            requires n == w * h, n > 0;
        assert(h > 0) by (nonlinear_arith)
            requires n == w * h, n > 0;
        assert forall|j: int| 0 <= j < wi * hh implies #[trigger] visited@[j] == exists|r: int|
            0 <= r < 0 && #[trigger] connected(mask@, wi, hh, cell_at(r, wi), cell_at(j, wi)) by {}
        assert(label_inv(mask@, visited@, labels@, wi, hh, 0));
    }
    while i < n
        invariant
            wi == w,
            hh == h,
            n == w * h,
            n < usize::MAX,
            w > 0,
            h > 0,
            i <= n,
            i == y * w + x,
            i < n ==> x < w && y < h,
            label_inv(mask@, visited@, labels@, wi, hh, i as int),
            next == 1 + firsts_before(mask@, wi, hh, i as int),
        decreases n - i,
    {
        proof {
            lemma_cell_index(x as int, y as int, wi, hh);
            lemma_firsts_before_le(mask@, wi, hh, i as int);
        }
        let ghost c = cell_at(i as int, wi);
        let ghost v0 = visited@;
        let ghost l0 = labels@;
        proof {
            assert(c == (x as int, y as int));
            assert(at(mask@, wi, c.0, c.1) == mask@[i as int]);
        }
        if !mask[i] {
            proof {
                assert(!is_first(mask@, wi, hh, i as int));
                assert forall|j: int| 0 <= j < wi * hh implies #[trigger] visited@[j] == exists|r: int|
                    0 <= r < i + 1 && #[trigger] connected(mask@, wi, hh, cell_at(r, wi), cell_at(j, wi)) by {
                    if connected(mask@, wi, hh, cell_at(i as int, wi), cell_at(j, wi)) {
                        lemma_conn_cells(mask@, wi, hh, cell_at(i as int, wi), cell_at(j, wi));
                    }
                    if exists|r: int| 0 <= r < i + 1 && #[trigger] connected(mask@, wi, hh, cell_at(r, wi), cell_at(j, wi)) {
                        let r = choose|r: int| 0 <= r < i + 1 && #[trigger] connected(mask@, wi, hh, cell_at(r, wi), cell_at(j, wi));
                        if r == i {
                            lemma_conn_cells(mask@, wi, hh, cell_at(i as int, wi), cell_at(j, wi));
                        }
                    }
                }
            }
        } else if visited[i] {
            proof {
                let r0 = choose|r: int| 0 <= r < i && #[trigger] connected(mask@, wi, hh, cell_at(r, wi), cell_at(i as int, wi));
                assert(!is_first(mask@, wi, hh, i as int));
                assert forall|j: int| 0 <= j < wi * hh implies #[trigger] visited@[j] == exists|r: int|
                    0 <= r < i + 1 && #[trigger] connected(mask@, wi, hh, cell_at(r, wi), cell_at(j, wi)) by {
                    if connected(mask@, wi, hh, cell_at(i as int, wi), cell_at(j, wi)) {
                        lemma_conn_trans(mask@, wi, hh, cell_at(r0, wi), cell_at(i as int, wi), cell_at(j, wi));
                    }
                    if exists|r: int| 0 <= r < i + 1 && #[trigger] connected(mask@, wi, hh, cell_at(r, wi), cell_at(j, wi)) {
                        let r = choose|r: int| 0 <= r < i + 1 && #[trigger] connected(mask@, wi, hh, cell_at(r, wi), cell_at(j, wi));
                        if r == i {
                            lemma_conn_trans(mask@, wi, hh, cell_at(r0, wi), cell_at(i as int, wi), cell_at(j, wi));
                        }
                    }
                }
            }
        } else {
            proof {
                assert forall|k2: int| 0 <= k2 < i implies !#[trigger] connected(mask@, wi, hh, cell_at(k2, wi), cell_at(i as int, wi)) by {
                    if connected(mask@, wi, hh, cell_at(k2, wi), cell_at(i as int, wi)) {
                        assert(visited@[i as int]);
                    }
                }
                assert(is_first(mask@, wi, hh, i as int));
                assert forall|c2: (int, int)| #[trigger] connected(mask@, wi, hh, c, c2) implies !at(v0, wi, c2.0, c2.1) by {
                    lemma_conn_cells(mask@, wi, hh, c, c2);
                    lemma_cell_index(c2.0, c2.1, wi, hh);
                    let j = c2.1 * wi + c2.0;
                    assert(cell_at(j, wi) == c2);
                    if v0[j] {
                        let r = choose|r: int| 0 <= r < i && #[trigger] connected(mask@, wi, hh, cell_at(r, wi), cell_at(j, wi));
                        lemma_conn_sym(mask@, wi, hh, c, c2);
                        lemma_conn_trans(mask@, wi, hh, cell_at(r, wi), c2, c);
                    }
                }
            }
            let id = next;
            let filled = fill_collect(mask, &mut visited, w, h, x, y);
            proof {
                assert forall|j: int| 0 <= j < wi * hh implies #[trigger] visited@[j] == (v0[j] || connected(mask@, wi, hh, c, cell_at(j, wi))) by {
                    lemma_fill_region(mask@, v0, wi, hh, c, cell_at(j, wi));
                }
            }
            let mut t: usize = 0;
            while t < filled.len()
                invariant
                    n == w * h,
                    t <= filled@.len(),
                    labels@.len() == n,
                    forall|k2: int| 0 <= k2 < filled@.len() ==> (#[trigger] filled@[k2]) < n,
                    forall|j: int| 0 <= j < n ==> #[trigger] labels@[j] == if exists|k2: int|
                        0 <= k2 < t && #[trigger] filled@[k2] == j {
                        id
                    } else {
                        l0[j]
                    },
                decreases filled@.len() - t,
            {
                let ghost lb = labels@;
                labels.set(filled[t], id);
                proof {
                    assert forall|j: int| 0 <= j < n implies #[trigger] labels@[j] == if exists|k2: int|
                        0 <= k2 < t + 1 && #[trigger] filled@[k2] == j {
                        id
                    } else {
                        l0[j]
                    } by {
                        if j == filled@[t as int] {
                            assert(filled@[t as int] == j);
                        } else {
                            assert(labels@[j] == lb[j]);
                            if exists|k2: int| 0 <= k2 < t + 1 && #[trigger] filled@[k2] == j {
                                let k2 = choose|k2: int| 0 <= k2 < t + 1 && #[trigger] filled@[k2] == j;
                                assert(k2 < t);
                            }
                        }
                    }
                }
                t += 1;
            }
            proof {
                assert forall|j: int| 0 <= j < wi * hh implies #[trigger] visited@[j] == exists|r: int|
                    0 <= r < i + 1 && #[trigger] connected(mask@, wi, hh, cell_at(r, wi), cell_at(j, wi)) by {
                    if exists|r: int| 0 <= r < i + 1 && #[trigger] connected(mask@, wi, hh, cell_at(r, wi), cell_at(j, wi)) {
                        let r = choose|r: int| 0 <= r < i + 1 && #[trigger] connected(mask@, wi, hh, cell_at(r, wi), cell_at(j, wi));
                        if r < i {
                            assert(v0[j]);
                        }
                    }
                    if v0[j] {
                        let r = choose|r: int| 0 <= r < i && #[trigger] connected(mask@, wi, hh, cell_at(r, wi), cell_at(j, wi));
                        assert(0 <= r < i + 1);
                    }
                    if connected(mask@, wi, hh, c, cell_at(j, wi)) {
                        assert(connected(mask@, wi, hh, cell_at(i as int, wi), cell_at(j, wi)));
                    }
                }
                assert forall|j: int| 0 <= j < wi * hh implies #[trigger] labels@[j] == if visited@[j] {
                    label_spec(mask@, wi, hh)[j]
                } else {
                    0usize
                } by {
                    let newly = visited@[j] && !v0[j];
                    if exists|k2: int| 0 <= k2 < filled@.len() && #[trigger] filled@[k2] == j {
                        let k2 = choose|k2: int| 0 <= k2 < filled@.len() && #[trigger] filled@[k2] == j;
                        assert(newly);
                    }
                    if newly {
                        let k2 = choose|k2: int| 0 <= k2 < filled@.len() && #[trigger] filled@[k2] == j;
                        assert(connected(mask@, wi, hh, c, cell_at(j, wi)));
                        lemma_conn_cells(mask@, wi, hh, c, cell_at(j, wi));
                        lemma_cell_of_index(j, wi, hh);
                        assert(mask@[j] == at(mask@, wi, j % wi, j / wi));
                        assert forall|k3: int| 0 <= k3 < i implies !#[trigger] connected(mask@, wi, hh, cell_at(k3, wi), cell_at(j, wi)) by {
                            if connected(mask@, wi, hh, cell_at(k3, wi), cell_at(j, wi)) {
                                lemma_conn_sym(mask@, wi, hh, c, cell_at(j, wi));
                                lemma_conn_trans(mask@, wi, hh, cell_at(k3, wi), cell_at(j, wi), c);
                            }
                        }
                        if j < i {
                            lemma_conn_sym(mask@, wi, hh, c, cell_at(j, wi));
                            assert(connected(mask@, wi, hh, cell_at(j, wi), cell_at(i as int, wi)));
                        }
                        lemma_first_conn_is(mask@, wi, hh, j, i as int, 0);
                    }
                }
            }
            next = next + 1;
        }
        i += 1;
        if x + 1 == w {
            assert((y + 1) * w == y * w + w) by (nonlinear_arith);
            x = 0;
            y += 1;
            proof {
                if i < n {
                    assert(y < h) by (nonlinear_arith)
                        requires i == y * w, i < n, n == w * h;
                }
            }
        } else {
            x += 1;
        }
    }
    proof {
        assert forall|j: int| 0 <= j < n implies labels@[j] == label_spec(mask@, wi, hh)[j] by {
            lemma_cell_of_index(j, wi, hh);
            if mask@[j] {
                lemma_cell_index(j % wi, j / wi, wi, hh);
                assert(cell_at(j, wi) == (j % wi, j / wi));
                lemma_open_unmarked(mask@, wi, hh, cell_at(j, wi));
                lemma_reaches_self(mask@, unmarked(wi * hh), wi, hh, cell_at(j, wi));
                assert(connected(mask@, wi, hh, cell_at(j, wi), cell_at(j, wi)));
                assert(visited@[j]);
            } else {
                if visited@[j] {
                    let r = choose|r: int| 0 <= r < n && #[trigger] connected(mask@, wi, hh, cell_at(r, wi), cell_at(j, wi));
                    lemma_conn_cells(mask@, wi, hh, cell_at(r, wi), cell_at(j, wi));
                    lemma_cell_index(j % wi, j / wi, wi, hh);
                }
            }
        }
        assert(labels@ =~= label_spec(mask@, wi, hh));
    }
    labels
}

/// The largest label among the first `k` cells.
pub open spec fn max_label(labels: Seq<usize>, k: int) -> int
    decreases k,
{
    if k <= 0 {
        0
    } else {
        let m = max_label(labels, k - 1);
        if labels[k - 1] as int > m { labels[k - 1] as int } else { m }
    }
}

/// Extent and size of the cells labelled `id` among the first `k` cells:
/// smallest x, smallest y, largest x, largest y, and count. With no such cell
/// it is `(w, h, 0, 0, 0)`.
pub open spec fn region_box(labels: Seq<usize>, w: int, h: int, id: int, k: int) -> (int, int, int, int, int)
    decreases k,
{
    if k <= 0 {
        (w, h, 0, 0, 0)
    } else {
        let b = region_box(labels, w, h, id, k - 1);
        if labels[k - 1] as int != id {
            b
        } else {
            let x = (k - 1) % w;
            let y = (k - 1) / w;
            (
                if x < b.0 { x } else { b.0 },
                if y < b.1 { y } else { b.1 },
                if x > b.2 { x } else { b.2 },
                if y > b.3 { y } else { b.3 },
                b.4 + 1,
            )
        }
    }
}

proof fn lemma_region_box_bounds(labels: Seq<usize>, w: int, h: int, id: int, k: int)
    requires
        0 < w,
        0 < h,
        0 <= k <= w * h,
    ensures
        region_box(labels, w, h, id, k).0 <= w,
        region_box(labels, w, h, id, k).1 <= h,
        0 <= region_box(labels, w, h, id, k).2 < w,
        0 <= region_box(labels, w, h, id, k).3 < h,
        0 <= region_box(labels, w, h, id, k).4 <= k,
        region_box(labels, w, h, id, k).4 > 0 ==> region_box(labels, w, h, id, k).0 <= region_box(
            labels,
            w,
            h,
            id,
            k,
        ).2 && region_box(labels, w, h, id, k).1 <= region_box(labels, w, h, id, k).3,
    decreases k,
{
    if k > 0 {
        lemma_region_box_bounds(labels, w, h, id, k - 1);
        lemma_cell_of_index(k - 1, w, h);
    }
}

/// Region extents by label, for labels `1..=nlab`, over all cells.
pub fn region_boxes(labels: &[usize], w: usize, h: usize, nlab: usize) -> (r: (
    Vec<usize>,
    Vec<usize>,
    Vec<usize>,
    Vec<usize>,
    Vec<usize>,
))
    requires
        labels@.len() == w * h,
        w > 0,
        h > 0,
        nlab < usize::MAX,
        forall|i: int| 0 <= i < labels@.len() ==> #[trigger] labels@[i] <= nlab,
    ensures
        r.0@.len() == nlab + 1,
        r.1@.len() == nlab + 1,
        r.2@.len() == nlab + 1,
        r.3@.len() == nlab + 1,
        r.4@.len() == nlab + 1,
        forall|id: int| 1 <= id <= nlab ==> {
            let b = #[trigger] region_box(labels@, w as int, h as int, id, labels@.len() as int);
            &&& r.0@[id] == b.0
            &&& r.1@[id] == b.1
            &&& r.2@[id] == b.2
            &&& r.3@[id] == b.3
            &&& r.4@[id] == b.4
        },
{
    let n = labels.len();
    let mut min_x: Vec<usize> = Vec::new();
    let mut min_y: Vec<usize> = Vec::new();
    let mut max_x: Vec<usize> = Vec::new();
    let mut max_y: Vec<usize> = Vec::new();
    let mut area: Vec<usize> = Vec::new();
    let mut j: usize = 0;
    while j <= nlab
        invariant
            j <= nlab + 1,
            nlab < usize::MAX,
            min_x@.len() == j && min_y@.len() == j && max_x@.len() == j && max_y@.len() == j
                && area@.len() == j,
            forall|id: int| 0 <= id < j ==> min_x@[id] == w && min_y@[id] == h && max_x@[id] == 0
                && max_y@[id] == 0 && area@[id] == 0,
        decreases nlab + 1 - j,
    {
        min_x.push(w);
        min_y.push(h);
        max_x.push(0);
        max_y.push(0);
        area.push(0);
        j += 1;
    }
    let mut i: usize = 0;
    let mut x: usize = 0;
    let mut y: usize = 0;
    while i < n
        invariant
            n == w * h,
            n == labels@.len(),
            w > 0,
            h > 0,
            i <= n,
            i == y * w + x,
            i < n ==> x < w && y < h,
            forall|k: int| 0 <= k < labels@.len() ==> #[trigger] labels@[k] <= nlab,
            min_x@.len() == nlab + 1 && min_y@.len() == nlab + 1 && max_x@.len() == nlab + 1
                && max_y@.len() == nlab + 1 && area@.len() == nlab + 1,
            forall|id: int| 1 <= id <= nlab ==> {
                let b = #[trigger] region_box(labels@, w as int, h as int, id, i as int);
                &&& min_x@[id] == b.0
                &&& min_y@[id] == b.1
                &&& max_x@[id] == b.2
                &&& max_y@[id] == b.3
                &&& area@[id] == b.4
            },
        decreases n - i,
    {
        proof {
            lemma_cell_index(x as int, y as int, w as int, h as int);
        }
        let id = labels[i];
        let ghost o0 = min_x@;
        let ghost o1 = min_y@;
        let ghost o2 = max_x@;
        let ghost o3 = max_y@;
        let ghost o4 = area@;
        proof {
            assert(i as int % w as int == x && i as int / w as int == y);
        }
        if id != 0 {
            proof {
                lemma_region_box_bounds(labels@, w as int, h as int, id as int, i as int);
                assert(o4[id as int] <= i);
            }
            if x < min_x[id] {
                min_x.set(id, x);
            }
            if y < min_y[id] {
                min_y.set(id, y);
            }
            if x > max_x[id] {
                max_x.set(id, x);
            }
            if y > max_y[id] {
                max_y.set(id, y);
            }
            let a = area[id];
            area.set(id, a + 1);
        }
        proof {
            assert forall|id2: int| 1 <= id2 <= nlab implies {
                let b = #[trigger] region_box(labels@, w as int, h as int, id2, i + 1);
                &&& min_x@[id2] == b.0
                &&& min_y@[id2] == b.1
                &&& max_x@[id2] == b.2
                &&& max_y@[id2] == b.3
                &&& area@[id2] == b.4
            } by {
                let b0 = region_box(labels@, w as int, h as int, id2, i as int);
                assert(o0[id2] == b0.0 && o1[id2] == b0.1 && o2[id2] == b0.2 && o3[id2] == b0.3 && o4[id2] == b0.4);
            }
        }
        i += 1;
        if x + 1 == w {
            assert((y + 1) * w == y * w + w) by (nonlinear_arith);
            x = 0;
            y += 1;
            proof {
                if i < n {
                    assert(y < h) by (nonlinear_arith)
                        requires i == y * w, i < n, n == w * h;
                }
            }
        } else {
            x += 1;
        }
    }
    (min_x, min_y, max_x, max_y, area)
}

/// The rectangle's corners fit the machine, and so does its area.
pub open spec fn rect_fits(r: Rect) -> bool {
    r.0 + r.2 <= usize::MAX && r.1 + r.3 <= usize::MAX && r.2 * r.3 <= usize::MAX
}

pub open spec fn min_int(a: int, b: int) -> int {
    if a <= b { a } else { b }
}

pub open spec fn max_int(a: int, b: int) -> int {
    if a >= b { a } else { b }
}

/// Area of the intersection of two rectangles `(x, y, w, h)`.
pub open spec fn overlap_spec(a: Rect, b: Rect) -> int {
    let ix0 = max_int(a.0 as int, b.0 as int);
    let iy0 = max_int(a.1 as int, b.1 as int);
    let ix1 = min_int(a.0 + a.2, b.0 + b.2);
    let iy1 = min_int(a.1 + a.3, b.1 + b.3);
    if ix1 <= ix0 || iy1 <= iy0 { 0 } else { (ix1 - ix0) * (iy1 - iy0) }
}

proof fn lemma_overlap_le(a: Rect, b: Rect)
    ensures
        0 <= overlap_spec(a, b) <= a.2 * a.3,
        overlap_spec(a, b) <= b.2 * b.3,
{
    let ix0 = max_int(a.0 as int, b.0 as int);
    let iy0 = max_int(a.1 as int, b.1 as int);
    let ix1 = min_int(a.0 + a.2, b.0 + b.2);
    let iy1 = min_int(a.1 + a.3, b.1 + b.3);
    if !(ix1 <= ix0 || iy1 <= iy0) {
        let dx = ix1 - ix0;
        let dy = iy1 - iy0;
        assert(dx * dy <= a.2 * a.3) by (nonlinear_arith)
            requires 0 < dx <= a.2, 0 < dy <= a.3;
        assert(dx * dy <= b.2 * b.3) by (nonlinear_arith)
            requires 0 < dx <= b.2, 0 < dy <= b.3;
        assert(0 <= dx * dy) by (nonlinear_arith)
            requires 0 < dx, 0 < dy;
    }
}

/// Area of the intersection of two rectangles.
pub fn overlap_area(a: Rect, b: Rect) -> (r: usize)
    requires
        rect_fits(a),
        rect_fits(b),
    ensures
        r == overlap_spec(a, b),
{
    proof {
        lemma_overlap_le(a, b);
    }
    let ax1 = a.0 + a.2;
    let ay1 = a.1 + a.3;
    let bx1 = b.0 + b.2;
    let by1 = b.1 + b.3;
    let ix0 = if a.0 >= b.0 { a.0 } else { b.0 };
    let iy0 = if a.1 >= b.1 { a.1 } else { b.1 };
    let ix1 = if ax1 <= bx1 { ax1 } else { bx1 };
    let iy1 = if ay1 <= by1 { ay1 } else { by1 };
    if ix1 <= ix0 || iy1 <= iy0 {
        0
    } else {
        (ix1 - ix0) * (iy1 - iy0)
    }
}

/// The smaller of two rectangles is mostly (over 65%) inside the larger.
pub open spec fn mostly_inside(inter: int, smaller_area: int) -> bool {
    100 * inter > 65 * max_int(smaller_area, 1)
}

/// The pass over the others for the `i`-th rectangle, from the `j`-th on: a
/// kept rectangle no larger and mostly inside it is dropped; if it is itself
/// mostly inside a larger kept one, it is dropped and the pass ends.
pub open spec fn suppress_pass(rects: Seq<Rect>, keep: Seq<bool>, i: int, j: int) -> Seq<bool>
    decreases rects.len() - j,
{
    if j >= rects.len() {
        keep
    } else if i == j || !keep[j] {
        suppress_pass(rects, keep, i, j + 1)
    } else {
        let a = rects[i];
        let b = rects[j];
        let aa = a.2 * a.3;
        let bb = b.2 * b.3;
        let inter = overlap_spec(a, b);
        if aa >= bb && mostly_inside(inter, bb) {
            suppress_pass(rects, keep.update(j, false), i, j + 1)
        } else if bb > aa && mostly_inside(inter, aa) {
            keep.update(i, false)
        } else {
            suppress_pass(rects, keep, i, j + 1)
        }
    }
}

/// The passes for every still kept rectangle, from the `i`-th on.
pub open spec fn suppress_from(rects: Seq<Rect>, keep: Seq<bool>, i: int) -> Seq<bool>
    decreases rects.len() - i,
{
    if i >= rects.len() {
        keep
    } else if !keep[i] {
        suppress_from(rects, keep, i + 1)
    } else {
        suppress_from(rects, suppress_pass(rects, keep, i, 0), i + 1)
    }
}

/// The items whose flag is set, in order.
pub open spec fn kept<A>(s: Seq<A>, keep: Seq<bool>) -> Seq<A>
    decreases s.len(),
{
    if s.len() == 0 {
        s
    } else if keep[s.len() - 1] {
        kept(s.drop_last(), keep).push(s.last())
    } else {
        kept(s.drop_last(), keep)
    }
}

/// The rectangles left when those mostly inside a larger one are dropped.
pub open spec fn suppress_spec(rects: Seq<Rect>) -> Seq<Rect> {
    kept(rects, suppress_from(rects, Seq::new(rects.len(), |k: int| true), 0))
}

proof fn lemma_suppress_pass_len(rects: Seq<Rect>, keep: Seq<bool>, i: int, j: int)
    requires
        keep.len() == rects.len(),
        0 <= i < rects.len(),
        0 <= j,
    ensures
        suppress_pass(rects, keep, i, j).len() == rects.len(),
    decreases rects.len() - j,
{
    if j < rects.len() {
        lemma_suppress_pass_len(rects, keep, i, j + 1);
        lemma_suppress_pass_len(rects, keep.update(j, false), i, j + 1);
    }
}

/// One of two boxes lies mostly (more than 65%) inside the other, the
/// smaller one counted against its own area.
pub open spec fn nested_pair(a: Rect, b: Rect) -> bool {
    let aa = a.2 * a.3;
    let bb = b.2 * b.3;
    let inter = overlap_spec(a, b);
    (aa >= bb && mostly_inside(inter, bb)) || (bb > aa && mostly_inside(inter, aa))
}

/// `idx` picks, in increasing order, positions of `s` holding the items `r`.
pub open spec fn picks<A>(s: Seq<A>, r: Seq<A>, idx: Seq<int>) -> bool {
    &&& idx.len() == r.len()
    &&& forall|k: int| 0 <= k < idx.len() ==> 0 <= #[trigger] idx[k] < s.len() && r[k] == s[idx[k]]
    &&& forall|p: int, q: int| 0 <= p < q < idx.len() ==> #[trigger] idx[p] < #[trigger] idx[q]
}

proof fn lemma_pass_mono(rects: Seq<Rect>, keep: Seq<bool>, i: int, j: int)
    requires
        keep.len() == rects.len(),
        0 <= i < rects.len(),
        0 <= j,
    ensures
        forall|k: int| 0 <= k < rects.len() && #[trigger] suppress_pass(rects, keep, i, j)[k] ==> keep[k],
    decreases rects.len() - j,
{
    if j < rects.len() {
        let out = suppress_pass(rects, keep, i, j);
        if i == j || !keep[j] {
            lemma_pass_mono(rects, keep, i, j + 1);
            assert(out == suppress_pass(rects, keep, i, j + 1));
        } else {
            let a = rects[i];
            let b = rects[j];
            let aa = a.2 * a.3;
            let bb = b.2 * b.3;
            let inter = overlap_spec(a, b);
            if aa >= bb && mostly_inside(inter, bb) {
                let k2 = keep.update(j, false);
                lemma_pass_mono(rects, k2, i, j + 1);
                assert(out == suppress_pass(rects, k2, i, j + 1));
                assert forall|k: int| 0 <= k < rects.len() && #[trigger] out[k] implies keep[k] by {
                    assert(k2[k]);
                }
            } else if bb > aa && mostly_inside(inter, aa) {
                assert(out == keep.update(i, false));
            } else {
                lemma_pass_mono(rects, keep, i, j + 1);
                assert(out == suppress_pass(rects, keep, i, j + 1));
            }
        }
    }
}

proof fn lemma_pass_clean(rects: Seq<Rect>, keep: Seq<bool>, i: int, j: int)
    requires
        keep.len() == rects.len(),
        0 <= i < rects.len(),
        0 <= j,
        keep[i],
        suppress_pass(rects, keep, i, j)[i],
    ensures
        forall|jj: int|
            j <= jj < rects.len() && jj != i && #[trigger] suppress_pass(rects, keep, i, j)[jj] ==> !nested_pair(
                rects[i],
                rects[jj],
            ),
    decreases rects.len() - j,
{
    if j < rects.len() {
        let out = suppress_pass(rects, keep, i, j);
        lemma_suppress_pass_len(rects, keep, i, j);
        if i == j || !keep[j] {
            assert(out == suppress_pass(rects, keep, i, j + 1));
            lemma_pass_clean(rects, keep, i, j + 1);
            lemma_pass_mono(rects, keep, i, j + 1);
        } else {
            let a = rects[i];
            let b = rects[j];
            let aa = a.2 * a.3;
            let bb = b.2 * b.3;
            let inter = overlap_spec(a, b);
            if aa >= bb && mostly_inside(inter, bb) {
                let k2 = keep.update(j, false);
                assert(out == suppress_pass(rects, k2, i, j + 1));
                lemma_pass_clean(rects, k2, i, j + 1);
                lemma_pass_mono(rects, k2, i, j + 1);
            } else if bb > aa && mostly_inside(inter, aa) {
                assert(out == keep.update(i, false));
            } else {
                assert(out == suppress_pass(rects, keep, i, j + 1));
                lemma_pass_clean(rects, keep, i, j + 1);
                assert(!nested_pair(rects[i], rects[j]));
            }
        }
    }
}

proof fn lemma_pass_some(rects: Seq<Rect>, keep: Seq<bool>, i: int, j: int)
    requires
        keep.len() == rects.len(),
        0 <= i < rects.len(),
        0 <= j,
        keep[i],
    ensures
        exists|k: int| 0 <= k < rects.len() && #[trigger] suppress_pass(rects, keep, i, j)[k],
    decreases rects.len() - j,
{
    lemma_suppress_pass_len(rects, keep, i, j);
    if j >= rects.len() {
        assert(suppress_pass(rects, keep, i, j)[i]);
    } else if i == j || !keep[j] {
        lemma_pass_some(rects, keep, i, j + 1);
    } else {
        let a = rects[i];
        let b = rects[j];
        let aa = a.2 * a.3;
        let bb = b.2 * b.3;
        let inter = overlap_spec(a, b);
        if aa >= bb && mostly_inside(inter, bb) {
            lemma_pass_some(rects, keep.update(j, false), i, j + 1);
        } else if bb > aa && mostly_inside(inter, aa) {
            assert(suppress_pass(rects, keep, i, j)[j]);
        } else {
            lemma_pass_some(rects, keep, i, j + 1);
        }
    }
}

proof fn lemma_from_props(rects: Seq<Rect>, keep: Seq<bool>, i0: int)
    requires
        keep.len() == rects.len(),
        0 <= i0,
    ensures
        suppress_from(rects, keep, i0).len() == rects.len(),
        forall|k: int| 0 <= k < rects.len() && #[trigger] suppress_from(rects, keep, i0)[k] ==> keep[k],
        forall|i: int, j: int|
            i0 <= i < rects.len() && 0 <= j < rects.len() && i != j && #[trigger] suppress_from(rects, keep, i0)[i]
                && #[trigger] suppress_from(rects, keep, i0)[j] ==> !nested_pair(rects[i], rects[j]),
        (exists|k: int| 0 <= k < rects.len() && keep[k]) ==> exists|k: int|
            0 <= k < rects.len() && #[trigger] suppress_from(rects, keep, i0)[k],
    decreases rects.len() - i0,
{
    if i0 < rects.len() {
        if !keep[i0] {
            lemma_from_props(rects, keep, i0 + 1);
        } else {
            let k2 = suppress_pass(rects, keep, i0, 0);
            lemma_suppress_pass_len(rects, keep, i0, 0);
            lemma_pass_mono(rects, keep, i0, 0);
            lemma_pass_some(rects, keep, i0, 0);
            lemma_from_props(rects, k2, i0 + 1);
            let r = suppress_from(rects, keep, i0);
            assert(r == suppress_from(rects, k2, i0 + 1));
            if r[i0] {
                lemma_pass_clean(rects, keep, i0, 0);
            }
            assert forall|i: int, j: int|
                i0 <= i < rects.len() && 0 <= j < rects.len() && i != j && #[trigger] r[i] && #[trigger] r[j]
                    implies !nested_pair(rects[i], rects[j]) by {
                if i == i0 {
                    assert(k2[i0]);
                    assert(k2[j]);
                }
            }
        }
    }
}

proof fn lemma_kept_picks<A>(s: Seq<A>, keep: Seq<bool>) -> (idx: Seq<int>)
    requires
        keep.len() >= s.len(),
    ensures
        picks(s, kept(s, keep), idx),
        forall|k: int| 0 <= k < idx.len() ==> keep[#[trigger] idx[k]],
        (exists|k: int| 0 <= k < s.len() && keep[k]) ==> kept(s, keep).len() > 0,
    decreases s.len(),
{
    if s.len() == 0 {
        Seq::empty()
    } else {
        let t = s.drop_last();
        let i0 = lemma_kept_picks(t, keep);
        if keep[s.len() - 1] {
            let idx = i0.push(s.len() - 1);
            assert forall|k: int| 0 <= k < idx.len() implies 0 <= #[trigger] idx[k] < s.len() && kept(s, keep)[k]
                == s[idx[k]] by {
                if k < i0.len() {
                    assert(idx[k] == i0[k]);
                }
            }
            assert forall|p: int, q: int| 0 <= p < q < idx.len() implies #[trigger] idx[p] < #[trigger] idx[q] by {
                if q < i0.len() {
                    assert(idx[p] == i0[p] && idx[q] == i0[q]);
                } else {
                    assert(idx[p] == i0[p]);
                }
            }
            assert forall|k: int| 0 <= k < idx.len() implies keep[#[trigger] idx[k]] by {
                if k < i0.len() {
                    assert(idx[k] == i0[k]);
                }
            }
            idx
        } else {
            if exists|k: int| 0 <= k < s.len() && keep[k] {
                let k = choose|k: int| 0 <= k < s.len() && keep[k];
                assert(k < t.len());
            }
            i0
        }
    }
}

/// What suppression keeps, stated directly: the kept boxes are a
/// subsequence of the input; no two kept boxes have the smaller one mostly
/// (more than 65%) inside the larger; and a non-empty input keeps at least
/// one box.
pub proof fn lemma_suppress_direct(rects: Seq<Rect>)
    ensures
        exists|idx: Seq<int>| picks(rects, suppress_spec(rects), idx),
        forall|p: int, q: int|
            0 <= p < q < suppress_spec(rects).len() ==> !nested_pair(
                #[trigger] suppress_spec(rects)[p],
                #[trigger] suppress_spec(rects)[q],
            ),
        rects.len() > 0 ==> suppress_spec(rects).len() > 0,
{
    let all = Seq::new(rects.len(), |k: int| true);
    lemma_from_props(rects, all, 0);
    let fl = suppress_from(rects, all, 0);
    let idx = lemma_kept_picks(rects, fl);
    let r = suppress_spec(rects);
    assert(r == kept(rects, fl));
    if rects.len() > 0 {
        assert(all[0]);
    }
    assert forall|p: int, q: int| 0 <= p < q < r.len() implies !nested_pair(#[trigger] r[p], #[trigger] r[q]) by {
        assert(idx[p] < idx[q]);
        assert(fl[idx[p]] && fl[idx[q]]);
    }
}

/// Drop rectangles that lie mostly (over 65%) inside a larger kept one, such
/// as speech bubbles or figures found inside a panel.
pub fn suppress_nested(rects: Vec<Rect>, w: usize, h: usize) -> (r: Vec<Rect>)
    requires
        forall|k: int| 0 <= k < rects@.len() ==> rect_fits(#[trigger] rects@[k]),
    ensures
        r@ == suppress_spec(rects@),
{
    let n = rects.len();
    let mut keep: Vec<bool> = Vec::new();
    let mut k: usize = 0;
    while k < n
        invariant
            n == rects@.len(),
            k <= n,
            keep@ == Seq::new(k as nat, |q: int| true),
        decreases n - k,
    {
        keep.push(true);
        k += 1;
        assert(keep@ =~= Seq::new(k as nat, |q: int| true));
    }
    let ghost all = keep@;
    let mut i: usize = 0;
    while i < n
        invariant
            n == rects@.len(),
            i <= n,
            keep@.len() == n,
            forall|q: int| 0 <= q < rects@.len() ==> rect_fits(#[trigger] rects@[q]),
            suppress_from(rects@, keep@, i as int) == suppress_from(rects@, all, 0),
        decreases n - i,
    {
        if keep[i] {
            let a = rects[i];
            let aa = a.2 * a.3;
            let ghost k0 = keep@;
            let mut j: usize = 0;
            loop
                invariant_except_break
                    j <= n,
                    keep@.len() == n,
                    keep@[i as int],
                    suppress_pass(rects@, keep@, i as int, j as int) == suppress_pass(rects@, k0, i as int, 0),
                invariant
                    n == rects@.len(),
                    i < n,
                    a == rects@[i as int],
                    aa == a.2 * a.3,
                    forall|q: int| 0 <= q < rects@.len() ==> rect_fits(#[trigger] rects@[q]),
                ensures
                    keep@ == suppress_pass(rects@, k0, i as int, 0),
                decreases n - j,
            {
                if j >= n {
                    break;
                }
                if i != j && keep[j] {
                    let b = rects[j];
                    let bb = b.2 * b.3;
                    let inter = overlap_area(a, b);
                    let bb1: u128 = if bb >= 1 { bb as u128 } else { 1 };
                    let aa1: u128 = if aa >= 1 { aa as u128 } else { 1 };
                    if aa >= bb && 100 * (inter as u128) > 65 * bb1 {
                        keep.set(j, false);
                    } else if bb > aa && 100 * (inter as u128) > 65 * aa1 {
                        keep.set(i, false);
                        break;
                    }
                }
                j += 1;
            }
            proof {
                lemma_suppress_pass_len(rects@, k0, i as int, 0);
            }
        }
        i += 1;
    }
    let ghost fin = keep@;
    let mut out: Vec<Rect> = Vec::new();
    let mut q: usize = 0;
    while q < n
        invariant
            n == rects@.len(),
            q <= n,
            keep@ == fin,
            fin.len() == n,
            out@ == kept(rects@.take(q as int), fin),
        decreases n - q,
    {
        proof {
            assert(rects@.take(q + 1).drop_last() =~= rects@.take(q as int));
        }
        if keep[q] {
            out.push(rects[q]);
        }
        q += 1;
    }
    proof {
        assert(rects@.take(n as int) =~= rects@);
    }
    out
}

/// The gutter mask: near white (at least 225) for white gutters, near black
/// (at most 40) for dark ones.
pub open spec fn gutter_spec(lum: Seq<u8>, white: bool) -> Seq<bool> {
    lum.map_values(|v: u8| if white { v >= 225 } else { v <= 40 })
}

/// The cells that are not gutter.
pub open spec fn not_spec(m: Seq<bool>) -> Seq<bool> {
    m.map_values(|b: bool| !b)
}

/// Radius of the closing: 0.4% of the shorter side, at least 2, made odd.
pub open spec fn close_radius(w: int, h: int) -> int {
    let m = max_int(min_int(w, h) / 250, 2);
    if m % 2 == 0 { m + 1 } else { m }
}

/// One corner's fill of the page margin: from the corner when it is gutter.
pub open spec fn corner_step(g: Seq<bool>, bg: Seq<bool>, w: int, h: int, c: (int, int)) -> Seq<bool> {
    if at(g, w, c.0, c.1) { fill_spec(g, bg, w, h, c) } else { bg }
}

/// The page margin: gutter reached from the four corners, in the order
/// top left, top right, bottom left, bottom right.
pub open spec fn margin_spec(g: Seq<bool>, w: int, h: int) -> Seq<bool> {
    let b0 = corner_step(g, unmarked(w * h), w, h, (0, 0));
    let b1 = corner_step(g, b0, w, h, (w - 1, 0));
    let b2 = corner_step(g, b1, w, h, (0, h - 1));
    corner_step(g, b2, w, h, (w - 1, h - 1))
}

/// The panel mask: the closed non-gutter cells off the page margin.
pub open spec fn panel_mask_spec(lum: Seq<u8>, w: int, h: int, white: bool) -> Seq<bool> {
    let g = gutter_spec(lum, white);
    let closed = close_spec(not_spec(g), w, h, close_radius(w, h), 2);
    let bg = margin_spec(g, w, h);
    Seq::new((w * h) as nat, |i: int| closed[i] && !bg[i])
}

/// A region plausible as a panel: it has cells, covers 3% to 88% of the page,
/// has an aspect ratio from 0.12 to 8, and spans at least 7% of the width and
/// 4.5% of the height.
pub open spec fn region_ok(b: (int, int, int, int, int), w: int, h: int) -> bool {
    let bw = b.2 + 1 - b.0;
    let bh = b.3 + 1 - b.1;
    let bh1 = max_int(bh, 1);
    &&& b.4 > 0
    &&& b.4 >= 3 * (w * h) / 100
    &&& b.4 <= 88 * (w * h) / 100
    &&& 12 * bh1 <= 100 * bw
    &&& bw <= 8 * bh1
    &&& bw >= 7 * w / 100
    &&& bh >= 45 * h / 1000
}

/// The boxes `(x, y, w, h)` of the plausible regions among labels `1..=upto`,
/// in label order.
pub open spec fn candidates(labels: Seq<usize>, w: int, h: int, upto: int) -> Seq<Rect>
    decreases upto,
{
    if upto < 1 {
        Seq::empty()
    } else {
        let prev = candidates(labels, w, h, upto - 1);
        let b = region_box(labels, w, h, upto, labels.len() as int);
        if region_ok(b, w, h) {
            prev.push((b.0 as usize, b.1 as usize, (b.2 + 1 - b.0) as usize, (b.3 + 1 - b.1) as usize))
        } else {
            prev
        }
    }
}

/// A span `[a, a + len)` of a side `n` long, padded by 0.6% of the side (at
/// least a cell) and snapped to an edge within `pct` percent of it.
pub open spec fn padded_span(a: int, len: int, n: int, pct: int) -> (int, int) {
    let p = max_int(6 * n / 1000, 1);
    let s0 = if a >= p { a - p } else { 0 };
    let e0 = min_int(a + len + p, n);
    let s1 = if 100 * s0 <= pct * n { 0 } else { s0 };
    let e1 = if 100 * (n - e0) <= pct * n { n } else { e0 };
    (s1, e1)
}

/// A box padded so borders are not clipped, snapped to a page edge within 3%
/// (sideways) or 2% (up and down), and widened to the full width when it spans
/// 88% of it.
pub open spec fn pad_snap(r: Rect, w: int, h: int) -> Rect {
    let (x0, x1) = padded_span(r.0 as int, r.2 as int, w, 3);
    let (y0, y1) = padded_span(r.1 as int, r.3 as int, h, 2);
    let full = 100 * (x1 - x0) >= 88 * w;
    let x0 = if full { 0 } else { x0 };
    let x1 = if full { w } else { x1 };
    (x0 as usize, y0 as usize, (x1 - x0) as usize, (y1 - y0) as usize)
}

/// Reading order of boxes: by vertical centre, boxes whose centres are within
/// 5% of the page height apart being one row, read left to right.
pub open spec fn row_before(a: Rect, b: Rect, h: int) -> bool {
    let ay = a.1 + a.3 / 2;
    let by = b.1 + b.3 / 2;
    let d = if ay >= by { ay - by } else { by - ay };
    if d <= h / 20 { a.0 < b.0 } else { ay < by }
}

pub open spec fn row_order(h: int) -> spec_fn(Rect, Rect) -> bool {
    |a: Rect, b: Rect| row_before(a, b, h)
}

/// The panel boxes found by contours on a `w` by `h` luma image with white
/// (or dark) gutters, in reading order; the whole page when there are none.
pub open spec fn contour_spec(lum: Seq<u8>, w: int, h: int, white: bool) -> Seq<Rect> {
    let labels = label_spec(panel_mask_spec(lum, w, h, white), w, h);
    let nlab = max_label(labels, w * h);
    let whole = seq![(0usize, 0usize, w as usize, h as usize)];
    if nlab == 0 {
        whole
    } else {
        let rects = suppress_spec(candidates(labels, w, h, nlab).map_values(|r: Rect| pad_snap(r, w, h)));
        if rects.len() == 0 { whole } else { isort(rects, row_order(h)) }
    }
}

proof fn lemma_first_conn_le(mask: Seq<bool>, w: int, h: int, i: int, k: int)
    requires
        0 <= k,
        0 <= i,
    ensures
        0 <= first_conn(mask, w, h, i, k) <= i,
    decreases i - k,
{
    if k < i && !connected(mask, w, h, cell_at(k, w), cell_at(i, w)) {
        lemma_first_conn_le(mask, w, h, i, k + 1);
    }
}

proof fn lemma_label_bound(mask: Seq<bool>, w: int, h: int)
    ensures
        forall|i: int| 0 <= i < mask.len() ==> #[trigger] label_spec(mask, w, h)[i] <= mask.len(),
{
    assert forall|i: int| 0 <= i < mask.len() implies #[trigger] label_spec(mask, w, h)[i] <= mask.len() by {
        lemma_first_conn_le(mask, w, h, i, 0);
        let f = first_conn(mask, w, h, i, 0);
        lemma_firsts_before_le(mask, w, h, f);
    }
}

proof fn lemma_max_label_le(labels: Seq<usize>, k: int, bound: int)
    requires
        0 <= k <= labels.len(),
        0 <= bound,
        forall|i: int| 0 <= i < labels.len() ==> #[trigger] labels[i] <= bound,
    ensures
        max_label(labels, k) <= bound,
    decreases k,
{
    if k > 0 {
        lemma_max_label_le(labels, k - 1, bound);
    }
}

/// The largest label.
fn max_label_exec(labels: &[usize]) -> (m: usize)
    ensures
        m == max_label(labels@, labels@.len() as int),
        forall|i: int| 0 <= i < labels@.len() ==> #[trigger] labels@[i] <= m,
{
    let mut m: usize = 0;
    let mut i: usize = 0;
    while i < labels.len()
        invariant
            i <= labels@.len(),
            m == max_label(labels@, i as int),
            forall|k: int| 0 <= k < i ==> #[trigger] labels@[k] <= m,
        decreases labels@.len() - i,
    {
        if labels[i] > m {
            m = labels[i];
        }
        i += 1;
    }
    m
}

fn padded_span_exec(a: usize, len: usize, n: usize, pct: u128) -> (r: (usize, usize))
    requires
        a + len <= n,
        pct <= 100,
    ensures
        r.0 == padded_span(a as int, len as int, n as int, pct as int).0,
        r.1 == padded_span(a as int, len as int, n as int, pct as int).1,
        r.0 <= a,
        a + len <= r.1 <= n,
{
    let p = if 6 * (n as u128) / 1000 >= 1 { (6 * (n as u128) / 1000) as usize } else { 1 };
    let s0 = if a >= p { a - p } else { 0 };
    let e0 = if p <= n - (a + len) { a + len + p } else { n };
    assert(pct * (n as u128) <= 100 * 0xffff_ffff_ffff_ffffu128) by (nonlinear_arith)
        requires pct <= 100, n <= 0xffff_ffff_ffff_ffffu128;
    let s1 = if 100 * (s0 as u128) <= pct * (n as u128) { 0 } else { s0 };
    let e1 = if 100 * ((n - e0) as u128) <= pct * (n as u128) { n } else { e0 };
    (s1, e1)
}

fn pad_snap_exec(r: Rect, w: usize, h: usize) -> (p: Rect)
    requires
        rect_on_page(r, w as int, h as int),
    ensures
        p == pad_snap(r, w as int, h as int),
        rect_on_page(p, w as int, h as int),
{
    let (x0, x1) = padded_span_exec(r.0, r.2, w, 3);
    let (y0, y1) = padded_span_exec(r.1, r.3, h, 2);
    if 100 * ((x1 - x0) as u128) >= 88 * (w as u128) {
        (0, y0, w, y1 - y0)
    } else {
        (x0, y0, x1 - x0, y1 - y0)
    }
}

fn row_before_exec(a: &Rect, b: &Rect, h: usize) -> (r: bool)
    requires
        a.1 + a.3 <= usize::MAX,
        b.1 + b.3 <= usize::MAX,
    ensures
        r == row_before(*a, *b, h as int),
{
    let ay = a.1 + a.3 / 2;
    let by = b.1 + b.3 / 2;
    let d = if ay >= by { ay - by } else { by - ay };
    if d <= h / 20 {
        a.0 < b.0
    } else {
        ay < by
    }
}

/// Insert into boxes kept in reading order, after boxes it does not precede.
fn insert_rect(r: &mut Vec<Rect>, e: Rect, h: usize)
    requires
        e.1 + e.3 <= usize::MAX,
        forall|k: int| 0 <= k < old(r)@.len() ==> (#[trigger] old(r)@[k]).1 + old(r)@[k].3 <= usize::MAX,
    ensures
        final(r)@ == insert_from_end(old(r)@, e, row_order(h as int)),
        exists|p: int| 0 <= p <= old(r)@.len() && final(r)@ == old(r)@.insert(p, e),
{
    let mut p: usize = r.len();
    while p > 0 && row_before_exec(&e, &r[p - 1], h)
        invariant
            p <= r@.len(),
            r@ == old(r)@,
            e.1 + e.3 <= usize::MAX,
            forall|k: int| 0 <= k < r@.len() ==> (#[trigger] r@[k]).1 + r@[k].3 <= usize::MAX,
            forall|k: int| p <= k < r@.len() ==> row_order(h as int)(e, #[trigger] r@[k]),
        decreases p,
    {
        p -= 1;
    }
    proof {
        crate::seqs::lemma_insert_from_end_at(r@, e, row_order(h as int), p as int);
    }
    r.insert(p, e);
    assert(r@ == old(r)@.insert(p as int, e));
}

fn clear_margin(panel: &mut Vec<bool>, bg: &Vec<bool>)
    requires
        old(panel)@.len() == bg@.len(),
    ensures
        final(panel)@ == Seq::new(old(panel)@.len(), |q: int| old(panel)@[q] && !bg@[q]),
{
    let ghost orig = panel@;
    let n = panel.len();
    let mut i: usize = 0;
    while i < n
        invariant
            n == orig.len(),
            i <= n,
            panel@.len() == n,
            bg@.len() == n,
            forall|q: int| i <= q < n ==> #[trigger] panel@[q] == orig[q],
            forall|q: int| 0 <= q < i ==> #[trigger] panel@[q] == (orig[q] && !bg@[q]),
        decreases n - i,
    {
        if bg[i] {
            panel.set(i, false);
        }
        i += 1;
    }
    assert(panel@ =~= Seq::new(orig.len(), |q: int| orig[q] && !bg@[q]));
}

fn region_ok_exec(b: (usize, usize, usize, usize, usize), w: usize, h: usize, n: usize) -> (ok: bool)
    requires
        n == w * h,
        b.0 <= b.2 + 1,
        b.1 <= b.3 + 1,
        b.2 < w,
        b.3 < h,
    ensures
        ok == region_ok((b.0 as int, b.1 as int, b.2 as int, b.3 as int, b.4 as int), w as int, h as int),
{
    if b.4 == 0 {
        return false;
    }
    let bw = b.2 + 1 - b.0;
    let bh = b.3 + 1 - b.1;
    let bh1 = if bh >= 1 { bh } else { 1 };
    let page = n as u128;
    (b.4 as u128) >= 3 * page / 100 && (b.4 as u128) <= 88 * page / 100 && 12 * (bh1 as u128) <= 100
        * (bw as u128) && (bw as u128) <= 8 * (bh1 as u128) && (bw as u128) >= 7 * (w as u128) / 100
        && (bh as u128) >= 45 * (h as u128) / 1000
}

fn gutter_and_panel(lum: &[u8], white_gutters: bool) -> (r: (Vec<bool>, Vec<bool>))
    ensures
        r.0@ == gutter_spec(lum@, white_gutters),
        r.1@ == not_spec(gutter_spec(lum@, white_gutters)),
{
    let n = lum.len();
    let mut gutter: Vec<bool> = Vec::new();
    let mut panel: Vec<bool> = Vec::new();
    let mut i: usize = 0;
    while i < n
        invariant
            n == lum@.len(),
            i <= n,
            gutter@ == gutter_spec(lum@.take(i as int), white_gutters),
            panel@ == not_spec(gutter_spec(lum@.take(i as int), white_gutters)),
        decreases n - i,
    {
        let g = if white_gutters { lum[i] >= 225 } else { lum[i] <= 40 };
        gutter.push(g);
        panel.push(!g);
        i += 1;
        proof {
            assert(gutter@ =~= gutter_spec(lum@.take(i as int), white_gutters));
            assert(panel@ =~= not_spec(gutter_spec(lum@.take(i as int), white_gutters)));
        }
    }
    proof {
        assert(lum@.take(n as int) =~= lum@);
    }
    (gutter, panel)
}

/// The page margin: gutter reached from the four corners.
pub(crate) fn page_margin(gutter: &Vec<bool>, w: usize, h: usize) -> (bg: Vec<bool>)
    requires
        gutter@.len() == w * h,
        w > 0,
        h > 0,
    ensures
        bg@ == margin_spec(gutter@, w as int, h as int),
        bg@.len() == w * h,
{
    let n = gutter.len();
    let ghost wi = w as int;
    let ghost hh = h as int;
    let mut bg: Vec<bool> = Vec::new();
    let mut i: usize = 0;
    while i < n
        invariant
            i <= n,
            bg@ == Seq::new(i as nat, |q: int| false),
        decreases n - i,
    {
        bg.push(false);
        i += 1;
        proof {
            assert(bg@ =~= Seq::new(i as nat, |q: int| false));
        }
    }
    proof {
        assert(bg@ =~= unmarked(wi * hh));
        lemma_cell_index(0, 0, wi, hh);
        lemma_cell_index(wi - 1, 0, wi, hh);
        lemma_cell_index(0, hh - 1, wi, hh);
        lemma_cell_index(wi - 1, hh - 1, wi, hh);
    }
    let ghost g = gutter@;
    if gutter[0] {
        flood_fill_bool(gutter.as_slice(), &mut bg, w, h, 0, 0);
    }
    let ghost b0 = bg@;
    assert(b0 == corner_step(g, unmarked(wi * hh), wi, hh, (0, 0)));
    if gutter[w - 1] {
        flood_fill_bool(gutter.as_slice(), &mut bg, w, h, w - 1, 0);
    }
    let ghost b1 = bg@;
    assert(b1 == corner_step(g, b0, wi, hh, (wi - 1, 0)));
    if gutter[(h - 1) * w] {
        flood_fill_bool(gutter.as_slice(), &mut bg, w, h, 0, h - 1);
    }
    let ghost b2 = bg@;
    assert(b2 == corner_step(g, b1, wi, hh, (0, hh - 1)));
    if gutter[(h - 1) * w + (w - 1)] {
        flood_fill_bool(gutter.as_slice(), &mut bg, w, h, w - 1, h - 1);
    }
    bg
}

/// The panel mask of a luma image.
fn panel_mask(lum: &[u8], w: usize, h: usize, white_gutters: bool) -> (panel: Vec<bool>)
    requires
        lum@.len() == w * h,
        w > 0,
        h > 0,
    ensures
        panel@ == panel_mask_spec(lum@, w as int, h as int, white_gutters),
{
    let (gutter, mut panel) = gutter_and_panel(lum, white_gutters);
    let short = if w <= h { w } else { h };
    let m = if short / 250 >= 2 { short / 250 } else { 2 };
    let k = if m % 2 == 0 { m + 1 } else { m };
    morph_close(&mut panel, w, h, k, 2);
    proof {
        lemma_close_len(not_spec(gutter@), w as int, h as int, k as int, 2);
    }
    let bg = page_margin(&gutter, w, h);
    clear_margin(&mut panel, &bg);
    proof {
        assert(panel@ =~= panel_mask_spec(lum@, w as int, h as int, white_gutters));
    }
    panel
}

/// The padded boxes of the plausible regions, in label order.
fn plausible_boxes(labels: &Vec<usize>, w: usize, h: usize, nlab: usize) -> (padded: Vec<Rect>)
    requires
        labels@.len() == w * h,
        w * h < usize::MAX,
        w > 0,
        h > 0,
        nlab <= w * h,
        forall|i: int| 0 <= i < labels@.len() ==> #[trigger] labels@[i] <= nlab,
    ensures
        padded@ == candidates(labels@, w as int, h as int, nlab as int).map_values(|r: Rect| pad_snap(r, w as int, h as int)),
        forall|q: int| 0 <= q < padded@.len() ==> rect_on_page(#[trigger] padded@[q], w as int, h as int),
{
    let n = labels.len();
    let (min_x, min_y, max_x, max_y, area) = region_boxes(labels.as_slice(), w, h, nlab);
    let mut padded: Vec<Rect> = Vec::new();
    let mut id: usize = 1;
    while id <= nlab
        invariant
            1 <= id <= nlab + 1,
            nlab <= n,
            n == w * h,
            n < usize::MAX,
            w > 0,
            h > 0,
            labels@.len() == n,
            min_x@.len() == nlab + 1 && min_y@.len() == nlab + 1 && max_x@.len() == nlab + 1
                && max_y@.len() == nlab + 1 && area@.len() == nlab + 1,
            forall|q: int| 1 <= q <= nlab ==> {
                let b = #[trigger] region_box(labels@, w as int, h as int, q, labels@.len() as int);
                &&& min_x@[q] == b.0
                &&& min_y@[q] == b.1
                &&& max_x@[q] == b.2
                &&& max_y@[q] == b.3
                &&& area@[q] == b.4
            },
            padded@ == candidates(labels@, w as int, h as int, id - 1).map_values(|r: Rect| pad_snap(r, w as int, h as int)),
            forall|q: int| 0 <= q < padded@.len() ==> rect_on_page(#[trigger] padded@[q], w as int, h as int),
        decreases nlab + 1 - id,
    {
        let ghost b = region_box(labels@, w as int, h as int, id as int, labels@.len() as int);
        proof {
            lemma_region_box_bounds(labels@, w as int, h as int, id as int, labels@.len() as int);
        }
        let a = area[id];
        let ok = if a == 0 {
            false
        } else {
            region_ok_exec((min_x[id], min_y[id], max_x[id], max_y[id], a), w, h, n)
        };
        assert(ok == region_ok(b, w as int, h as int));
        if ok {
            let r: Rect = (min_x[id], min_y[id], max_x[id] + 1 - min_x[id], max_y[id] + 1 - min_y[id]);
            let p = pad_snap_exec(r, w, h);
            padded.push(p);
            proof {
                assert(padded@ =~= candidates(labels@, w as int, h as int, id as int).map_values(|r: Rect| pad_snap(r, w as int, h as int)));
            }
        } else {
            proof {
                assert(padded@ =~= candidates(labels@, w as int, h as int, id as int).map_values(|r: Rect| pad_snap(r, w as int, h as int)));
            }
        }
        id += 1;
    }
    padded
}

/// Boxes in reading order.
fn sort_rows(rects: &Vec<Rect>, w: usize, h: usize) -> (sorted: Vec<Rect>)
    requires
        forall|q: int| 0 <= q < rects@.len() ==> rect_on_page(#[trigger] rects@[q], w as int, h as int),
    ensures
        sorted@ == isort(rects@, row_order(h as int)),
        forall|q: int| 0 <= q < sorted@.len() ==> rect_on_page(#[trigger] sorted@[q], w as int, h as int),
{
    let mut sorted: Vec<Rect> = Vec::new();
    let mut j: usize = 0;
    while j < rects.len()
        invariant
            j <= rects@.len(),
            forall|q: int| 0 <= q < rects@.len() ==> rect_on_page(#[trigger] rects@[q], w as int, h as int),
            forall|q: int| 0 <= q < sorted@.len() ==> rect_on_page(#[trigger] sorted@[q], w as int, h as int),
            sorted@ == isort(rects@.take(j as int), row_order(h as int)),
        decreases rects@.len() - j,
    {
        proof {
            crate::seqs::lemma_isort_take(rects@, j as int, row_order(h as int));
        }
        let e = rects[j];
        let ghost before = sorted@;
        insert_rect(&mut sorted, e, h);
        proof {
            let p = choose|p: int| 0 <= p <= before.len() && sorted@ == before.insert(p, e);
            assert forall|q: int| 0 <= q < sorted@.len() implies rect_on_page(#[trigger] sorted@[q], w as int, h as int) by {
                if q < p {
                    assert(sorted@[q] == before[q]);
                } else if q > p {
                    assert(sorted@[q] == before[q - 1]);
                }
            }
        }
        j += 1;
    }
    proof {
        assert(rects@.take(j as int) =~= rects@);
    }
    sorted
}

/// Panel boxes by contours, in reading order; the whole image when no
/// plausible panel is found.
pub fn detect_contour_panels(lum: &[u8], w: usize, h: usize, white_gutters: bool) -> (rects: Vec<Rect>)
    requires
        lum@.len() == w * h,
        w > 0,
        h > 0,
        w * h < usize::MAX,
    ensures
        rects@ == contour_spec(lum@, w as int, h as int, white_gutters),
        forall|k: int| 0 <= k < rects@.len() ==> rect_on_page(#[trigger] rects@[k], w as int, h as int),
{
    let n = lum.len();
    let panel = panel_mask(lum, w, h, white_gutters);
    let labels = label_components(panel.as_slice(), w, h);
    let nlab = max_label_exec(labels.as_slice());
    let whole: Rect = (0, 0, w, h);
    if nlab == 0 {
        return vec![whole];
    }
    proof {
        lemma_label_bound(panel@, w as int, h as int);
        lemma_max_label_le(labels@, n as int, n as int);
    }
    let padded = plausible_boxes(&labels, w, h, nlab);
    proof {
        assert forall|q: int| 0 <= q < padded@.len() implies rect_fits(#[trigger] padded@[q]) by {
            let r = padded@[q];
            assert(r.2 * r.3 <= w * h) by (nonlinear_arith)
                requires r.0 + r.2 <= w, r.1 + r.3 <= h, r.0 >= 0, r.1 >= 0, r.2 >= 0, r.3 >= 0;
        }
    }
    let ghost padded_view = padded@;
    let kept_rects = suppress_nested(padded, w, h);
    if kept_rects.len() == 0 {
        return vec![whole];
    }
    proof {
        lemma_kept_all(padded_view, suppress_from(padded_view, Seq::new(padded_view.len(), |q: int| true), 0), w as int, h as int);
    }
    sort_rows(&kept_rects, w, h)
}

proof fn lemma_kept_all(s: Seq<Rect>, keep: Seq<bool>, w: int, h: int)
    requires
        forall|q: int| 0 <= q < s.len() ==> rect_on_page(#[trigger] s[q], w as int, h as int),
    ensures
        forall|q: int| 0 <= q < kept(s, keep).len() ==> rect_on_page(#[trigger] kept(s, keep)[q], w as int, h as int),
    decreases s.len(),
{
    if s.len() > 0 {
        let t = s.drop_last();
        assert forall|q: int| 0 <= q < t.len() implies rect_on_page(#[trigger] t[q], w as int, h as int) by {
            assert(t[q] == s[q]);
        }
        lemma_kept_all(t, keep, w, h);
        let kt = kept(t, keep);
        let ks = kept(s, keep);
        assert forall|q: int| 0 <= q < ks.len() implies rect_on_page(#[trigger] ks[q], w as int, h as int) by {
            if q < kt.len() {
                assert(ks[q] == kt[q]);
            } else {
                assert(ks[q] == s.last());
            }
        }
    }
}

/// A pixel counts towards a gutter row: near white (at least 230) or near
/// black (at most 35).
pub open spec fn slice_gutter(v: u8, white: bool) -> bool {
    if white { v >= 230 } else { v <= 35 }
}

/// The row-slicing gutter mask of a luma image.
pub open spec fn slice_mask(lum: Seq<u8>, white: bool) -> Seq<bool> {
    lum.map_values(|v: u8| slice_gutter(v, white))
}

/// Rows at least 80% gutter.
pub open spec fn slice_flags(m: Seq<bool>, w: int, h: int) -> Seq<bool> {
    Seq::new(h as nat, |y: int| 5 * row_count(m, w, y, 0, w) >= 4 * w)
}

/// A row is flagged when it or a neighbour is.
pub open spec fn thicken(f: Seq<bool>) -> Seq<bool> {
    Seq::new(f.len(), |y: int| (y > 0 && f[y - 1]) || f[y] || (y + 1 < f.len() && f[y + 1]))
}

/// The first row at or after `y` whose flag is not `flag`.
pub open spec fn skip_flag(t: Seq<bool>, y: int, flag: bool) -> int
    decreases t.len() - y,
{
    if 0 <= y < t.len() && t[y] == flag { skip_flag(t, y + 1, flag) } else { y }
}

pub proof fn lemma_skip_flag(t: Seq<bool>, y: int, flag: bool)
    requires
        0 <= y <= t.len(),
    ensures
        y <= skip_flag(t, y, flag) <= t.len(),
        y < t.len() && t[y] == flag ==> y < skip_flag(t, y, flag),
    decreases t.len() - y,
{
    if y < t.len() && t[y] == flag {
        lemma_skip_flag(t, y + 1, flag);
    }
}

/// The full-width bands of unflagged rows from row `y` down that are at least
/// `min_h` rows tall.
pub open spec fn flag_bands(t: Seq<bool>, w: int, y: int, min_h: int) -> Seq<Rect>
    decreases t.len() - y,
{
    if y < 0 || y >= t.len() {
        Seq::empty()
    } else {
        let y0 = skip_flag(t, y, true);
        if y0 >= t.len() {
            Seq::empty()
        } else {
            let y1 = skip_flag(t, y0, false);
            proof {
                lemma_skip_flag(t, y, true);
                lemma_skip_flag(t, y0, false);
            }
            let rest = flag_bands(t, w, y1, min_h);
            if y1 - y0 >= min_h {
                seq![(0usize, y0 as usize, w as usize, (y1 - y0) as usize)] + rest
            } else {
                rest
            }
        }
    }
}

/// Full-width slices between gutter rows of a luma image, or the whole image.
pub open spec fn row_slices_spec(lum: Seq<u8>, w: int, h: int, white: bool) -> Seq<Rect> {
    let b = flag_bands(thicken(slice_flags(slice_mask(lum, white), w, h)), w, 0, min_slice(h));
    if b.len() == 0 { seq![(0usize, 0usize, w as usize, h as usize)] } else { b }
}

proof fn lemma_flag_bands(t: Seq<bool>, w: int, y: int, min_h: int)
    requires
        0 <= y <= t.len(),
        0 < min_h,
        0 <= w <= usize::MAX,
        t.len() <= usize::MAX,
    ensures
        forall|k: int|
            0 <= k < flag_bands(t, w, y, min_h).len() ==> {
                let r = #[trigger] flag_bands(t, w, y, min_h)[k];
                &&& r.0 == 0
                &&& r.2 == w
                &&& 1 <= r.3
                &&& r.1 + r.3 <= t.len()
            },
    decreases t.len() - y,
{
    if y < t.len() {
        let y0 = skip_flag(t, y, true);
        lemma_skip_flag(t, y, true);
        if y0 < t.len() {
            let y1 = skip_flag(t, y0, false);
            lemma_skip_flag(t, y0, false);
            lemma_flag_bands(t, w, y1, min_h);
            let rest = flag_bands(t, w, y1, min_h);
            if y1 - y0 >= min_h {
                let head = seq![(0usize, y0 as usize, w as usize, (y1 - y0) as usize)];
                assert forall|k: int| 0 <= k < (head + rest).len() implies {
                    let r = #[trigger] (head + rest)[k];
                    &&& r.0 == 0
                    &&& r.2 == w
                    &&& 1 <= r.3
                    &&& r.1 + r.3 <= t.len()
                } by {
                    if k > 0 {
                        assert((head + rest)[k] == rest[k - 1]);
                    } else {
                        assert((head + rest)[k] == head[0]);
                    }
                }
            }
        }
    }
}

fn row_hits(m: &Vec<bool>, w: usize, y: usize) -> (c: usize)
    requires
        m@.len() >= (y + 1) * w,
    ensures
        c == row_count(m@, w as int, y as int, 0, w as int),
        c <= w,
{
    let n = m.len();
    let mut c: usize = 0;
    let mut x: usize = 0;
    while x < w
        invariant
            x <= w,
            n == m@.len(),
            n >= (y + 1) * w,
            c == row_count(m@, w as int, y as int, 0, x as int),
            c <= x,
        decreases w - x,
    {
        assert(y * w + x < (y + 1) * w) by (nonlinear_arith)
            requires x < w;
        if m[y * w + x] {
            c += 1;
        }
        x += 1;
    }
    c
}

/// Full-width slices of a luma image between rows that are at least 80% near
/// white (or near black), thickened by a row; the whole image when there are
/// none.
pub fn detect_row_slices(lum: &[u8], w: usize, h: usize, white: bool) -> (rows: Vec<Rect>)
    requires
        lum@.len() == w * h,
        1 <= w,
        1 <= h,
    ensures
        rows@ == row_slices_spec(lum@, w as int, h as int, white),
        forall|k: int| 0 <= k < rows@.len() ==> (#[trigger] rows@[k]).0 + rows@[k].2 <= w && rows@[k].1
            + rows@[k].3 <= h && 1 <= rows@[k].2 && 1 <= rows@[k].3,
{
    let n = lum.len();
    let mut m: Vec<bool> = Vec::new();
    let mut i: usize = 0;
    while i < n
        invariant
            n == lum@.len(),
            i <= n,
            m@ == slice_mask(lum@.take(i as int), white),
        decreases n - i,
    {
        m.push(if white { lum[i] >= 230 } else { lum[i] <= 35 });
        i += 1;
        proof {
            assert(m@ =~= slice_mask(lum@.take(i as int), white));
        }
    }
    proof {
        assert(lum@.take(n as int) =~= lum@);
    }
    let ghost g = m@;
    let mut flags: Vec<bool> = Vec::new();
    let mut y: usize = 0;
    while y < h
        invariant
            y <= h,
            n == w * h,
            m@ == g,
            g.len() == n,
            flags@ == slice_flags(g, w as int, h as int).take(y as int),
        decreases h - y,
    {
        assert((y + 1) * w <= w * h) by (nonlinear_arith)
            requires y < h;
        let c = row_hits(&m, w, y);
        flags.push(5 * (c as u128) >= 4 * (w as u128));
        y += 1;
        proof {
            assert(flags@ =~= slice_flags(g, w as int, h as int).take(y as int));
        }
    }
    proof {
        assert(slice_flags(g, w as int, h as int).take(h as int) =~= slice_flags(g, w as int, h as int));
    }
    let ghost f = flags@;
    let mut thick: Vec<bool> = Vec::new();
    let mut y: usize = 0;
    while y < h
        invariant
            y <= h,
            flags@ == f,
            f.len() == h,
            thick@ == thicken(f).take(y as int),
        decreases h - y,
    {
        let t = (y > 0 && flags[y - 1]) || flags[y] || (y + 1 < h && flags[y + 1]);
        thick.push(t);
        y += 1;
        proof {
            assert(thick@ =~= thicken(f).take(y as int));
        }
    }
    proof {
        assert(thicken(f).take(h as int) =~= thicken(f));
    }
    let ghost t = thick@;
    let six: u128 = (h as u128) * 6 / 100;
    let min_h: usize = if six < 12 { 12 } else { six as usize };
    let mut bands: Vec<Rect> = Vec::new();
    let mut y: usize = 0;
    let ghost target = flag_bands(t, w as int, 0, min_h as int);
    loop
        invariant
            y <= h,
            thick@ == t,
            t.len() == h,
            min_h >= 12,
            bands@ + flag_bands(t, w as int, y as int, min_h as int) == target,
        ensures
            bands@ == target,
        decreases h - y,
    {
        if y >= h {
            assert(bands@ =~= bands@ + Seq::<Rect>::empty());
            break;
        }
        let ghost ystart = y;
        while y < h && thick[y]
            invariant
                ystart <= y <= h,
                thick@ == t,
                t.len() == h,
                skip_flag(t, y as int, true) == skip_flag(t, ystart as int, true),
            decreases h - y,
        {
            y += 1;
        }
        if y >= h {
            assert(flag_bands(t, w as int, ystart as int, min_h as int) =~= Seq::empty());
            assert(bands@ =~= bands@ + Seq::<Rect>::empty());
            break;
        }
        let y0 = y;
        while y < h && !thick[y]
            invariant
                y0 <= y <= h,
                thick@ == t,
                t.len() == h,
                skip_flag(t, y as int, false) == skip_flag(t, y0 as int, false),
            decreases h - y,
        {
            y += 1;
        }
        proof {
            lemma_skip_flag(t, ystart as int, true);
            lemma_skip_flag(t, y0 as int, false);
        }
        let ghost rest = flag_bands(t, w as int, y as int, min_h as int);
        if y - y0 >= min_h {
            let ghost before = bands@;
            bands.push((0, y0, w, y - y0));
            proof {
                assert(flag_bands(t, w as int, ystart as int, min_h as int) == seq![(0usize, y0, w, (y - y0) as usize)] + rest);
                assert(bands@ + rest =~= before + (seq![(0usize, y0, w, (y - y0) as usize)] + rest));
            }
        } else {
            assert(flag_bands(t, w as int, ystart as int, min_h as int) == rest);
        }
    }
    proof {
        lemma_flag_bands(t, w as int, 0, min_h as int);
        assert(min_slice(h as int) == min_h);
    }
    if bands.len() == 0 {
        vec![(0, 0, w, h)]
    } else {
        bands
    }
}

/// Width over height of a box lies between 0.35 and 3.5 (height at least 1).
pub open spec fn shape_ok(r: Rect) -> bool {
    let ph = max_int(r.3 as int, 1);
    20 * r.2 >= 7 * ph && 2 * r.2 <= 7 * ph
}

/// A box covers less than 3.5% of the page.
pub open spec fn is_tiny(r: Rect, page: int) -> bool {
    1000 * (r.2 * r.3) < 35 * page
}

/// Total area, boxes of a good shape, and tiny boxes.
pub open spec fn score_parts(rects: Seq<Rect>, page: int) -> (int, int, int)
    decreases rects.len(),
{
    if rects.len() == 0 {
        (0, 0, 0)
    } else {
        let p = score_parts(rects.drop_last(), page);
        let r = rects.last();
        (
            p.0 + r.2 * r.3,
            p.1 + if shape_ok(r) { 1int } else { 0int },
            p.2 + if is_tiny(r, page) { 1int } else { 0int },
        )
    }
}

/// The plausibility score of a layout, scaled by 40 times the page area: 3.5
/// for 2 to 12 boxes (1.2 for one, 0.4 otherwise), one per box of good shape,
/// 2.2 times the coverage (capped at 1.25), less 1.2 per tiny box.
pub open spec fn score_spec(rects: Seq<Rect>, w: int, h: int) -> int {
    if rects.len() == 0 {
        0
    } else {
        let page = w * h;
        let p = score_parts(rects, page);
        let n = rects.len();
        let count: int = if 2 <= n <= 12 { 140 } else if n == 1 { 48 } else { 16 };
        count * page + 40 * (p.1 * page) + min_int(88 * p.0, 110 * page) - 48 * (p.2 * page)
    }
}

proof fn lemma_score_parts(rects: Seq<Rect>, page: int, w: int, h: int)
    requires
        forall|k: int| 0 <= k < rects.len() ==> (#[trigger] rects[k]).0 + rects[k].2 <= w && rects[k].1
            + rects[k].3 <= h,
        page == w * h,
        0 <= w,
        0 <= h,
    ensures
        0 <= score_parts(rects, page).0 <= rects.len() * page,
        0 <= score_parts(rects, page).1 <= rects.len(),
        0 <= score_parts(rects, page).2 <= rects.len(),
    decreases rects.len(),
{
    if rects.len() > 0 {
        let t = rects.drop_last();
        assert forall|k: int| 0 <= k < t.len() implies (#[trigger] t[k]).0 + t[k].2 <= w && t[k].1 + t[k].3 <= h by {
            assert(t[k] == rects[k]);
        }
        lemma_score_parts(t, page, w, h);
        let r = rects.last();
        assert(r.2 * r.3 <= w * h) by (nonlinear_arith)
            requires r.0 + r.2 <= w, r.1 + r.3 <= h, r.0 >= 0, r.1 >= 0, r.2 >= 0, r.3 >= 0;
        assert(0 <= r.2 * r.3) by (nonlinear_arith)
            requires r.2 >= 0, r.3 >= 0;
        assert((rects.len() - 1) * page + page == rects.len() * page) by (nonlinear_arith);
    }
}

/// The plausibility score of a layout, scaled by 40 times the page area.
pub fn score(rects: &Vec<Rect>, w: usize, h: usize) -> (s: i128)
    requires
        forall|k: int| 0 <= k < rects@.len() ==> (#[trigger] rects@[k]).0 + rects@[k].2 <= w && rects@[k].1
            + rects@[k].3 <= h,
        w <= WORK_SIDE,
        h <= WORK_SIDE,
    ensures
        s == score_spec(rects@, w as int, h as int),
{
    if rects.len() == 0 {
        return 0;
    }
    assert(w * h <= WORK_SIDE * WORK_SIDE) by (nonlinear_arith)
        requires w <= WORK_SIDE, h <= WORK_SIDE;
    let page: i128 = (w * h) as i128;
    let len = rects.len();
    let mut area: i128 = 0;
    let mut shape: i128 = 0;
    let mut tiny: i128 = 0;
    let mut i: usize = 0;
    while i < rects.len()
        invariant
            i <= rects@.len(),
            len == rects@.len(),
            page == w * h,
            page <= WORK_SIDE * WORK_SIDE,
            forall|k: int| 0 <= k < rects@.len() ==> (#[trigger] rects@[k]).0 + rects@[k].2 <= w && rects@[k].1
                + rects@[k].3 <= h,
            (area as int, shape as int, tiny as int) == score_parts(rects@.take(i as int), page as int),
            0 <= area <= i * page,
            0 <= shape <= i,
            0 <= tiny <= i,
        decreases rects@.len() - i,
    {
        let r = rects[i];
        proof {
            assert(rects@.take(i + 1).drop_last() =~= rects@.take(i as int));
            assert(r.2 * r.3 <= w * h) by (nonlinear_arith)
                requires r.0 + r.2 <= w, r.1 + r.3 <= h;
            assert(i * page + page <= 0x1_0000_0000_0000_0000 * (WORK_SIDE * WORK_SIDE)) by (nonlinear_arith)
                requires i < len, len <= 0xffff_ffff_ffff_ffff, 0 <= page <= WORK_SIDE * WORK_SIDE;
            assert((i + 1) * page == i * page + page) by (nonlinear_arith);
        }
        let a: i128 = (r.2 * r.3) as i128;
        area = area + a;
        let ph: i128 = if r.3 >= 1 { r.3 as i128 } else { 1 };
        if 20 * (r.2 as i128) >= 7 * ph && 2 * (r.2 as i128) <= 7 * ph {
            shape = shape + 1;
        }
        if 1000 * a < 35 * page {
            tiny = tiny + 1;
        }
        i += 1;
    }
    proof {
        assert(rects@.take(i as int) =~= rects@);
    }
    let n = rects.len();
    assert(area <= 0x1_0000_0000_0000_0000 * (WORK_SIDE * WORK_SIDE)) by (nonlinear_arith)
        requires area <= i * page, i <= len, len <= 0xffff_ffff_ffff_ffff, 0 <= page <= WORK_SIDE * WORK_SIDE;
    let count: i128 = if 2 <= n && n <= 12 { 140 } else if n == 1 { 48 } else { 16 };
    let cov = if 88 * area <= 110 * page { 88 * area } else { 110 * page };
    assert(shape * page <= 0x1_0000_0000_0000_0000 * (WORK_SIDE * WORK_SIDE)) by (nonlinear_arith)
        requires 0 <= shape <= len, len <= 0xffff_ffff_ffff_ffff, 0 <= page <= WORK_SIDE * WORK_SIDE;
    assert(tiny * page <= 0x1_0000_0000_0000_0000 * (WORK_SIDE * WORK_SIDE)) by (nonlinear_arith)
        requires 0 <= tiny <= len, len <= 0xffff_ffff_ffff_ffff, 0 <= page <= WORK_SIDE * WORK_SIDE;
    assert(0 <= shape * page && 0 <= tiny * page) by (nonlinear_arith)
        requires 0 <= shape, 0 <= tiny, 0 <= page;
    count * page + 40 * (shape * page) + cov - 48 * (tiny * page)
}

/// The better scored of two layouts (the first on a tie), with its score.
pub fn pick_better_scored(a: Vec<Rect>, b: Vec<Rect>, w: usize, h: usize) -> (r: (Vec<Rect>, i128))
    requires
        forall|k: int| 0 <= k < a@.len() ==> (#[trigger] a@[k]).0 + a@[k].2 <= w && a@[k].1 + a@[k].3 <= h,
        forall|k: int| 0 <= k < b@.len() ==> (#[trigger] b@[k]).0 + b@[k].2 <= w && b@[k].1 + b@[k].3 <= h,
        w <= WORK_SIDE,
        h <= WORK_SIDE,
    ensures
        score_spec(a@, w as int, h as int) >= score_spec(b@, w as int, h as int) ==> r.0@ == a@ && r.1
            == score_spec(a@, w as int, h as int),
        score_spec(a@, w as int, h as int) < score_spec(b@, w as int, h as int) ==> r.0@ == b@ && r.1
            == score_spec(b@, w as int, h as int),
{
    let sa = score(&a, w, h);
    let sb = score(&b, w, h);
    if sa >= sb {
        (a, sa)
    } else {
        (b, sb)
    }
}

/// A plausible layout: one box covering at least 55% of the page, or 2 to 16
/// boxes.
pub open spec fn usable_spec(rects: Seq<Rect>, w: int, h: int) -> bool {
    let n = rects.len();
    if n == 0 || n > 16 {
        false
    } else if n == 1 {
        20 * (rects[0].2 * rects[0].3) >= 11 * (w * h)
    } else {
        true
    }
}

pub fn looks_usable(rects: &Vec<Rect>, w: usize, h: usize) -> (ok: bool)
    requires
        forall|k: int| 0 <= k < rects@.len() ==> (#[trigger] rects@[k]).0 + rects@[k].2 <= w && rects@[k].1
            + rects@[k].3 <= h,
        w <= WORK_SIDE,
        h <= WORK_SIDE,
    ensures
        ok == usable_spec(rects@, w as int, h as int),
{
    let n = rects.len();
    if n == 0 || n > 16 {
        return false;
    }
    if n == 1 {
        let r = rects[0];
        assert(r.2 * r.3 <= w * h) by (nonlinear_arith)
            requires r.0 + r.2 <= w, r.1 + r.3 <= h;
        assert(w * h <= WORK_SIDE * WORK_SIDE) by (nonlinear_arith)
            requires w <= WORK_SIDE, h <= WORK_SIDE;
        return 20 * ((r.2 * r.3) as u64) >= 11 * ((w * h) as u64);
    }
    true
}

/// The panel covers at least 2.8% of the page.
pub open spec fn big_enough5(p: PanelRect) -> bool {
    1000 * (p.w as int * p.h as int) >= 28 * (p.across as int * p.down as int)
}

/// Normalise, drop those under 2.8% of the page, and snap; listing order.
pub open spec fn norm_all5(rects: Seq<Rect>, sw: int, sh: int) -> Seq<PanelRect>
    decreases rects.len(),
{
    if rects.len() == 0 {
        Seq::empty()
    } else {
        let rest = norm_all5(rects.drop_last(), sw, sh);
        let p = norm_rect(rects.last(), sw, sh);
        if big_enough5(p) { rest.push(snap_panel(p)) } else { rest }
    }
}

/// Boxes as page fractions; the whole page when none is large enough.
pub open spec fn to_norm5_spec(rects: Seq<Rect>, sw: int, sh: int) -> Seq<PanelRect> {
    let ps = norm_all5(rects, sw, sh);
    if ps.len() == 0 { seq![full_page_spec()] } else { ps }
}

/// Normalise detected boxes to page fractions, drop tiny ones and snap the
/// edges, keeping their order.
pub fn to_norm_panels(rects: &Vec<Rect>, sw: usize, sh: usize) -> (panels: Vec<PanelRect>)
    requires
        forall|k: int| 0 <= k < rects@.len() ==> rect_on_page(#[trigger] rects@[k], sw as int, sh as int),
        1 <= sw <= WORK_SIDE,
        1 <= sh <= WORK_SIDE,
    ensures
        panels@ == to_norm5_spec(rects@, sw as int, sh as int),
{
    let mut kept: Vec<PanelRect> = Vec::new();
    let mut i: usize = 0;
    while i < rects.len()
        invariant
            i <= rects@.len(),
            forall|k: int| 0 <= k < rects@.len() ==> rect_on_page(#[trigger] rects@[k], sw as int, sh as int),
            1 <= sw <= WORK_SIDE,
            1 <= sh <= WORK_SIDE,
            kept@ == norm_all5(rects@.take(i as int), sw as int, sh as int),
        decreases rects@.len() - i,
    {
        let p = norm_rect_exec(rects[i], sw, sh);
        let lhs = mul_wide(1000 * (p.w as u128), p.h as u128);
        let rhs = mul_wide(28 * (p.across as u128), p.down as u128);
        proof {
            assert(lhs == 1000 * (p.w as int * p.h as int)) by (nonlinear_arith)
                requires lhs == (1000 * p.w as int) * p.h as int;
            assert(rhs == 28 * (p.across as int * p.down as int)) by (nonlinear_arith)
                requires rhs == (28 * p.across as int) * p.down as int;
        }
        if lhs >= rhs {
            kept.push(snap_panel_exec(p));
        }
        proof {
            assert(rects@.take(i + 1).drop_last() =~= rects@.take(i as int));
        }
        i += 1;
    }
    assert(rects@.take(i as int) =~= rects@);
    if kept.len() == 0 {
        full_page()
    } else {
        kept
    }
}

/// Every panel spans at least 82% of the page width.
pub open spec fn all_wide(ps: Seq<PanelRect>) -> bool {
    forall|k: int| 0 <= k < ps.len() ==> 100 * (#[trigger] ps[k]).w as int >= 82 * ps[k].across as int
}

fn all_wide_exec(ps: &Vec<PanelRect>) -> (r: bool)
    ensures
        r == all_wide(ps@),
{
    let mut k: usize = 0;
    while k < ps.len()
        invariant
            k <= ps@.len(),
            forall|q: int| 0 <= q < k ==> 100 * (#[trigger] ps@[q]).w as int >= 82 * ps@[q].across as int,
        decreases ps@.len() - k,
    {
        if 100 * (ps[k].w as u64) < 82 * (ps[k].across as u64) {
            assert(!all_wide(ps@));
            return false;
        }
        k += 1;
    }
    true
}

/// The better scored of two layouts (the first on a tie), with its score.
pub open spec fn better(a: Seq<Rect>, b: Seq<Rect>, w: int, h: int) -> (Seq<Rect>, int) {
    if score_spec(a, w, h) >= score_spec(b, w, h) { (a, score_spec(a, w, h)) } else { (b, score_spec(b, w, h)) }
}

/// The panels of a straight RGBA8 page by contours. Pages smaller than 8 by
/// 8 and short pixel buffers give the whole page. Otherwise the better of the
/// white-gutter and dark-gutter layouts is used when it scores at least 5 and
/// looks usable; else the better of the row slicings when it scores at least
/// 3.5, has 2 to 10 slices, and every slice spans 82% of the width; else the
/// whole page.
pub open spec fn detect5_spec(rgba: Seq<u8>, width: int, height: int) -> Seq<PanelRect> {
    if width < 8 || height < 8 || rgba.len() < width * height * 4 {
        seq![full_page_spec()]
    } else {
        let (sw, sh) = work_dims(width, height, WORK_SIDE as int);
        let lum = downsample_spec(rgba, width, height, WORK_SIDE as int);
        let page = sw * sh;
        let (best, sc) = better(contour_spec(lum, sw, sh, true), contour_spec(lum, sw, sh, false), sw, sh);
        if sc >= 200 * page && usable_spec(best, sw, sh) {
            to_norm5_spec(best, sw, sh)
        } else {
            let (rows, rs) = better(row_slices_spec(lum, sw, sh, true), row_slices_spec(lum, sw, sh, false), sw, sh);
            let ps = to_norm5_spec(rows, sw, sh);
            if rs >= 140 * page && 2 <= rows.len() <= 10 && all_wide(ps) {
                ps
            } else {
                seq![full_page_spec()]
            }
        }
    }
}

/// Detect panel rectangles of a straight RGBA8 page by contours, as fractions
/// of the page.
pub fn detect_panels(rgba: &[u8], width: u32, height: u32) -> (panels: Vec<PanelRect>)
    ensures
        panels@ == detect5_spec(rgba@, width as int, height as int),
        panels@.len() > 0,
        forall|k: int| 0 <= k < panels@.len() ==> proper_panel(#[trigger] panels@[k]),
{
    proof {
        assert(proper_panel(full_page_spec()));
    }
    assert(width as int * height as int <= u32::MAX as int * u32::MAX as int) by (nonlinear_arith)
        requires width <= u32::MAX, height <= u32::MAX;
    if width < 8 || height < 8 || (rgba.len() as u128) < ((width as u64) * (height as u64)) as u128 * 4 {
        return full_page();
    }
    let w = width as usize;
    let h = height as usize;
    let (sw, sh, lum) = downsample_luma(rgba, w, h, WORK_SIDE);
    proof {
        crate::detect::lemma_work_dims(w as int, h as int, WORK_SIDE as int);
        assert(sw * sh <= WORK_SIDE * WORK_SIDE) by (nonlinear_arith)
            requires sw <= WORK_SIDE, sh <= WORK_SIDE;
    }
    let white = detect_contour_panels(lum.as_slice(), sw, sh, true);
    let dark = detect_contour_panels(lum.as_slice(), sw, sh, false);
    let ghost wv = white@;
    let ghost dv = dark@;
    let (best, sc) = pick_better_scored(white, dark, sw, sh);
    assert(best@ == better(wv, dv, sw as int, sh as int).0);
    let page: i128 = (sw * sh) as i128;
    proof {
        lemma_to_norm5_proper(best@, sw as int, sh as int);
    }
    if sc >= 200 * page && looks_usable(&best, sw, sh) {
        return to_norm_panels(&best, sw, sh);
    }
    let rows_w = detect_row_slices(lum.as_slice(), sw, sh, true);
    let rows_d = detect_row_slices(lum.as_slice(), sw, sh, false);
    let ghost rwv = rows_w@;
    let ghost rdv = rows_d@;
    let (rows, rs) = pick_better_scored(rows_w, rows_d, sw, sh);
    assert(rows@ == better(rwv, rdv, sw as int, sh as int).0);
    proof {
        assert forall|k: int| 0 <= k < rows@.len() implies rect_on_page(#[trigger] rows@[k], sw as int, sh as int) by {
            if rows@ == rwv {
                assert(rect_on_page(rwv[k], sw as int, sh as int));
            } else {
                assert(rect_on_page(rdv[k], sw as int, sh as int));
            }
        }
        lemma_to_norm5_proper(rows@, sw as int, sh as int);
    }
    if rs >= 140 * page && rows.len() >= 2 && rows.len() <= 10 {
        let panels = to_norm_panels(&rows, sw, sh);
        if all_wide_exec(&panels) {
            return panels;
        }
    }
    full_page()
}

/// Reorder panels for reading, by the reading order of `panel`: rows top to
/// bottom, a row being panels whose centres are within 5% of the page height
/// or which overlap by half the shorter height; within a row left to right,
/// or right to left for `rtl` (manga). No panels gives the whole page.
pub fn order_panels(panels: &[PanelRect], rtl: bool) -> (r: Vec<PanelRect>)
    ensures
        panels@.len() == 0 ==> r@ == seq![full_page_spec()],
        panels@.len() > 0 ==> r@ == isort(panels@, reading_less(rtl)),
{
    crate::panel::order_panels(panels, rtl)
}

proof fn lemma_first_conn_props(mask: Seq<bool>, w: int, h: int, i: int, k: int)
    requires
        0 <= k <= i,
    ensures
        k <= first_conn(mask, w, h, i, k) <= i,
        first_conn(mask, w, h, i, k) < i ==> connected(
            mask,
            w,
            h,
            cell_at(first_conn(mask, w, h, i, k), w),
            cell_at(i, w),
        ),
        forall|k2: int|
            k <= k2 < first_conn(mask, w, h, i, k) ==> !#[trigger] connected(mask, w, h, cell_at(k2, w), cell_at(i, w)),
    decreases i - k,
{
    if k < i && !connected(mask, w, h, cell_at(k, w), cell_at(i, w)) {
        lemma_first_conn_props(mask, w, h, i, k + 1);
    }
}

proof fn lemma_firsts_before_mono(mask: Seq<bool>, w: int, h: int, a: int, b: int)
    requires
        0 <= a <= b,
    ensures
        firsts_before(mask, w, h, a) <= firsts_before(mask, w, h, b),
        a < b && is_first(mask, w, h, a) ==> firsts_before(mask, w, h, a) < firsts_before(mask, w, h, b),
    decreases b - a,
{
    if a < b {
        lemma_firsts_before_mono(mask, w, h, a, b - 1);
    }
}

/// The first cell of the region of mask cell `i` comes first in its region,
/// is connected to `i`, and no earlier cell is.
proof fn lemma_first_of_region(mask: Seq<bool>, w: int, h: int, i: int)
    requires
        0 < w,
        0 < h,
        mask.len() == w * h,
        0 <= i < w * h,
        mask[i],
    ensures
        is_first(mask, w, h, first_conn(mask, w, h, i, 0)),
        connected(mask, w, h, cell_at(first_conn(mask, w, h, i, 0), w), cell_at(i, w)),
        forall|k: int| 0 <= k < first_conn(mask, w, h, i, 0) ==> !#[trigger] connected(mask, w, h, cell_at(k, w), cell_at(i, w)),
        0 <= first_conn(mask, w, h, i, 0) <= i,
{
    let f = first_conn(mask, w, h, i, 0);
    lemma_first_conn_props(mask, w, h, i, 0);
    lemma_cell_of_index(i, w, h);
    let ci = cell_at(i, w);
    lemma_cell_index(ci.0, ci.1, w, h);
    lemma_open_unmarked(mask, w, h, ci);
    lemma_reaches_self(mask, unmarked(w * h), w, h, ci);
    assert(connected(mask, w, h, cell_at(f, w), ci));
    lemma_conn_cells(mask, w, h, cell_at(f, w), ci);
    lemma_cell_of_index(f, w, h);
    let cf = cell_at(f, w);
    assert(mask[f] == at(mask, w, cf.0, cf.1));
    assert forall|k: int| 0 <= k < f implies !#[trigger] connected(mask, w, h, cell_at(k, w), cell_at(f, w)) by {
        if connected(mask, w, h, cell_at(k, w), cell_at(f, w)) {
            lemma_conn_trans(mask, w, h, cell_at(k, w), cell_at(f, w), ci);
        }
    }
}

/// Two cells of the mask carry the same label exactly when they lie in one
/// connected region; cells off the mask carry 0 and cells on it a positive
/// label.
pub proof fn lemma_labels_are_regions(mask: Seq<bool>, w: int, h: int, i: int, j: int)
    requires
        0 < w,
        0 < h,
        mask.len() == w * h,
        w * h <= usize::MAX,
        0 <= i < w * h,
        0 <= j < w * h,
    ensures
        (label_spec(mask, w, h)[i] == 0) == !mask[i],
        mask[i] && mask[j] ==> ((label_spec(mask, w, h)[i] == label_spec(mask, w, h)[j]) == connected(
            mask,
            w,
            h,
            cell_at(i, w),
            cell_at(j, w),
        )),
{
    lemma_label_bound(mask, w, h);
    if mask[i] {
        lemma_first_of_region(mask, w, h, i);
        lemma_firsts_before_le(mask, w, h, first_conn(mask, w, h, i, 0));
    }
    if mask[i] && mask[j] {
        lemma_first_of_region(mask, w, h, j);
        let fi = first_conn(mask, w, h, i, 0);
        let fj = first_conn(mask, w, h, j, 0);
        let ci = cell_at(i, w);
        let cj = cell_at(j, w);
        lemma_firsts_before_le(mask, w, h, fi);
        lemma_firsts_before_le(mask, w, h, fj);
        if connected(mask, w, h, ci, cj) {
            lemma_conn_trans(mask, w, h, cell_at(fi, w), ci, cj);
            assert forall|k: int| 0 <= k < fi implies !#[trigger] connected(mask, w, h, cell_at(k, w), cj) by {
                if connected(mask, w, h, cell_at(k, w), cj) {
                    lemma_conn_sym(mask, w, h, ci, cj);
                    lemma_conn_trans(mask, w, h, cell_at(k, w), cj, ci);
                }
            }
            if j < fi {
                lemma_conn_sym(mask, w, h, ci, cj);
                assert(connected(mask, w, h, cell_at(j, w), ci));
            }
            lemma_first_conn_is(mask, w, h, j, fi, 0);
            assert(fj == fi);
        }
        if label_spec(mask, w, h)[i] == label_spec(mask, w, h)[j] {
            assert(firsts_before(mask, w, h, fi) == firsts_before(mask, w, h, fj));
            if fi < fj {
                lemma_firsts_before_mono(mask, w, h, fi, fj);
            } else if fj < fi {
                lemma_firsts_before_mono(mask, w, h, fj, fi);
            }
            assert(fi == fj);
            lemma_conn_sym(mask, w, h, cell_at(fi, w), ci);
            lemma_conn_trans(mask, w, h, ci, cell_at(fi, w), cj);
        }
    }
}

proof fn lemma_norm_all5(rects: Seq<Rect>, sw: int, sh: int)
    requires
        forall|k: int| 0 <= k < rects.len() ==> rect_on_page(#[trigger] rects[k], sw, sh),
        1 <= sw <= WORK_SIDE,
        1 <= sh <= WORK_SIDE,
    ensures
        forall|k: int| 0 <= k < norm_all5(rects, sw, sh).len() ==> proper_panel(#[trigger] norm_all5(rects, sw, sh)[k]),
    decreases rects.len(),
{
    if rects.len() > 0 {
        let t = rects.drop_last();
        assert forall|k: int| 0 <= k < t.len() implies rect_on_page(#[trigger] t[k], sw, sh) by {
            assert(t[k] == rects[k]);
        }
        lemma_norm_all5(t, sw, sh);
        lemma_snap_proper(rects.last(), sw, sh);
        let rest = norm_all5(t, sw, sh);
        let p = norm_rect(rects.last(), sw, sh);
        if big_enough5(p) {
            let all = rest.push(snap_panel(p));
            assert forall|k: int| 0 <= k < all.len() implies proper_panel(#[trigger] all[k]) by {
                if k < rest.len() {
                    assert(all[k] == rest[k]);
                }
            }
        }
    }
}

/// Normalised boxes on the page are panels on the page with a positive size,
/// and there is at least one.
pub proof fn lemma_to_norm5_proper(rects: Seq<Rect>, sw: int, sh: int)
    requires
        forall|k: int| 0 <= k < rects.len() ==> rect_on_page(#[trigger] rects[k], sw, sh),
        1 <= sw <= WORK_SIDE,
        1 <= sh <= WORK_SIDE,
    ensures
        to_norm5_spec(rects, sw, sh).len() > 0,
        forall|k: int| 0 <= k < to_norm5_spec(rects, sw, sh).len() ==> proper_panel(#[trigger] to_norm5_spec(rects, sw, sh)[k]),
{
    lemma_norm_all5(rects, sw, sh);
    assert(proper_panel(full_page_spec()));
}

} // verus!
