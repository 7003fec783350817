//! Panel rectangles as exact fractions of the page, and their reading order.
use vstd::prelude::*;
use crate::seqs::{isort, insert_from_end, adjacent_ordered, asymmetric};

verus! {

/// A panel as a fraction of the page: its left edge is `x / across` of the page
/// width, its width `w / across`; its top edge is `y / down` of the page height,
/// its height `h / down`.
#[derive(Clone, Copy, Debug, PartialEq, Eq, Structural)]
pub struct PanelRect {
    pub x: u32,
    pub y: u32,
    pub w: u32,
    pub h: u32,
    pub across: u32,
    pub down: u32,
}

impl PanelRect {
    /// The panel lies on the page.
    pub open spec fn wf(self) -> bool {
        &&& self.across > 0
        &&& self.down > 0
        &&& self.x + self.w <= self.across
        &&& self.y + self.h <= self.down
    }
}

/// The whole page as one panel.
pub open spec fn full_page_spec() -> PanelRect {
    PanelRect { x: 0, y: 0, w: 1, h: 1, across: 1, down: 1 }
}

/// The whole page as the only panel.
pub fn full_page() -> (r: Vec<PanelRect>)
    ensures
        r@ == seq![full_page_spec()],
{
    vec![PanelRect { x: 0, y: 0, w: 1, h: 1, across: 1, down: 1 }]
}

/// Length of the common vertical extent of two panels, in units of
/// `1 / (a.down * b.down)` of the page height (negative when apart).
pub open spec fn v_overlap(a: PanelRect, b: PanelRect) -> int {
    let a0 = a.y as int * b.down;
    let a1 = (a.y + a.h) * b.down;
    let b0 = b.y as int * a.down;
    let b1 = (b.y + b.h) * a.down;
    (if a1 <= b1 { a1 } else { b1 }) - (if a0 >= b0 { a0 } else { b0 })
}

/// Difference of the vertical centres of two panels, in units of
/// `1 / (2 * a.down * b.down)` of the page height.
pub open spec fn centre_gap(a: PanelRect, b: PanelRect) -> int {
    (2 * a.y + a.h) * b.down - (2 * b.y + b.h) * a.down
}

/// The vertical centres of two panels are less than 1/20 of the page height
/// apart.
pub open spec fn close_centres(a: PanelRect, b: PanelRect) -> bool {
    let g = centre_gap(a, b);
    10 * (if g >= 0 { g } else { -g }) < a.down as int * b.down as int
}

/// The panels overlap vertically by at least half the height of the shorter
/// one.
pub open spec fn half_overlap(a: PanelRect, b: PanelRect) -> bool {
    let ha = a.h as int * b.down;
    let hb = b.h as int * a.down;
    let shorter = if ha <= hb { ha } else { hb };
    v_overlap(a, b) > 0 && 2 * v_overlap(a, b) >= shorter
}

/// Two panels share a row when their vertical centres are less than 1/20 of
/// the page height apart, or when they overlap vertically by at least half
/// the height of the shorter one.
pub open spec fn same_row(a: PanelRect, b: PanelRect) -> bool {
    close_centres(a, b) || half_overlap(a, b)
}

/// `a`'s left edge is left of `b`'s.
pub open spec fn left_of(a: PanelRect, b: PanelRect) -> bool {
    a.x as int * b.across < b.x as int * a.across
}

/// `a`'s vertical centre is above `b`'s.
pub open spec fn center_above(a: PanelRect, b: PanelRect) -> bool {
    (2 * a.y + a.h) * b.down < (2 * b.y + b.h) * a.down
}

/// Reading order: within a row by horizontal position (right to left for
/// `rtl`), otherwise by vertical centre.
pub open spec fn reads_before(a: PanelRect, b: PanelRect, rtl: bool) -> bool {
    if same_row(a, b) {
        if rtl { left_of(b, a) } else { left_of(a, b) }
    } else {
        center_above(a, b)
    }
}

pub open spec fn reading_less(rtl: bool) -> spec_fn(PanelRect, PanelRect) -> bool {
    |a: PanelRect, b: PanelRect| reads_before(a, b, rtl)
}

/// The reading order never puts two panels before each other.
pub proof fn lemma_reading_order_asymmetric(rtl: bool)
    ensures
        asymmetric(reading_less(rtl)),
{
    assert forall|a: PanelRect, b: PanelRect| #[trigger] reading_less(rtl)(a, b) implies !reading_less(rtl)(b, a) by {
        assert(same_row(a, b) == same_row(b, a)) by {
            assert(v_overlap(a, b) == v_overlap(b, a));
            assert(centre_gap(a, b) == -centre_gap(b, a));
            assert(a.down as int * b.down as int == b.down as int * a.down as int) by (nonlinear_arith);
        }
    }
}

/// Product of two values below 2^64.
pub fn mul_wide(a: u128, b: u128) -> (r: u128)
    requires
        a <= u64::MAX,
        b <= u64::MAX,
    ensures
        r == a * b,
        r <= u64::MAX as int * u64::MAX as int,
{
    assert(a * b <= u64::MAX as int * u64::MAX as int) by (nonlinear_arith)
        requires a <= u64::MAX, b <= u64::MAX, 0 <= a, 0 <= b;
    a * b
}

fn close_centres_exec(a: &PanelRect, b: &PanelRect) -> (r: bool)
    ensures
        r == close_centres(*a, *b),
{
    let ca: u128 = 2 * (a.y as u128) + a.h as u128;
    let cb: u128 = 2 * (b.y as u128) + b.h as u128;
    let p = mul_wide(ca, b.down as u128);
    let q = mul_wide(cb, a.down as u128);
    let lim = mul_wide(a.down as u128, b.down as u128);
    assert(p <= 0x3_0000_0000u128 * 0x1_0000_0000u128) by (nonlinear_arith)
        requires p == ca * b.down, ca <= 0x3_0000_0000u128, b.down <= 0xffff_ffffu128;
    assert(q <= 0x3_0000_0000u128 * 0x1_0000_0000u128) by (nonlinear_arith)
        requires q == cb * a.down, cb <= 0x3_0000_0000u128, a.down <= 0xffff_ffffu128;
    let g: u128 = if p >= q { p - q } else { q - p };
    10 * g < lim
}

fn reads_before_exec(a: &PanelRect, b: &PanelRect, rtl: bool) -> (r: bool)
    ensures
        r == reads_before(*a, *b, rtl),
{
    let ad = a.down as u128;
    let bd = b.down as u128;
    let a0 = mul_wide(a.y as u128, bd);
    let a1 = mul_wide(a.y as u128 + a.h as u128, bd);
    let b0 = mul_wide(b.y as u128, ad);
    let b1 = mul_wide(b.y as u128 + b.h as u128, ad);
    let lo = if a0 >= b0 { a0 } else { b0 };
    let hi = if a1 <= b1 { a1 } else { b1 };
    let ha = mul_wide(a.h as u128, bd);
    let hb = mul_wide(b.h as u128, ad);
    let shorter = if ha <= hb { ha } else { hb };
    let row = (hi > lo && (hi - lo >= shorter || hi - lo >= shorter - (hi - lo))) || close_centres_exec(a, b);
    if row {
        let ax = mul_wide(a.x as u128, b.across as u128);
        let bx = mul_wide(b.x as u128, a.across as u128);
        if rtl { bx < ax } else { ax < bx }
    } else {
        mul_wide(2 * (a.y as u128) + a.h as u128, bd) < mul_wide(2 * (b.y as u128) + b.h as u128, ad)
    }
}

/// Stable insertion of `e` into an already ordered vector.
fn insert_panel(r: &mut Vec<PanelRect>, e: PanelRect, rtl: bool)
    ensures
        final(r)@ == insert_from_end(old(r)@, e, reading_less(rtl)),
{
    let mut p: usize = r.len();
    while p > 0 && reads_before_exec(&e, &r[p - 1], rtl)
        invariant
            p <= r@.len(),
            forall|k: int| p <= k < r@.len() ==> reading_less(rtl)(e, #[trigger] r@[k]),
        decreases p,
    {
        p -= 1;
    }
    proof {
        crate::seqs::lemma_insert_from_end_at(r@, e, reading_less(rtl), p as int);
    }
    r.insert(p, e);
}

/// Reorder panels for reading: rows top to bottom, and within a row left to right,
/// or right to left for `rtl` (manga). No panels gives the whole page.
pub fn order_panels(panels: &[PanelRect], rtl: bool) -> (r: Vec<PanelRect>)
    ensures
        panels@.len() == 0 ==> r@ == seq![full_page_spec()],
        panels@.len() > 0 ==> r@ == isort(panels@, reading_less(rtl)),
{
    if panels.len() == 0 {
        return full_page();
    }
    let mut r: Vec<PanelRect> = Vec::new();
    let mut i: usize = 0;
    while i < panels.len()
        invariant
            i <= panels@.len(),
            r@ == isort(panels@.take(i as int), reading_less(rtl)),
        decreases panels@.len() - i,
    {
        proof {
            crate::seqs::lemma_isort_take(panels@, i as int, reading_less(rtl));
        }
        insert_panel(&mut r, panels[i], rtl);
        i += 1;
    }
    assert(panels@.take(i as int) =~= panels@);
    r
}

/// Reading order keeps every panel and leaves no two neighbours out of order.
pub proof fn lemma_order_panels_permutes(panels: Seq<PanelRect>, rtl: bool)
    ensures
        isort(panels, reading_less(rtl)).to_multiset() == panels.to_multiset(),
        adjacent_ordered(isort(panels, reading_less(rtl)), reading_less(rtl)),
{
    crate::seqs::lemma_isort_multiset(panels, reading_less(rtl));
    lemma_reading_order_asymmetric(rtl);
    crate::seqs::lemma_isort_ordered(panels, reading_less(rtl));
}

/// Inset between a panel and the viewport edge, in pixels.
pub const PANEL_INSET: u32 = 8;

/// Width and height of a `pw` by `ph` panel scaled to fit `aw` by `ah`.
pub open spec fn contain_size(pw: int, ph: int, aw: int, ah: int) -> (int, int) {
    if pw * ah >= ph * aw {
        (aw, ph * aw / pw)
    } else {
        (pw * ah / ph, ah)
    }
}

/// A `w` by `h` size has the aspect ratio of a `pw` by `ph` panel up to
/// rounding: `w * ph` and `h * pw` differ by less than `pw + ph`.
pub open spec fn fit_keeps_ratio(pw: int, ph: int, w: int, h: int) -> bool {
    let d = w * ph - h * pw;
    -(pw + ph) < d && d < pw + ph
}

/// Scaling a panel to fit keeps its aspect ratio up to rounding, fills one
/// side of the area exactly, and stays inside the area.
pub proof fn lemma_contain_keeps_ratio(pw: int, ph: int, aw: int, ah: int)
    requires
        0 < pw,
        0 < ph,
        0 < aw,
        0 < ah,
    ensures
        fit_keeps_ratio(pw, ph, contain_size(pw, ph, aw, ah).0, contain_size(pw, ph, aw, ah).1),
        contain_size(pw, ph, aw, ah).0 == aw || contain_size(pw, ph, aw, ah).1 == ah,
        contain_size(pw, ph, aw, ah).0 <= aw,
        contain_size(pw, ph, aw, ah).1 <= ah,
{
    if pw * ah >= ph * aw {
        let h = ph * aw / pw;
        vstd::arithmetic::div_mod::lemma_fundamental_div_mod(ph * aw, pw);
        assert(0 <= (ph * aw) % pw < pw) by {
            vstd::arithmetic::div_mod::lemma_mod_bound(ph * aw, pw);
        }
        assert(aw * ph - h * pw == (ph * aw) % pw) by (nonlinear_arith)
            requires ph * aw == pw * h + (ph * aw) % pw;
        vstd::arithmetic::div_mod::lemma_multiply_divide_le(ph * aw, pw, ah);
    } else {
        let w = pw * ah / ph;
        vstd::arithmetic::div_mod::lemma_fundamental_div_mod(pw * ah, ph);
        assert(0 <= (pw * ah) % ph < ph) by {
            vstd::arithmetic::div_mod::lemma_mod_bound(pw * ah, ph);
        }
        assert(ah * pw - w * ph == (pw * ah) % ph) by (nonlinear_arith)
            requires pw * ah == ph * w + (pw * ah) % ph;
        assert(pw * ah <= ph * aw);
        vstd::arithmetic::div_mod::lemma_multiply_divide_le(pw * ah, ph, aw);
    }
}

/// Centre a `pw` by `ph` panel in a `vw` by `vh` viewport, scaled to fit inside
/// an inset of 8 pixels, keeping its aspect ratio. Returns `(x, y, w, h)`.
pub fn panel_layout(pw: u32, ph: u32, vw: u32, vh: u32) -> (r: (u32, u32, u32, u32))
    requires
        0 < pw,
        0 < ph,
        2 * PANEL_INSET < vw,
        2 * PANEL_INSET < vh,
    ensures
        ({
            let aw = vw - 2 * PANEL_INSET;
            let ah = vh - 2 * PANEL_INSET;
            let (w, h) = contain_size(pw as int, ph as int, aw, ah);
            &&& r.2 == w
            &&& r.3 == h
            &&& r.0 == PANEL_INSET + (aw - w) / 2
            &&& r.1 == PANEL_INSET + (ah - h) / 2
        }),
        PANEL_INSET <= r.0,
        PANEL_INSET <= r.1,
        r.0 + r.2 <= vw - PANEL_INSET,
        r.1 + r.3 <= vh - PANEL_INSET,
        r.2 == vw - 2 * PANEL_INSET || r.3 == vh - 2 * PANEL_INSET,
        fit_keeps_ratio(pw as int, ph as int, r.2 as int, r.3 as int),
{
    proof {
        lemma_contain_keeps_ratio(pw as int, ph as int, vw - 2 * PANEL_INSET, vh - 2 * PANEL_INSET);
    }
    let aw: u32 = vw - 2 * PANEL_INSET;
    let ah: u32 = vh - 2 * PANEL_INSET;
    let wide = mul_wide(pw as u128, ah as u128) >= mul_wide(ph as u128, aw as u128);
    let (w, h): (u32, u32) = if wide {
        let hh: u128 = mul_wide(ph as u128, aw as u128) / (pw as u128);
        proof {
            vstd::arithmetic::div_mod::lemma_multiply_divide_le(ph as int * aw, pw as int, ah as int);
            assert(ph as int * aw <= pw as int * ah);
        }
        (aw, hh as u32)
    } else {
        let ww: u128 = mul_wide(pw as u128, ah as u128) / (ph as u128);
        proof {
            vstd::arithmetic::div_mod::lemma_multiply_divide_le(pw as int * ah, ph as int, aw as int);
        }
        (ww as u32, ah)
    };
    (PANEL_INSET + (aw - w) / 2, PANEL_INSET + (ah - h) / 2, w, h)
}

} // verus!
