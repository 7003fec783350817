//! Panel detection by paper colour (detector version 8). The gutter is the
//! paper-coloured area reached from the page corners: pixels close to the
//! sampled paper luma, connected to the margin. Printed frame borders (black
//! on white or cream paper, white on black paper) are not paper, and the empty
//! paper inside a closed frame is not reached from the margin, so each frame
//! stays whole, border included. The page is then split on empty bands of
//! that gutter, with the row-slice and whole-page fallbacks of `detect`.
use vstd::prelude::*;
use crate::panel::{PanelRect, full_page, full_page_spec};
use crate::contour::{margin_spec, page_margin};
use crate::detect::{
    abs_diff_spec, downsample_luma, downsample_spec, in_reading_order, layout_from_gutter, layout_spec,
    lemma_work_dims,
    paper_luma_spec, proper_panel, sample_paper_luma, work_dims, PAPER_TOL, WORK_SIDE,
};

verus! {

/// Cache version of this detector's results.
pub const DETECT_VERSION: u32 = 8;

/// A luma value is paper: within `PAPER_TOL` of the sampled paper luma.
pub open spec fn is_paper_spec(v: u8, paper: u8) -> bool {
    abs_diff_spec(v as int, paper as int) <= PAPER_TOL
}

/// Whether a luma value is paper.
pub fn is_paper_luma(v: u8, paper: u8) -> (r: bool)
    ensures
        r == is_paper_spec(v, paper),
{
    let d = if v >= paper { v - paper } else { paper - v };
    d <= PAPER_TOL
}

/// The paper mask of a luma image: true where a pixel is paper.
pub open spec fn paper_mask_spec(lum: Seq<u8>, paper: u8) -> Seq<bool> {
    Seq::new(lum.len(), |i: int| is_paper_spec(lum[i], paper))
}

/// The paper mask of a luma image.
pub fn paper_mask(lum: &[u8], paper: u8) -> (mask: Vec<bool>)
    ensures
        mask@ == paper_mask_spec(lum@, paper),
{
    let mut mask: Vec<bool> = Vec::with_capacity(lum.len());
    let mut i: usize = 0;
    while i < lum.len()
        invariant
            i <= lum@.len(),
            mask@ == paper_mask_spec(lum@.take(i as int), paper),
        decreases lum@.len() - i,
    {
        mask.push(is_paper_luma(lum[i], paper));
        i += 1;
        assert(mask@ =~= paper_mask_spec(lum@.take(i as int), paper));
    }
    assert(lum@.take(i as int) =~= lum@);
    mask
}

/// The panels detected on a straight RGBA8 page by paper colour.
pub open spec fn segment_spec(rgba: Seq<u8>, width: int, height: int) -> Seq<PanelRect> {
    if width < 8 || height < 8 || rgba.len() < width * height * 4 {
        seq![full_page_spec()]
    } else {
        let (sw, sh) = work_dims(width, height, WORK_SIDE as int);
        let lum = downsample_spec(rgba, width, height, WORK_SIDE as int);
        let paper = paper_luma_spec(lum, sw, sh);
        layout_spec(margin_spec(paper_mask_spec(lum, paper), sw, sh), sw, sh)
    }
}

/// Detect panel rectangles of a straight RGBA8 page, as fractions of the
/// page, with the paper reached from the page corners as the only gutter. Pages smaller than 8
/// by 8, short pixel buffers and pages with no usable layout give the whole
/// page as a single panel.
pub fn detect_panels(rgba: &[u8], width: u32, height: u32) -> (panels: Vec<PanelRect>)
    ensures
        panels@ == segment_spec(rgba@, width as int, height as int),
        panels@.len() > 0,
        forall|k: int| 0 <= k < panels@.len() ==> proper_panel(#[trigger] panels@[k]),
        in_reading_order(panels@),
{
    proof {
        assert(proper_panel(full_page_spec()));
    }
    assert(width as int * height as int <= u32::MAX as int * u32::MAX as int) by (nonlinear_arith)
        requires width <= u32::MAX, height <= u32::MAX;
    if width < 8 || height < 8 || (rgba.len() as u128) < ((width as u64) * (height as u64)) as u128 * 4 {
        return full_page();
    }
    let w = width as usize;
    let h = height as usize;
    let (sw, sh, lum) = downsample_luma(rgba, w, h, WORK_SIDE);
    proof {
        lemma_work_dims(w as int, h as int, WORK_SIDE as int);
        assert(sw * sh <= WORK_SIDE * WORK_SIDE) by (nonlinear_arith)
            requires sw <= WORK_SIDE, sh <= WORK_SIDE;
        assert(lum@.len() == sw * sh);
    }
    let paper = sample_paper_luma(lum.as_slice(), sw, sh);
    let mask = paper_mask(lum.as_slice(), paper);
    let gutter = page_margin(&mask, sw, sh);
    layout_from_gutter(gutter.as_slice(), sw, sh)
}

} // verus!
