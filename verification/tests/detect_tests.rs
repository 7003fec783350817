use manga_reel::detect::{detect_panels, DETECT_VERSION};
use manga_reel::panel::{full_page, order_panels, panel_layout, PanelRect};

fn frac(p: &PanelRect) -> (f64, f64, f64, f64) {
    (
        p.x as f64 / p.across as f64,
        p.y as f64 / p.down as f64,
        p.w as f64 / p.across as f64,
        p.h as f64 / p.down as f64,
    )
}

fn rect(x: u32, y: u32, w: u32, h: u32) -> PanelRect {
    PanelRect { x, y, w, h, across: 100, down: 100 }
}

fn white_page(w: usize, h: usize) -> Vec<u8> {
    vec![255u8; w * h * 4]
}

fn paint(rgba: &mut [u8], w: usize, x0: usize, y0: usize, x1: usize, y1: usize, base: u8, spread: usize) {
    for y in y0..y1 {
        for x in x0..x1 {
            let i = (y * w + x) * 4;
            let v = base + ((x + y) % spread) as u8;
            rgba[i] = v;
            rgba[i + 1] = v;
            rgba[i + 2] = v;
        }
    }
}

#[test]
fn detect_part3_inc_tiny_falls_back() {
    assert_eq!(detect_panels(&[0; 4], 1, 1).len(), 1);
}

#[test]
fn version_is_seven() {
    assert_eq!(DETECT_VERSION, 7);
}

#[test]
fn blank_white_page_is_full() {
    let w = 200u32;
    let h = 300u32;
    let rgba = white_page(w as usize, h as usize);
    let panels = detect_panels(&rgba, w, h);
    assert_eq!(panels.len(), 1);
    let (_, _, pw, ph) = frac(&panels[0]);
    assert!(pw > 0.9 && ph > 0.9);
}

#[test]
fn two_by_two_gutter_grid() {
    let w = 400usize;
    let h = 400usize;
    let mut rgba = white_page(w, h);
    paint(&mut rgba, w, 10, 10, 185, 185, 110, 20);
    paint(&mut rgba, w, 215, 10, 390, 185, 110, 20);
    paint(&mut rgba, w, 10, 215, 185, 390, 110, 20);
    paint(&mut rgba, w, 215, 215, 390, 390, 110, 20);
    let panels = detect_panels(&rgba, w as u32, h as u32);
    assert!(
        panels.len() >= 3 && panels.len() <= 6,
        "expected ~4 panels, got {} {:?}",
        panels.len(),
        panels
    );
}

#[test]
fn cream_paper_two_by_two_grid() {
    let w = 400usize;
    let h = 400usize;
    let cream = [240u8, 228, 200, 255];
    let mut rgba = cream.repeat(w * h);
    for (x0, y0, x1, y1) in [(12, 12, 188, 188), (212, 12, 388, 188), (12, 212, 188, 388), (212, 212, 388, 388)] {
        for y in y0..y1 {
            for x in x0..x1 {
                let i = (y * w + x) * 4;
                let v = 90 + ((x + y) % 25) as u8;
                rgba[i] = v;
                rgba[i + 1] = v.saturating_sub(5);
                rgba[i + 2] = v.saturating_sub(10);
                rgba[i + 3] = 255;
            }
        }
    }
    let panels = detect_panels(&rgba, w as u32, h as u32);
    assert!(
        panels.len() >= 3 && panels.len() <= 6,
        "cream paper expected ~4 panels, got {} {:?}",
        panels.len(),
        panels
    );
}

#[test]
fn order_rtl_flips_within_row() {
    let panels = vec![rect(0, 0, 40, 40), rect(50, 0, 40, 40)];
    let rtl = order_panels(&panels, true);
    assert!(frac(&rtl[0]).0 > frac(&rtl[1]).0);
}

#[test]
fn invalid_and_blank_inputs_are_safe() {
    for (pixels, w, h) in [(vec![], u32::MAX, u32::MAX), (vec![255; 40000], 100, 100), (vec![], 0, 0)] {
        assert_eq!(detect_panels(&pixels, w, h), full_page());
    }
}

#[test]
fn wide_panel_fits_with_black_margin() {
    let (x, y, w, h) = panel_layout(1200, 300, 800, 600);
    let (x, y, w, h) = (x as f64, y as f64, w as f64, h as f64);
    assert!(x >= 8.0 && y >= 8.0 && x + w <= 792.0 && y + h <= 592.0);
    assert!((w / h - 4.0).abs() < 1e-9);
}

#[test]
fn rtl_reorders_rows_without_mixing_heights() {
    let p = vec![rect(0, 0, 45, 40), rect(50, 1, 45, 25), rect(0, 50, 100, 40)];
    let rtl = order_panels(&p, true);
    assert_eq!(rtl, vec![p[1], p[0], p[2]]);
    assert_eq!(order_panels(&rtl, false), p);
}

#[test]
fn rows_by_close_centres() {
    // Two flat panels on one centre line read by their left edges.
    let flat = vec![rect(60, 50, 20, 0), rect(10, 50, 20, 0)];
    assert_eq!(order_panels(&flat, false), vec![flat[1], flat[0]]);
    assert_eq!(order_panels(&flat, true), flat);
    // Centres 3% apart without overlap: still one row.
    let near = vec![rect(50, 13, 20, 2), rect(0, 10, 20, 2)];
    assert_eq!(order_panels(&near, false), vec![near[1], near[0]]);
    // Centres 10% apart without overlap: two rows, top first.
    let apart = vec![rect(0, 20, 20, 2), rect(50, 10, 20, 2)];
    assert_eq!(order_panels(&apart, false), vec![apart[1], apart[0]]);
}
