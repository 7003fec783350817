use manga_reel::panel::{full_page, PanelRect};
use manga_reel::segment::{detect_panels, DETECT_VERSION};

fn frac(v: u32, of: u32) -> f64 {
    v as f64 / of as f64
}

fn left(p: &PanelRect) -> f64 {
    frac(p.x, p.across)
}

fn width(p: &PanelRect) -> f64 {
    frac(p.w, p.across)
}

fn framed_grid(paper: [u8; 4], ink: [u8; 4]) -> Vec<u8> {
    let mut pixels = paper.repeat(400 * 400);
    for (x0, y0) in [(10, 10), (210, 10), (10, 210), (210, 210)] {
        for y in y0..y0 + 180 {
            for x in x0..x0 + 180 {
                if x < x0 + 3 || x >= x0 + 177 || y < y0 + 3 || y >= y0 + 177 {
                    pixels[(y * 400 + x) * 4..(y * 400 + x) * 4 + 4].copy_from_slice(&ink);
                }
            }
        }
    }
    pixels
}

#[test]
fn monochrome_frames_keep_borders_and_empty_interiors() {
    let p = detect_panels(&framed_grid([255; 4], [0, 0, 0, 255]), 400, 400);
    assert_eq!(p.len(), 4, "{p:?}");
    assert!(left(&p[0]) <= 0.025 && left(&p[0]) + width(&p[0]) >= 0.475, "{p:?}");
}

#[test]
fn cream_and_black_gutters() {
    for (paper, ink) in [
        ([240, 228, 200, 255], [0, 0, 0, 255]),
        ([0, 0, 0, 255], [255; 4]),
    ] {
        assert_eq!(detect_panels(&framed_grid(paper, ink), 400, 400).len(), 4);
    }
}

#[test]
fn paper_detector_falls_back_on_bad_input() {
    assert_eq!(DETECT_VERSION, 8);
    for (pixels, w, h) in [
        (vec![], u32::MAX, u32::MAX),
        (vec![255; 40000], 100, 100),
        (vec![], 0, 0),
    ] {
        assert_eq!(detect_panels(&pixels, w, h), full_page());
    }
}
