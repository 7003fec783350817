use manga_reel::contour::{
    detect_contour_panels, detect_panels, detect_row_slices, dilate, erode, flood_fill_bool,
    label_components, looks_usable, morph_close, order_panels, overlap_area, pick_better_scored,
    score, suppress_nested, to_norm_panels, DETECT_VERSION,
};
use manga_reel::panel::{full_page, PanelRect};

fn white_page(w: usize, h: usize) -> Vec<u8> {
    vec![255u8; w * h * 4]
}

fn paint(rgba: &mut [u8], w: usize, x0: usize, y0: usize, x1: usize, y1: usize) {
    for y in y0..y1 {
        for x in x0..x1 {
            let i = (y * w + x) * 4;
            let v = 110 + ((x + y) % 20) as u8;
            rgba[i] = v;
            rgba[i + 1] = v;
            rgba[i + 2] = v;
        }
    }
}

fn mask(rows: &[&str]) -> (Vec<bool>, usize, usize) {
    let h = rows.len();
    let w = rows[0].len();
    let mut m = Vec::new();
    for r in rows {
        for c in r.chars() {
            m.push(c == '#');
        }
    }
    (m, w, h)
}

#[test]
fn detect_tiny_falls_back() {
    assert_eq!(detect_panels(&[0; 4], 1, 1).len(), 1);
}

#[test]
fn contour_version_is_five() {
    assert_eq!(DETECT_VERSION, 5);
}

#[test]
fn contour_blank_page_is_whole() {
    let p = detect_panels(&white_page(200, 300), 200, 300);
    assert_eq!(p.len(), 1);
    assert_eq!((p[0].x, p[0].y, p[0].w, p[0].h), (0, 0, p[0].across, p[0].down));
    assert_eq!(p, full_page());
}

#[test]
fn contour_two_by_two_grid() {
    let (w, h) = (400usize, 400usize);
    let mut rgba = white_page(w, h);
    paint(&mut rgba, w, 10, 10, 185, 185);
    paint(&mut rgba, w, 215, 10, 390, 185);
    paint(&mut rgba, w, 10, 215, 185, 390);
    paint(&mut rgba, w, 215, 215, 390, 390);
    let p = detect_panels(&rgba, w as u32, h as u32);
    assert_eq!(p.len(), 4, "{p:?}");
    // Reading order: the top row first, left to right.
    assert!(p[0].y == 0 && p[1].y == 0 && p[0].x < p[1].x, "{p:?}");
    assert!(p[2].y > 0 && p[3].y > 0 && p[2].x < p[3].x, "{p:?}");
}

#[test]
fn contour_boxes_of_a_grid() {
    let (w, h) = (400usize, 400usize);
    let mut lum = vec![255u8; w * h];
    for (x0, y0) in [(10, 10), (215, 10), (10, 215), (215, 215)] {
        for y in y0..y0 + 175 {
            for x in x0..x0 + 175 {
                lum[y * w + x] = 120;
            }
        }
    }
    let r = detect_contour_panels(&lum, w, h, true);
    assert_eq!(r, vec![(0, 0, 187, 187), (213, 0, 187, 187), (0, 213, 187, 187), (213, 213, 187, 187)]);
    // Dark gutters find no plausible region: the whole image.
    assert_eq!(detect_contour_panels(&lum, w, h, false), vec![(0, 0, 400, 400)]);
}

#[test]
fn dilate_and_erode_by_one() {
    let (m, w, h) = mask(&[".....", ".....", "..#..", ".....", "....."]);
    let mut d = m.clone();
    dilate(&mut d, w, h, 1);
    let (want, _, _) = mask(&[".....", ".###.", ".###.", ".###.", "....."]);
    assert_eq!(d, want);
    let mut e = d.clone();
    erode(&mut e, w, h, 1);
    assert_eq!(e, m);
}

#[test]
fn closing_fills_a_small_hole() {
    let (m, w, h) = mask(&["#######", "#######", "###.###", "#######", "#######"]);
    let mut c = m.clone();
    morph_close(&mut c, w, h, 1, 1);
    assert!(c[2 * w + 3]);
}

#[test]
fn flood_fill_stays_in_its_region() {
    let (allowed, w, h) = mask(&["##.##", "##.##", ".....", "##.##"]);
    let mut out = vec![false; w * h];
    flood_fill_bool(&allowed, &mut out, w, h, 0, 0);
    let (want, _, _) = mask(&["##...", "##...", ".....", "....."]);
    assert_eq!(out, want);
    // Starting on a cell that is not allowed marks nothing more.
    let before = out.clone();
    flood_fill_bool(&allowed, &mut out, w, h, 2, 2);
    assert_eq!(out, before);
}

#[test]
fn labels_follow_first_cells() {
    let (m, w, h) = mask(&["#..#", "#..#", "..##", "#..."]);
    let l = label_components(&m, w, h);
    assert_eq!(l, vec![1, 0, 0, 2, 1, 0, 0, 2, 0, 0, 2, 2, 3, 0, 0, 0]);
}

#[test]
fn overlap_of_two_boxes() {
    assert_eq!(overlap_area((0, 0, 10, 10), (5, 5, 10, 10)), 25);
    assert_eq!(overlap_area((0, 0, 10, 10), (10, 0, 5, 5)), 0);
}

#[test]
fn nested_box_is_dropped() {
    let r = suppress_nested(vec![(0, 0, 100, 100), (10, 10, 20, 20), (200, 0, 50, 50)], 300, 300);
    assert_eq!(r, vec![(0, 0, 100, 100), (200, 0, 50, 50)]);
}

#[test]
fn row_slices_of_bands() {
    let (w, h) = (50usize, 100usize);
    let mut lum = vec![255u8; w * h];
    for y in (10..40).chain(60..90) {
        for x in 0..w {
            lum[y * w + x] = 100;
        }
    }
    // Thickening trims one row at each edge of a band.
    assert_eq!(detect_row_slices(&lum, w, h, true), vec![(0, 11, 50, 28), (0, 61, 50, 28)]);
    // No dark gutter rows: the whole image.
    assert_eq!(detect_row_slices(&lum, w, h, false), vec![(0, 0, 50, 100)]);
}

#[test]
fn score_prefers_grids() {
    let grid = vec![(0, 0, 50, 50), (50, 0, 50, 50), (0, 50, 50, 50), (50, 50, 50, 50)];
    let one = vec![(0, 0, 100, 100)];
    // 4 boxes: 3.5 + 4 shapes + 2.2 coverage = 9.7, scaled by 40 * 10000.
    assert_eq!(score(&grid, 100, 100), 3880000);
    // One box: 1.2 + 1 + 2.2 = 4.4.
    assert_eq!(score(&one, 100, 100), 1760000);
    let (best, s) = pick_better_scored(one.clone(), grid.clone(), 100, 100);
    assert_eq!(best, grid);
    assert_eq!(s, 3880000);
    assert_eq!(score(&vec![], 100, 100), 0);
}

#[test]
fn usable_layouts() {
    assert!(!looks_usable(&vec![], 100, 100));
    assert!(looks_usable(&vec![(0, 0, 80, 80)], 100, 100));
    assert!(!looks_usable(&vec![(0, 0, 50, 50)], 100, 100));
    assert!(looks_usable(&vec![(0, 0, 10, 10), (20, 20, 10, 10)], 100, 100));
}

#[test]
fn normalised_boxes_keep_order_and_snap() {
    let p = to_norm_panels(&vec![(50, 0, 50, 40), (1, 50, 40, 50)], 100, 100);
    assert_eq!(p.len(), 2);
    assert_eq!((p[0].x, p[0].w, p[0].across), (5000, 5000, 10000));
    // Within 2% of the left edge: snapped to it.
    assert_eq!((p[1].x, p[1].w), (0, 4100));
    // Too small a box: the whole page.
    let tiny = to_norm_panels(&vec![(0, 0, 10, 10)], 100, 100);
    assert_eq!(tiny.len(), 1);
    assert_eq!((tiny[0].w, tiny[0].across), (1, 1));
}

#[test]
fn contour_order_rtl() {
    let r = |x, y, w, h| PanelRect { x, y, w, h, across: 100, down: 100 };
    let p = vec![r(0, 0, 40, 40), r(50, 2, 40, 40), r(0, 60, 100, 30)];
    assert_eq!(order_panels(&p, true), vec![p[1], p[0], p[2]]);
    assert_eq!(order_panels(&p, false), p);
    assert_eq!(order_panels(&[], false).len(), 1);
}

#[test]
fn closing_keeps_every_set_cell() {
    let (m, w, h) = mask(&["#....", ".....", "..#..", "....#"]);
    for r in 0..3 {
        let mut c = m.clone();
        morph_close(&mut c, w, h, r, 2);
        for i in 0..w * h {
            assert!(!m[i] || c[i]);
        }
    }
}
