use raster_core::BinaryImage;

fn lit(image: &BinaryImage) -> Vec<(usize, usize)> {
    let mut out = Vec::new();
    for y in 0..image.height() {
        for x in 0..image.width() {
            if image.get_pixel(x, y) {
                out.push((x, y));
            }
        }
    }
    out
}

#[test]
fn dilate_paints_the_square_around_a_pixel() {
    let mut a = BinaryImage::new_w_h(7, 7);
    a.set_pixel(3, 3, true);
    let d = a.dilate();
    assert_eq!(d.width(), 7);
    assert_eq!(d.height(), 7);
    for y in 0..7usize {
        for x in 0..7usize {
            let near = x.abs_diff(3) <= 2 && y.abs_diff(3) <= 2;
            assert_eq!(d.get_pixel(x, y), near);
        }
    }
    assert_eq!(d.area(), 25);
}

#[test]
fn dilate_clips_at_the_border() {
    let mut a = BinaryImage::new_w_h(4, 3);
    a.set_pixel(0, 0, true);
    let d = a.dilate();
    assert_eq!(
        lit(&d),
        vec![(0, 0), (1, 0), (2, 0), (0, 1), (1, 1), (2, 1), (0, 2), (1, 2), (2, 2)]
    );
    assert_eq!(lit(&BinaryImage::new_w_h(4, 3).dilate()), vec![]);
}

#[test]
fn fix_diagonal_cc_fills_both_cells_of_a_diagonal_touch() {
    let mut a = BinaryImage::new_w_h(4, 4);
    a.set_pixel(1, 1, true);
    a.set_pixel(2, 2, true);
    let f = a.fix_diagonal_cc();
    // (2, 2) looks up and left and fills (2, 1); (1, 1) looks down and right and fills (1, 2)
    assert_eq!(lit(&f), vec![(1, 1), (2, 1), (1, 2), (2, 2)]);
}

#[test]
fn fix_diagonal_cc_looks_only_from_interior_pixels() {
    let mut a = BinaryImage::new_w_h(3, 3);
    a.set_pixel(0, 0, true);
    a.set_pixel(1, 1, true);
    let f = a.fix_diagonal_cc();
    // only (1, 1) has all neighbours on the canvas: it fills the cell above itself
    assert_eq!(lit(&f), vec![(0, 0), (1, 0), (1, 1)]);
}

#[test]
fn fix_diagonal_cc_never_removes_a_pixel() {
    let mut a = BinaryImage::new_w_h(6, 5);
    for &(x, y) in &[(1, 2), (2, 3), (3, 3), (4, 2), (3, 1), (5, 4), (0, 0)] {
        a.set_pixel(x, y, true);
    }
    let f = a.fix_diagonal_cc();
    for y in 0..5 {
        for x in 0..6 {
            if a.get_pixel(x, y) {
                assert!(f.get_pixel(x, y));
            }
        }
    }
    assert_eq!(
        lit(&f),
        vec![
            (0, 0),
            (3, 1),
            (4, 1),
            (1, 2),
            (2, 2),
            (3, 2),
            (4, 2),
            (1, 3),
            (2, 3),
            (3, 3),
            (4, 3),
            (5, 4)
        ]
    );
}

#[test]
fn fix_diagonal_cc_on_a_canvas_without_interior() {
    let mut a = BinaryImage::new_w_h(2, 2);
    a.set_pixel(0, 0, true);
    a.set_pixel(1, 1, true);
    assert_eq!(lit(&a.fix_diagonal_cc()), vec![(0, 0), (1, 1)]);
    let e = BinaryImage::new_w_h(0, 5).fix_diagonal_cc();
    assert_eq!((e.width(), e.height()), (0, 5));
}

#[test]
fn stroke_grows_the_canvas_and_paints_a_disk() {
    let mut a = BinaryImage::new_w_h(1, 1);
    a.set_pixel(0, 0, true);
    let s = a.stroke(4);
    assert_eq!((s.width(), s.height()), (5, 5));
    // radius 2, centre (2, 2): offsets -2..2 whose rounded down distance is below 2
    assert_eq!(
        lit(&s),
        vec![(1, 1), (2, 1), (3, 1), (1, 2), (2, 2), (3, 2), (1, 3), (2, 3), (3, 3)]
    );
}

#[test]
fn stroke_with_a_brush_too_small_to_paint() {
    let mut a = BinaryImage::new_w_h(2, 2);
    a.set_pixel(1, 1, true);
    let s0 = a.stroke(0);
    assert_eq!((s0.width(), s0.height()), (2, 2));
    assert_eq!(lit(&s0), vec![]);
    let s1 = a.stroke(1);
    assert_eq!((s1.width(), s1.height()), (3, 3));
    assert_eq!(lit(&s1), vec![]);
    // radius 1: only the centre itself
    let s2 = a.stroke(2);
    assert_eq!((s2.width(), s2.height()), (4, 4));
    assert_eq!(lit(&s2), vec![(2, 2)]);
}

#[test]
fn stroke_radius_three() {
    let mut a = BinaryImage::new_w_h(1, 1);
    a.set_pixel(0, 0, true);
    let s = a.stroke(6);
    assert_eq!((s.width(), s.height()), (7, 7));
    for y in 0..7i64 {
        for x in 0..7i64 {
            let (dx, dy) = (x - 3, y - 3);
            let inside = dx >= -3 && dx < 3 && dy >= -3 && dy < 3 && dx * dx + dy * dy < 9;
            assert_eq!(s.get_pixel(x as usize, y as usize), inside);
        }
    }
}
