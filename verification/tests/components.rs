use raster_core::BinaryImage;

fn image(width: usize, height: usize, set: &[(usize, usize)]) -> BinaryImage {
    let mut out = BinaryImage::new_w_h(width, height);
    for &(x, y) in set {
        out.set_pixel(x, y, true);
    }
    out
}

fn set_pixels(image: &BinaryImage) -> Vec<(usize, usize)> {
    let mut out = Vec::new();
    for y in 0..image.height() {
        for x in 0..image.width() {
            if image.get_pixel(x, y) {
                out.push((x, y));
            }
        }
    }
    out
}

#[test]
fn of_two_single_pixels_the_first_in_scan_order_stays() {
    let a = image(4, 4, &[(0, 0), (3, 3)]);
    let r = a.remove_disjoint_components();
    assert_eq!((r.width(), r.height()), (4, 4));
    assert_eq!(set_pixels(&r), vec![(0, 0)]);
}

#[test]
fn the_first_of_two_equal_components_stays_whatever_their_shape() {
    // two components of three pixels; the scan meets the one on the right first
    let a = image(7, 4, &[(5, 0), (5, 1), (5, 2), (0, 1), (1, 1), (2, 1)]);
    let r = a.remove_disjoint_components();
    assert_eq!(set_pixels(&r), vec![(5, 0), (5, 1), (5, 2)]);
}

#[test]
fn the_largest_component_stays() {
    let a = image(6, 5, &[(0, 0), (1, 0), (4, 1), (4, 2), (4, 3), (5, 3), (0, 4)]);
    let r = a.remove_disjoint_components();
    assert_eq!(set_pixels(&r), vec![(4, 1), (4, 2), (4, 3), (5, 3)]);
}

#[test]
fn pixels_touching_at_a_corner_are_one_component() {
    let a = image(5, 5, &[(0, 0), (1, 1), (2, 2), (4, 0)]);
    let r = a.remove_disjoint_components();
    // the diagonal is kept and repaired from its interior pixels, twice
    let once = image(5, 5, &[(0, 0), (1, 1), (2, 2)]).fix_diagonal_cc();
    let twice = once.fix_diagonal_cc();
    assert_eq!(set_pixels(&r), set_pixels(&twice));
    for p in [(0, 0), (1, 1), (2, 2)] {
        assert!(r.get_pixel(p.0, p.1));
    }
    assert!(!r.get_pixel(4, 0));
}

#[test]
fn a_single_component_is_kept_and_repaired_once() {
    let a = image(5, 5, &[(1, 1), (2, 2), (3, 3)]);
    let r = a.remove_disjoint_components();
    assert_eq!(set_pixels(&r), set_pixels(&a.fix_diagonal_cc()));
    let solid = image(4, 4, &[(1, 1), (2, 1), (1, 2), (2, 2)]);
    assert_eq!(
        set_pixels(&solid.remove_disjoint_components()),
        vec![(1, 1), (2, 1), (1, 2), (2, 2)]
    );
}

#[test]
fn pruning_twice_repairs_once_more() {
    // a single component whose repair opens a new diagonal gap: the cell (2, 2),
    // filled between (1, 2) and (2, 3), touches (3, 1) at a corner
    let a = image(
        7,
        5,
        &[(1, 2), (2, 3), (3, 3), (4, 3), (5, 3), (5, 2), (5, 1), (4, 1), (3, 1)],
    );
    let once = a.remove_disjoint_components();
    assert_eq!(set_pixels(&once), set_pixels(&a.fix_diagonal_cc()));
    assert!(once.get_pixel(2, 2));
    assert!(!once.get_pixel(2, 1));
    let twice = once.remove_disjoint_components();
    assert_eq!(set_pixels(&twice), set_pixels(&once.fix_diagonal_cc()));
    assert!(twice.get_pixel(2, 1));
    assert_ne!(set_pixels(&twice), set_pixels(&once));
    // where nothing is left to repair, pruning again changes nothing
    let solid = image(4, 4, &[(1, 1), (2, 1), (1, 2), (2, 2), (0, 0)]);
    let once = solid.remove_disjoint_components();
    assert_eq!(set_pixels(&once.fix_diagonal_cc()), set_pixels(&once));
    assert_eq!(set_pixels(&once.remove_disjoint_components()), set_pixels(&once));
}

#[test]
fn a_blank_image_stays_blank() {
    let r = BinaryImage::new_w_h(3, 2).remove_disjoint_components();
    assert_eq!((r.width(), r.height()), (3, 2));
    assert_eq!(set_pixels(&r), vec![]);
    let e = BinaryImage::new_w_h(0, 0).remove_disjoint_components();
    assert_eq!((e.width(), e.height()), (0, 0));
}

#[test]
fn a_large_component_is_filled_without_recursion() {
    let mut a = BinaryImage::new_w_h(200, 200);
    for y in 0..200 {
        for x in 0..200 {
            if x != 100 {
                a.set_pixel(x, y, true);
            }
        }
    }
    let r = a.remove_disjoint_components();
    assert_eq!(r.area(), 100 * 200);
    assert!(r.get_pixel(0, 0));
    assert!(!r.get_pixel(150, 10));
}

#[test]
fn fill_bits_do_not_count_as_pixels() {
    // the negative of a blank image has its fill bits set
    let full = BinaryImage::new_w_h(3, 3).negative();
    let r = full.remove_disjoint_components();
    assert_eq!(r.area(), 9);
    assert_eq!(r.diff_and_count(&BinaryImage::new_w_h(3, 3)), 9);
}
