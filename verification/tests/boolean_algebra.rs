use raster_core::BinaryImage;

#[test]
fn image_diff() {
    let mut a = BinaryImage::new_w_h(2, 2);
    a.set_pixel(0, 0, true);
    let mut b = BinaryImage::new_w_h(2, 2);
    b.set_pixel(1, 1, true);
    assert_eq!(a.diff_and_count(&b), 2);

    let mut a = BinaryImage::new_w_h(3, 3);
    a.set_pixel(1, 1, true);
    let mut b = BinaryImage::new_w_h(3, 3);
    b.set_pixel(1, 1, true);
    assert_eq!(a.diff_and_count(&b), 0);

    let mut a = BinaryImage::new_w_h(3, 3);
    a.set_pixel(0, 0, true);
    a.set_pixel(1, 1, true);
    let mut b = BinaryImage::new_w_h(3, 3);
    b.set_pixel(1, 1, true);
    b.set_pixel(2, 2, true);
    assert_eq!(a.diff_and_count(&b), 2);
}

#[test]
fn popcount_counts_set_bits() {
    assert_eq!(BinaryImage::popcount(0), 0);
    assert_eq!(BinaryImage::popcount(1), 1);
    assert_eq!(BinaryImage::popcount(0x8000_0000), 1);
    assert_eq!(BinaryImage::popcount(0xF0F0_0001), 9);
    assert_eq!(BinaryImage::popcount(u32::MAX), 32);
}

#[test]
fn diff_is_symmetric_and_blank_on_itself() {
    let mut a = BinaryImage::new_w_h(5, 3);
    a.set_pixel(0, 0, true);
    a.set_pixel(4, 2, true);
    let mut b = BinaryImage::new_w_h(5, 3);
    b.set_pixel(4, 2, true);
    b.set_pixel(2, 1, true);
    let ab = a.diff(&b);
    let ba = b.diff(&a);
    for y in 0..3 {
        for x in 0..5 {
            assert_eq!(ab.get_pixel(x, y), ba.get_pixel(x, y));
            assert_eq!(ab.get_pixel(x, y), a.get_pixel(x, y) != b.get_pixel(x, y));
            assert!(!a.diff(&a).get_pixel(x, y));
        }
    }
    assert_eq!(a.diff_and_count(&a), 0);
    assert_eq!(a.diff_and_count(&b), 2);
    assert_eq!(ab.area(), 2);
}

#[test]
fn union_and_intersect() {
    let mut a = BinaryImage::new_w_h(3, 2);
    a.set_pixel(0, 0, true);
    a.set_pixel(1, 0, true);
    let mut b = BinaryImage::new_w_h(3, 2);
    b.set_pixel(1, 0, true);
    b.set_pixel(2, 1, true);
    let u = a.union(&b);
    let i = a.intersect(&b);
    for y in 0..2 {
        for x in 0..3 {
            assert_eq!(u.get_pixel(x, y), a.get_pixel(x, y) || b.get_pixel(x, y));
            assert_eq!(i.get_pixel(x, y), a.get_pixel(x, y) && b.get_pixel(x, y));
            assert_eq!(a.union(&a).get_pixel(x, y), a.get_pixel(x, y));
            assert_eq!(a.intersect(&a).get_pixel(x, y), a.get_pixel(x, y));
        }
    }
    assert_eq!(u.area(), 3);
    assert_eq!(i.area(), 1);
}

#[test]
fn operation_applies_the_combinator_to_each_byte() {
    let mut a = BinaryImage::new_w_h(4, 4);
    a.set_pixel(0, 0, true);
    let mut b = BinaryImage::new_w_h(4, 4);
    b.set_pixel(3, 3, true);
    // keep `a` where `b` is unset
    let r = a.operation(&b, |x, y| x & !y);
    assert!(r.get_pixel(0, 0));
    assert!(!r.get_pixel(3, 3));
    assert_eq!(r.area(), 1);
    // swap to the second operand
    let r = a.operation(&b, |_, y| y);
    assert!(!r.get_pixel(0, 0));
    assert!(r.get_pixel(3, 3));
}

#[test]
fn negative_flips_every_pixel_twice_back() {
    let mut a = BinaryImage::new_w_h(3, 3);
    a.set_pixel(0, 0, true);
    a.set_pixel(2, 0, true);
    a.set_pixel(1, 1, true);
    let n = a.negative();
    let nn = n.negative();
    for y in 0..3 {
        for x in 0..3 {
            assert_eq!(n.get_pixel(x, y), !a.get_pixel(x, y));
            assert_eq!(nn.get_pixel(x, y), a.get_pixel(x, y));
        }
    }
    assert_eq!(n.area(), 6);
}

#[test]
fn diff_and_count_sees_the_fill_bits_of_a_negative() {
    // nine pixels are stored in two bytes: a negative sets the seven fill bits too
    let a = BinaryImage::new_w_h(3, 3);
    let n = a.negative();
    assert_eq!(a.diff_and_count(&n), 16);
    assert_eq!(n.diff_and_count(&n), 0);
}

#[test]
fn diff_and_count_on_a_canvas_of_more_than_one_word() {
    let mut a = BinaryImage::new_w_h(10, 7);
    let b = BinaryImage::new_w_h(10, 7);
    let mut expected = 0;
    for y in 0..7 {
        for x in 0..10 {
            if (x + 2 * y) % 3 == 0 {
                a.set_pixel(x, y, true);
                expected += 1;
            }
        }
    }
    assert_eq!(a.diff_and_count(&b), expected);
    assert_eq!(a.area(), expected as u64);
}

#[test]
fn empty_canvas() {
    let a = BinaryImage::new_w_h(0, 0);
    let b = BinaryImage::new_w_h(0, 0);
    assert_eq!(a.diff_and_count(&b), 0);
    assert_eq!(a.area(), 0);
    assert_eq!(a.width(), 0);
    assert_eq!(a.negative().height(), 0);
}

#[test]
fn a_clone_holds_the_same_pixels_and_is_independent() {
    let mut a = BinaryImage::new_w_h(3, 2);
    a.set_pixel(1, 1, true);
    let b = a.clone();
    a.set_pixel(0, 0, true);
    a.set_pixel(1, 1, false);
    assert!(b.get_pixel(1, 1));
    assert!(!b.get_pixel(0, 0));
    assert_eq!((b.width(), b.height()), (3, 2));
    assert_eq!(a.diff_and_count(&b), 2);
}

#[test]
fn set_pixel_changes_one_pixel() {
    let mut a = BinaryImage::new_w_h(3, 3);
    a.set_pixel(2, 1, true);
    for y in 0..3 {
        for x in 0..3 {
            assert_eq!(a.get_pixel(x, y), (x, y) == (2, 1));
        }
    }
    a.set_pixel(2, 1, false);
    assert_eq!(a.area(), 0);
}

#[test]
fn canvas_fits_tells_what_can_be_stored() {
    assert!(raster_core::canvas_fits(0, 0));
    assert!(raster_core::canvas_fits(1000, 1000));
    assert!(raster_core::canvas_fits(usize::MAX - 7, 1));
    assert!(!raster_core::canvas_fits(usize::MAX, 1));
    assert!(!raster_core::canvas_fits(usize::MAX - 6, 1));
    assert!(!raster_core::canvas_fits(usize::MAX, 2));
    assert!(raster_core::canvas_fits(usize::MAX, 0));
}
