use raster_core::BinaryImage;

#[test]
fn negative_image() {
    assert_eq!(
        BinaryImage::from_string(&(
            "*-*\n".to_owned() +
            "-*-\n" +
            "*-*\n"
        ))
        .negative()
        .to_string(),
        BinaryImage::from_string(&(
            "-*-\n".to_owned() +
            "*-*\n" +
            "-*-\n"
        )).to_string()
    );
}

#[test]
fn to_string_writes_a_line_for_each_row() {
    let mut a = BinaryImage::new_w_h(3, 2);
    a.set_pixel(0, 0, true);
    a.set_pixel(2, 1, true);
    assert_eq!(a.to_string(), "*--\n--*\n");
    assert_eq!(BinaryImage::new_w_h(0, 0).to_string(), "");
    assert_eq!(BinaryImage::new_w_h(0, 2).to_string(), "\n\n");
    assert_eq!(BinaryImage::new_w_h(2, 0).to_string(), "");
}

#[test]
fn from_string_reads_what_to_string_writes() {
    let text = "*-*-\n----\n-**-\n";
    let a = BinaryImage::from_string(text);
    assert_eq!((a.width(), a.height()), (4, 3));
    assert!(a.get_pixel(0, 0));
    assert!(!a.get_pixel(1, 0));
    assert!(a.get_pixel(2, 0));
    assert!(a.get_pixel(1, 2));
    assert!(a.get_pixel(2, 2));
    assert_eq!(a.area(), 4);
    assert_eq!(a.to_string(), text);
}

#[test]
fn from_string_takes_the_width_from_the_first_line() {
    // a last line without newline counts; a shorter line is filled up, a longer one cut
    let a = BinaryImage::from_string("-*-\n*\n--***");
    assert_eq!((a.width(), a.height()), (3, 3));
    assert_eq!(a.to_string(), "-*-\n*--\n--*\n");
    // a carriage return before the newline is no glyph
    let b = BinaryImage::from_string("*-\r\n-*\r\n");
    assert_eq!((b.width(), b.height()), (2, 2));
    assert_eq!(b.to_string(), "*-\n-*\n");
    // anything but the glyph of a set pixel is unset
    assert_eq!(BinaryImage::from_string("*x \n").to_string(), "*--\n");
}

#[test]
fn from_string_of_empty_texts() {
    let a = BinaryImage::from_string("");
    assert_eq!((a.width(), a.height()), (0, 0));
    let b = BinaryImage::from_string("\n\n");
    assert_eq!((b.width(), b.height()), (0, 2));
    let c = BinaryImage::from_string("\n**\n");
    assert_eq!((c.width(), c.height()), (0, 2));
}
