use movie_barcode::{BarcodeAssembler, Dimensions, Error, Pixel};

fn px(v: u8) -> Pixel {
    Pixel { r: v, g: v.wrapping_add(1), b: v.wrapping_add(2) }
}

#[test]
fn assembler_starts_empty() {
    let assembler = BarcodeAssembler::new(Dimensions::new(3, 2)).unwrap();
    assert_eq!(assembler.dimensions(), Dimensions::new(3, 2));
    assert_eq!(assembler.budget(), 6);
    assert_eq!(assembler.len(), 0);
    assert_eq!(assembler.missing(), 6);
    assert!(!assembler.is_full());
}

#[test]
fn assembler_refuses_dimensions_beyond_the_machine() {
    assert!(matches!(
        BarcodeAssembler::new(Dimensions::new(u32::MAX, u32::MAX)),
        Err(Error::InvalidInputError)
    ));
}

#[test]
fn assembler_keeps_pixels_in_the_order_of_arrival() {
    let mut assembler = BarcodeAssembler::new(Dimensions::new(3, 2)).unwrap();
    assert_eq!(assembler.accept(&[px(1), px(2)]), 2);
    assert_eq!(assembler.accept(&[px(3)]), 1);
    assert_eq!(assembler.accept(&[]), 0);
    assert_eq!(assembler.accept(&[px(4), px(5), px(6)]), 3);
    assert!(assembler.is_full());
    let image = assembler.finish().unwrap();
    assert_eq!(image.as_pixels(), &vec![px(1), px(2), px(3), px(4), px(5), px(6)]);
}

#[test]
fn assembler_drops_what_is_beyond_the_budget() {
    let mut assembler = BarcodeAssembler::new(Dimensions::new(2, 2)).unwrap();
    assert_eq!(assembler.accept(&[px(1), px(2), px(3)]), 3);
    assert_eq!(assembler.accept(&[px(4), px(5), px(6)]), 1);
    assert_eq!(assembler.len(), 4);
    assert_eq!(assembler.missing(), 0);
    assert_eq!(assembler.accept(&[px(7), px(8)]), 0);
    assert_eq!(assembler.len(), 4);
    let image = assembler.finish().unwrap();
    assert_eq!(image.as_pixels(), &vec![px(1), px(2), px(3), px(4)]);
}

#[test]
fn assembler_reports_how_many_pixels_are_missing() {
    let mut assembler = BarcodeAssembler::new(Dimensions::new(3, 2)).unwrap();
    assembler.accept(&[px(1), px(2)]);
    assert_eq!(assembler.missing(), 4);
    assert!(matches!(assembler.finish(), Err(Error::IncompleteBarcodeError { missing: 4 })));
    let untouched = BarcodeAssembler::new(Dimensions::new(3, 2)).unwrap();
    assert!(matches!(untouched.finish(), Err(Error::IncompleteBarcodeError { missing: 6 })));
}

#[test]
fn barcode_without_pixels_is_finished_at_once() {
    let mut assembler = BarcodeAssembler::new(Dimensions::new(0, 5)).unwrap();
    assert!(assembler.is_full());
    assert_eq!(assembler.accept(&[px(1)]), 0);
    let image = assembler.finish().unwrap();
    assert!(image.as_pixels().is_empty());
    assert!(image.to_raw().is_empty());
    assert_eq!(image.get_pixel(0, 0), None);
}

#[test]
fn barcode_pixels_run_down_the_columns() {
    // three columns of two rows, in the order of arrival
    let mut assembler = BarcodeAssembler::new(Dimensions::new(3, 2)).unwrap();
    assembler.accept(&[px(10), px(11), px(20), px(21), px(30), px(31)]);
    let image = assembler.finish().unwrap();
    assert_eq!(image.dimensions(), Dimensions::new(3, 2));
    assert_eq!(image.get_pixel(0, 0), Some(px(10)));
    assert_eq!(image.get_pixel(0, 1), Some(px(11)));
    assert_eq!(image.get_pixel(1, 0), Some(px(20)));
    assert_eq!(image.get_pixel(1, 1), Some(px(21)));
    assert_eq!(image.get_pixel(2, 0), Some(px(30)));
    assert_eq!(image.get_pixel(2, 1), Some(px(31)));
    assert_eq!(image.get_pixel(3, 0), None);
    assert_eq!(image.get_pixel(0, 2), None);
}

#[test]
fn barcode_raw_bytes_run_along_the_rows() {
    let mut assembler = BarcodeAssembler::new(Dimensions::new(3, 2)).unwrap();
    assembler.accept(&[px(10), px(11), px(20), px(21), px(30), px(31)]);
    let image = assembler.finish().unwrap();
    assert_eq!(
        image.to_raw(),
        vec![
            10, 11, 12, 20, 21, 22, 30, 31, 32, // first row
            11, 12, 13, 21, 22, 23, 31, 32, 33, // second row
        ]
    );
}

#[test]
fn barcode_raw_bytes_agree_with_get_pixel() {
    let (width, height) = (5u32, 4u32);
    let mut assembler = BarcodeAssembler::new(Dimensions::new(width, height)).unwrap();
    let pixels: Vec<Pixel> = (0..20).map(|i| px(i * 7)).collect();
    assembler.accept(&pixels);
    let image = assembler.finish().unwrap();
    let raw = image.to_raw();
    assert_eq!(raw.len(), 60);
    for y in 0..height {
        for x in 0..width {
            let at = ((y * width + x) * 3) as usize;
            let pixel = image.get_pixel(x, y).unwrap();
            assert_eq!(pixel, pixels[(x * height + y) as usize]);
            assert_eq!(&raw[at..at + 3], &[pixel.r, pixel.g, pixel.b]);
        }
    }
}
