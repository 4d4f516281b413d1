use movie_barcode::pixel::{
    get_avg_pixel_color, get_blended_col_average_pixels, get_simple_col_average_pixels,
};
use movie_barcode::{Dimensions, Error, FrameBuffer, Pixel};

fn px(r: u8, g: u8, b: u8) -> Pixel {
    Pixel { r, g, b }
}

/// The quadratic mean as floating point computes it.
fn float_mean(values: &[u8]) -> u8 {
    let count = values.len() as f64;
    let sum: f64 = values.iter().map(|v| f64::from(*v).powi(2)).sum();
    (sum / count).sqrt().round() as u8
}

fn float_mean_pixel(pixels: &[Pixel]) -> Pixel {
    let r: Vec<u8> = pixels.iter().map(|p| p.r).collect();
    let g: Vec<u8> = pixels.iter().map(|p| p.g).collect();
    let b: Vec<u8> = pixels.iter().map(|p| p.b).collect();
    px(float_mean(&r), float_mean(&g), float_mean(&b))
}

/// A small generator of repeatable bytes.
struct Bytes(u64);

impl Bytes {
    fn next(&mut self) -> u8 {
        self.0 = self.0.wrapping_mul(6364136223846793005).wrapping_add(1442695040888963407);
        (self.0 >> 56) as u8
    }
}

fn frame(width: u32, height: u32, pixels: &[Pixel]) -> FrameBuffer {
    let mut raw = Vec::new();
    for p in pixels {
        raw.push(p.r);
        raw.push(p.g);
        raw.push(p.b);
    }
    FrameBuffer::from_raw(width, height, raw).unwrap()
}

#[test]
fn average_of_no_pixels_is_an_error() {
    assert_eq!(get_avg_pixel_color(&[]), Err(Error::EmptyFrameError));
}

#[test]
fn average_of_one_pixel_is_that_pixel() {
    assert_eq!(get_avg_pixel_color(&[px(0, 128, 255)]), Ok(px(0, 128, 255)));
}

#[test]
fn average_of_uniform_pixels_is_their_colour() {
    let pixels = vec![px(10, 20, 30); 1000];
    assert_eq!(get_avg_pixel_color(&pixels), Ok(px(10, 20, 30)));
    let bright = vec![px(255, 255, 255); 77];
    assert_eq!(get_avg_pixel_color(&bright), Ok(px(255, 255, 255)));
    let dark = vec![px(0, 0, 0); 3];
    assert_eq!(get_avg_pixel_color(&dark), Ok(px(0, 0, 0)));
}

#[test]
fn average_is_quadratic_not_arithmetic() {
    // sqrt((0 + 255 * 255) / 2) = 180.3..., where the arithmetic mean is 127.5
    let pixels = [px(0, 0, 255), px(255, 0, 255)];
    assert_eq!(get_avg_pixel_color(&pixels), Ok(px(180, 0, 255)));
    // sqrt((100 + 400 + 900) / 3) = 21.6...
    let pixels = [px(10, 1, 3), px(20, 2, 4), px(30, 2, 5)];
    // green: sqrt(9 / 3) = 1.73...; blue: sqrt(50 / 3) = 4.08...
    assert_eq!(get_avg_pixel_color(&pixels), Ok(px(22, 2, 4)));
}

#[test]
fn average_rounds_halves_up() {
    // sqrt(1 / 4) = 0.5 exactly
    let pixels = [px(1, 0, 0), px(0, 0, 0), px(0, 0, 0), px(0, 0, 0)];
    assert_eq!(get_avg_pixel_color(&pixels), Ok(px(1, 0, 0)));
    // sqrt((3 * 9) / 12) = 1.5 exactly
    let mut pixels = vec![px(3, 0, 0); 3];
    pixels.extend(vec![px(0, 0, 0); 9]);
    assert_eq!(get_avg_pixel_color(&pixels), Ok(px(2, 0, 0)));
    // just below a half: sqrt(2 / 9) = 0.47...
    let mut pixels = vec![px(1, 0, 0); 2];
    pixels.extend(vec![px(0, 0, 0); 7]);
    assert_eq!(get_avg_pixel_color(&pixels), Ok(px(0, 0, 0)));
}

#[test]
fn average_agrees_with_floating_point() {
    let mut bytes = Bytes(7);
    for round in 0..300 {
        let count = 1 + (round * 7) % 97;
        let pixels: Vec<Pixel> =
            (0..count).map(|_| px(bytes.next(), bytes.next(), bytes.next())).collect();
        assert_eq!(get_avg_pixel_color(&pixels), Ok(float_mean_pixel(&pixels)));
    }
}

#[test]
fn average_of_two_values_agrees_with_floating_point_everywhere() {
    for low in (0..=255u8).step_by(5) {
        for high in 0..=255u8 {
            let pixels = [px(low, high, 0), px(high, high, 255), px(high, low, 1)];
            assert_eq!(get_avg_pixel_color(&pixels), Ok(float_mean_pixel(&pixels)));
        }
    }
}

#[test]
fn simple_mode_repeats_one_colour_for_each_row() {
    let pixels = [px(0, 0, 255), px(255, 0, 255), px(0, 0, 255), px(255, 0, 255)];
    let column =
        get_simple_col_average_pixels(frame(2, 2, &pixels), &Dimensions::new(9, 5)).unwrap();
    assert_eq!(column, vec![px(180, 0, 255); 5]);
}

#[test]
fn simple_mode_yields_height_identical_pixels() {
    let mut bytes = Bytes(11);
    for height in [0u32, 1, 2, 17] {
        let pixels: Vec<Pixel> =
            (0..12).map(|_| px(bytes.next(), bytes.next(), bytes.next())).collect();
        let expected = float_mean_pixel(&pixels);
        let column =
            get_simple_col_average_pixels(frame(4, 3, &pixels), &Dimensions::new(3, height))
                .unwrap();
        assert_eq!(column.len(), height as usize);
        assert!(column.iter().all(|p| *p == expected));
    }
}

#[test]
fn simple_mode_refuses_a_frame_without_pixels() {
    let empty = FrameBuffer::from_raw(0, 4, Vec::new()).unwrap();
    assert_eq!(
        get_simple_col_average_pixels(empty, &Dimensions::new(3, 2)),
        Err(Error::EmptyFrameError)
    );
}

#[test]
fn blended_mode_averages_each_row_by_itself() {
    let pixels = [
        px(10, 10, 10),
        px(10, 10, 10),
        px(10, 10, 10),
        px(0, 0, 0),
        px(255, 255, 255),
        px(0, 0, 0),
    ];
    let column =
        get_blended_col_average_pixels(frame(3, 2, &pixels), &Dimensions::new(3, 2)).unwrap();
    // second row: sqrt(65025 / 3) = 147.2...
    assert_eq!(column, vec![px(10, 10, 10), px(147, 147, 147)]);
}

#[test]
fn blended_mode_yields_one_pixel_for_each_row() {
    let mut bytes = Bytes(13);
    let (width, height) = (5u32, 7u32);
    let pixels: Vec<Pixel> =
        (0..35).map(|_| px(bytes.next(), bytes.next(), bytes.next())).collect();
    let column =
        get_blended_col_average_pixels(frame(width, height, &pixels), &Dimensions::new(5, 7))
            .unwrap();
    assert_eq!(column.len(), 7);
    for row in 0..7 {
        assert_eq!(column[row], float_mean_pixel(&pixels[row * 5..(row + 1) * 5]));
    }
}

#[test]
fn blended_mode_row_depends_on_that_row_alone() {
    let mut first = vec![px(1, 2, 3); 12];
    let mut second = vec![px(1, 2, 3); 12];
    for i in 0..4 {
        first[i] = px(200, 100, 0);
        second[i] = px(0, 0, 0);
        first[8 + i] = px(9, 9, 9);
        second[8 + i] = px(90, 90, 90);
    }
    let dims = Dimensions::new(4, 3);
    let a = get_blended_col_average_pixels(frame(4, 3, &first), &dims).unwrap();
    let b = get_blended_col_average_pixels(frame(4, 3, &second), &dims).unwrap();
    assert_eq!(a[1], b[1]);
    assert_eq!(a[1], px(1, 2, 3));
    assert_ne!(a[0], b[0]);
    assert_ne!(a[2], b[2]);
}

#[test]
fn blended_mode_with_another_width_cuts_a_shorter_last_chunk() {
    let pixels =
        [px(10, 0, 0), px(10, 0, 0), px(20, 0, 0), px(20, 0, 0), px(30, 0, 0), px(40, 0, 0)];
    let column =
        get_blended_col_average_pixels(frame(3, 2, &pixels), &Dimensions::new(4, 1)).unwrap();
    // chunks of four: 10 10 20 20 -> sqrt(250) = 15.8...; 30 40 -> sqrt(1250) = 35.3...
    assert_eq!(column, vec![px(16, 0, 0), px(35, 0, 0)]);
}

#[test]
fn blended_mode_refuses_a_width_of_zero() {
    let pixels = [px(1, 1, 1), px(2, 2, 2)];
    assert_eq!(
        get_blended_col_average_pixels(frame(2, 1, &pixels), &Dimensions::new(0, 1)),
        Err(Error::EmptyFrameError)
    );
}

#[test]
fn blended_mode_of_a_frame_without_rows_is_empty() {
    let empty = FrameBuffer::from_raw(4, 0, Vec::new()).unwrap();
    assert_eq!(get_blended_col_average_pixels(empty, &Dimensions::new(4, 0)), Ok(Vec::new()));
}
