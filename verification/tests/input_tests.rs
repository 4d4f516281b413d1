use movie_barcode::ffmpeg::parse_dimensions;
use movie_barcode::{Config, Dimensions, Error};

#[test]
fn dimensions_are_read_off_the_probers_line() {
    assert_eq!(parse_dimensions(b"1920x1080"), Ok(Dimensions::new(1920, 1080)));
    assert_eq!(parse_dimensions(b"2x3"), Ok(Dimensions::new(2, 3)));
    assert_eq!(parse_dimensions(b"0x0"), Ok(Dimensions::new(0, 0)));
    assert_eq!(parse_dimensions(b"007x010"), Ok(Dimensions::new(7, 10)));
    assert_eq!(
        parse_dimensions(b"4294967295x4294967295"),
        Ok(Dimensions::new(u32::MAX, u32::MAX))
    );
}

#[test]
fn a_plus_may_stand_before_a_number() {
    assert_eq!(parse_dimensions(b"+640x+480"), Ok(Dimensions::new(640, 480)));
}

#[test]
fn fields_after_the_second_are_left_aside() {
    assert_eq!(parse_dimensions(b"640x480x3"), Ok(Dimensions::new(640, 480)));
    assert_eq!(parse_dimensions(b"640x480x3x4x5"), Ok(Dimensions::new(640, 480)));
}

#[test]
fn a_line_that_is_not_dimensions_is_refused() {
    let lines: [&[u8]; 17] = [
        b"",
        b"x",
        b"640",
        b"640x",
        b"x480",
        b"640xx480",
        b"640x480x",
        b"640x480xrgb",
        b"640X480",
        b"640 x 480",
        b" 640x480",
        b"640x480\n",
        b"-640x480",
        b"+x480",
        b"++640x480",
        b"4294967296x1",
        b"1x99999999999999999999999999",
    ];
    for line in lines {
        assert_eq!(parse_dimensions(line), Err(Error::ParseDimensionsError));
    }
}

#[test]
fn parsing_agrees_with_the_standard_number_parser() {
    let fields = ["0", "1", "42", "+42", "4294967295", "4294967296", "", "+", "4a", "-1", "00"];
    for first in fields {
        for second in fields {
            let line = format!("{}x{}", first, second);
            let expected = match (first.parse::<u32>(), second.parse::<u32>()) {
                (Ok(width), Ok(height)) => Ok(Dimensions::new(width, height)),
                _ => Err(Error::ParseDimensionsError),
            };
            assert_eq!(parse_dimensions(line.as_bytes()), expected);
        }
    }
}

#[test]
fn config_holds_the_options() {
    let config = Config::from_options(Some("in.mp4".to_string()), Some("out.png".to_string()), true)
        .unwrap();
    assert_eq!(config.input_file_path, "in.mp4");
    assert_eq!(config.output_file_path, "out.png");
    assert!(config.is_simple);
    let blended =
        Config::from_options(Some("a".to_string()), Some("b".to_string()), false).unwrap();
    assert!(!blended.is_simple);
}

#[test]
fn config_needs_both_paths() {
    assert!(matches!(
        Config::from_options(None, Some("out.png".to_string()), false),
        Err(Error::InputPathOptionMissingError)
    ));
    assert!(matches!(
        Config::from_options(Some("in.mp4".to_string()), None, false),
        Err(Error::OutputPathOptionMissingError)
    ));
    assert!(matches!(
        Config::from_options(None, None, true),
        Err(Error::InputPathOptionMissingError)
    ));
}
