use diorama::image::Image;
use diorama::ppm::{check_ppm_header, encode_ppm, PpmError};

fn parse(bytes: &[u8]) -> Result<Image, PpmError> {
    check_ppm_header(bytes)?;
    Image::parse_ppm(bytes)
}

#[test]
fn parse_minimal_image() {
    let img = parse(b"P6\n2 1\n255\n\x01\x02\x03\x04\x05\x06").unwrap();
    assert_eq!(img.w, 2);
    assert_eq!(img.h, 1);
    assert_eq!(img.data, vec![1, 2, 3, 4, 5, 6]);
}

#[test]
fn parse_keeps_every_byte_after_header() {
    // Data may hold line feeds and any byte; it is all kept.
    let img = parse(b"P6\n1 1\n255\n\n\xff\x00\x0a").unwrap();
    assert_eq!(img.data, vec![10, 255, 0, 10]);
}

#[test]
fn parse_trims_header_lines() {
    let img = parse(b"  P6 \r\n\t 3   4  \r\n 255 \r\nxyz").unwrap();
    assert_eq!((img.w, img.h), (3, 4));
    assert_eq!(img.data, b"xyz".to_vec());
}

#[test]
fn parse_ignores_extra_size_tokens() {
    let img = parse(b"P6\n5 6 7 eight\n255\n").unwrap();
    assert_eq!((img.w, img.h), (5, 6));
    assert!(img.data.is_empty());
}

#[test]
fn parse_accepts_plus_sign_and_leading_zeros() {
    let img = parse(b"P6\n+12 007\n+0255\n").unwrap();
    assert_eq!((img.w, img.h), (12, 7));
}

#[test]
fn parse_rejects_other_magic() {
    assert_eq!(parse(b"P3\n1 1\n255\n").unwrap_err(), PpmError::BadMagic);
    assert_eq!(parse(b"").unwrap_err(), PpmError::BadMagic);
    assert_eq!(parse(b"P6 1 1 255\n").unwrap_err(), PpmError::BadMagic);
}

#[test]
fn parse_rejects_missing_size() {
    assert_eq!(parse(b"P6\n\n255\n").unwrap_err(), PpmError::MissingDimension);
    assert_eq!(parse(b"P6\n5\n255\n").unwrap_err(), PpmError::MissingDimension);
    assert_eq!(parse(b"P6\n").unwrap_err(), PpmError::MissingDimension);
}

#[test]
fn parse_rejects_bad_size() {
    assert_eq!(parse(b"P6\nx 1\n255\n").unwrap_err(), PpmError::BadDimension);
    // The width is read before the height is looked for.
    assert_eq!(parse(b"P6\nx\n255\n").unwrap_err(), PpmError::BadDimension);
    assert_eq!(parse(b"P6\n1 -1\n255\n").unwrap_err(), PpmError::BadDimension);
    assert_eq!(parse(b"P6\n+ 1\n255\n").unwrap_err(), PpmError::BadDimension);
    assert_eq!(
        parse(b"P6\n1 999999999999999999999999\n255\n").unwrap_err(),
        PpmError::BadDimension
    );
}

#[test]
fn parse_rejects_bad_max_value() {
    assert_eq!(parse(b"P6\n1 1\nabc\n").unwrap_err(), PpmError::BadMaxValue);
    assert_eq!(parse(b"P6\n1 1\n").unwrap_err(), PpmError::BadMaxValue);
    assert_eq!(parse(b"P6\n1 1\n255 0\n").unwrap_err(), PpmError::BadMaxValue);
}

#[test]
fn parse_rejects_other_max_value() {
    assert_eq!(parse(b"P6\n1 1\n65535\n").unwrap_err(), PpmError::UnsupportedMaxValue);
    assert_eq!(parse(b"P6\n1 1\n0\n").unwrap_err(), PpmError::UnsupportedMaxValue);
}

#[test]
fn encode_writes_header_then_pixels() {
    assert_eq!(encode_ppm(&[1, 2, 3], 1, 1), b"P6\n1 1\n255\n\x01\x02\x03".to_vec());
    assert_eq!(encode_ppm(&[], 800, 600), b"P6\n800 600\n255\n".to_vec());
    assert_eq!(encode_ppm(&[], 0, 10), b"P6\n0 10\n255\n".to_vec());
}

#[test]
fn encode_then_parse_gives_the_image_back() {
    let pixels: Vec<u8> = (0..=255u8).chain(0..=10u8).collect();
    for &(w, h) in &[(0usize, 0usize), (1, 1), (89, 3), (123456789, 10), (usize::MAX, 7)] {
        let img = parse(&encode_ppm(&pixels, w, h)).unwrap();
        assert_eq!((img.w, img.h), (w, h));
        assert_eq!(img.data, pixels);
    }
}

#[test]
fn texel_reads_three_bytes() {
    let img = Image { w: 2, h: 2, data: (0..12u8).collect() };
    assert_eq!(img.texel(0, 0), (0, 1, 2));
    assert_eq!(img.texel(1, 0), (3, 4, 5));
    assert_eq!(img.texel(0, 1), (6, 7, 8));
    assert_eq!(img.texel(1, 1), (9, 10, 11));
}

#[test]
fn header_line_must_be_utf8() {
    // The width line holds a byte that is not UTF-8: reading it is an input error.
    let mut bytes = b"P6\n2 1 \xff\n255\n".to_vec();
    bytes.extend_from_slice(&[1, 2, 3, 4, 5, 6]);
    assert_eq!(check_ppm_header(&bytes), Err(PpmError::InvalidUtf8));
    assert_eq!(Image::parse_ppm(&bytes).unwrap_err(), PpmError::InvalidUtf8);
    assert_eq!(parse(b"P6\xc0\n1 1\n255\n").unwrap_err(), PpmError::InvalidUtf8);
    assert_eq!(parse(b"P6\n1 1\n255\xed\xa0\x80\n").unwrap_err(), PpmError::InvalidUtf8);
}

#[test]
fn utf8_is_checked_line_by_line_in_order() {
    // A bad magic line is found before the next line is read.
    assert_eq!(parse(b"P5\n\xff\n").unwrap_err(), PpmError::BadMagic);
    // A bad size is found before the maximum-value line is read.
    assert_eq!(parse(b"P6\nx 1\n\xff\n").unwrap_err(), PpmError::BadDimension);
    // Pixel bytes after the header need not be UTF-8.
    let img = parse(b"P6\n1 1\n255\n\xff\xfe\x80").unwrap();
    assert_eq!(img.data, vec![0xff, 0xfe, 0x80]);
}

#[test]
fn header_accepts_unicode_whitespace() {
    let img = parse("\u{3000}P6\u{a0}\n\u{2003}4\u{85}5\u{2029}\n255\u{205f}\n".as_bytes()).unwrap();
    assert_eq!((img.w, img.h), (4, 5));
    // Other non-ASCII characters are not whitespace.
    assert_eq!(parse("P6\u{e9}\n1 1\n255\n".as_bytes()).unwrap_err(), PpmError::BadMagic);
}
