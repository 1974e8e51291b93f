use image_parser::image::{Image, Pixel, Rgba, DEFAULT_ALPHA_VALUE};
use image_parser::ppm::{
    parse_ppm_file, parse_ppm_image, token_value, ImagesFromPpmFileError, TokenError,
};

fn with_zero_alpha(colors: &[u32]) -> Vec<Pixel> {
    colors
        .iter()
        .map(|&e| {
            let mut pixel: Pixel = e.into();
            let mut rgba = pixel.rgba();
            rgba.a = DEFAULT_ALPHA_VALUE;
            pixel.set_rgba(rgba);
            pixel
        })
        .collect()
}

fn push_pixel_data(file: &mut Vec<u8>, pixels: &[Pixel]) {
    for pixel in pixels {
        file.push(pixel.rgba().r);
        file.push(pixel.rgba().g);
        file.push(pixel.rgba().b);
    }
}

fn expect_err(content: &[u8], expected: ImagesFromPpmFileError) {
    match parse_ppm_file(content) {
        Err(e) if e == expected => {}
        Err(e) => panic!("Expected {expected:?} found {e:?}"),
        Ok(_) => panic!("Expected {expected:?} found a successful parse"),
    }
}

#[test]
fn single_image() {
    let data = with_zero_alpha(&[
        42,
        594,
        4543,
        65478,
        56309043,
        547789421,
        909545472,
        u32::MAX,
        u32::MIN,
        56348903,
        2429,
        589409022,
        986953,
        436557,
        2134646,
        3474632,
    ]);
    let mut file: Vec<u8> = Vec::new();
    file.extend_from_slice(b"P6 4 4 255 ");
    push_pixel_data(&mut file, &data);
    let expected = Image::new(4, 4, data);
    let res = parse_ppm_file(&file).unwrap();
    assert_eq!(res.len(), 1);
    assert_eq!(expected, res[0])
}

#[test]
fn multiple_images() {
    let data_1 = with_zero_alpha(&[
        42,
        594,
        4543,
        65478,
        56309043,
        547789421,
        909545472,
        u32::MAX,
        u32::MIN,
        56348903,
        2429,
        589409022,
    ]);
    let data_2 = with_zero_alpha(&[43, 346, 647642, 436887, 90863643, 437437474]);

    let mut file: Vec<u8> = Vec::new();
    file.extend_from_slice(b"P6   4 \n\n 3   255 ");
    push_pixel_data(&mut file, &data_1);
    file.extend_from_slice(b"P6\t2 #test\n3\n# Hey\n255 ");
    push_pixel_data(&mut file, &data_2);

    let expected = [Image::new(4, 3, data_1), Image::new(2, 3, data_2)];
    let res = parse_ppm_file(&file).unwrap();
    assert_eq!(res.len(), expected.len());
    assert_eq!(expected[0], res[0]);
    assert_eq!(expected[1], res[1]);
}

#[test]
fn empty_file() {
    expect_err(b"", ImagesFromPpmFileError::FormatNotFound);
    expect_err(b"                    ", ImagesFromPpmFileError::FormatNotFound);
}

#[test]
fn bad_format() {
    expect_err(b"", ImagesFromPpmFileError::FormatNotFound);
    expect_err(b"htre4 4 5 4654 ", ImagesFromPpmFileError::FormatNotSupported);
    expect_err(b"htre4", ImagesFromPpmFileError::NoWhitespaceAfterFormat);
}

#[test]
fn bad_width() {
    expect_err(b"P6 4f3 5 255 ", ImagesFromPpmFileError::WidthIsNotAUsize);
    expect_err(b"P6 f 5 255 ", ImagesFromPpmFileError::WidthIsNotAUsize);
    expect_err(b"P6 42f 5 255 ", ImagesFromPpmFileError::WidthIsNotAUsize);
    expect_err(b"P6 -42 5 255 ", ImagesFromPpmFileError::WidthIsNotAUsize);
    expect_err(
        b"P6 99999999999999999999999999999 2 4 ",
        ImagesFromPpmFileError::WidthIsNotAUsize,
    );
    expect_err(b"P6 42", ImagesFromPpmFileError::NoWhitespaceAfterWidth);
    expect_err(b"P6 ", ImagesFromPpmFileError::WidthNotFound);
}

#[test]
fn bad_height() {
    expect_err(b"P6 5 4f3 255 ", ImagesFromPpmFileError::HeightIsNotAUsize);
    expect_err(b"P6 5 f 255 ", ImagesFromPpmFileError::HeightIsNotAUsize);
    expect_err(b"P6 5 42f 255 ", ImagesFromPpmFileError::HeightIsNotAUsize);
    expect_err(b"P6 5 -42 255 ", ImagesFromPpmFileError::HeightIsNotAUsize);
    expect_err(
        b"P6 5 99999999999999999999999999999 255 ",
        ImagesFromPpmFileError::HeightIsNotAUsize,
    );
    expect_err(b"P6 42 5", ImagesFromPpmFileError::NoWhitespaceAfterHeight);
    expect_err(b"P6 42 ", ImagesFromPpmFileError::HeightNotFound);
}

#[test]
fn number_overflow() {
    expect_err(
        format!("P6 {} 2 256 ", usize::MAX).as_bytes(),
        ImagesFromPpmFileError::WidthMulHeightOverflowsUsize,
    );
}

#[test]
fn allocation_failure() {
    expect_err(
        format!("P6 {} 1 256 ", usize::MAX).as_bytes(),
        ImagesFromPpmFileError::FailedToAllocateImageData,
    );
}

#[test]
fn bad_maxval() {
    expect_err(b"P6 4 2 2f55 ", ImagesFromPpmFileError::MaxvalIsNotAU16);
    expect_err(b"P6 4 2 f ", ImagesFromPpmFileError::MaxvalIsNotAU16);
    expect_err(b"P6 4 2 255f ", ImagesFromPpmFileError::MaxvalIsNotAU16);
    expect_err(b"P6 4 2 -255 ", ImagesFromPpmFileError::MaxvalIsNotAU16);
    expect_err(b"P6 4 2 999999999999999 ", ImagesFromPpmFileError::MaxvalIsNotAU16);
    expect_err(b"P6 4 2 255", ImagesFromPpmFileError::NoWhitespaceAfterMaxval);
    expect_err(b"P6 4 2 ", ImagesFromPpmFileError::MaxvalNotFound);
    expect_err(b"P6 4 2 0 ", ImagesFromPpmFileError::MaxvalCantBe0);
}

#[test]
fn not_enought_pixel_data() {
    expect_err(b"P6 1 1 255 rg", ImagesFromPpmFileError::LessThanSizePixelsFoundInFile);
    expect_err(b"P6 1 1 256 rrggb", ImagesFromPpmFileError::LessThanSizePixelsFoundInFile);
}

fn channels(image: &Image) -> Vec<(u8, u8, u8, u8)> {
    image.pixels().iter().map(|p| {
        let c = p.rgba();
        (c.r, c.g, c.b, c.a)
    }).collect()
}

#[test]
fn two_byte_samples_are_rescaled_by_truncation() {
    let mut file: Vec<u8> = b"P6 1 1 510 ".to_vec();
    file.extend_from_slice(&[0x00, 0x02, 0x01, 0xfe, 0x00, 0xff]);
    let res = parse_ppm_file(&file).unwrap();
    assert_eq!(res.len(), 1);
    assert_eq!(channels(&res[0]), vec![(1, 255, 127, 0)]);
}

#[test]
fn one_byte_samples_are_rescaled_and_saturate() {
    let res = parse_ppm_file(&[b"P6 2 1 100 ".as_slice(), &[50, 0, 100, 200, 1, 99]].concat())
        .unwrap();
    assert_eq!(channels(&res[0]), vec![(127, 0, 255, 0), (255, 2, 252, 0)]);
}

#[test]
fn maxval_255_keeps_the_bytes() {
    let res = parse_ppm_file(b"P6 2 1 255 \x00\x7f\xff\x01\x02\x03").unwrap();
    assert_eq!(channels(&res[0]), vec![(0, 127, 255, 0), (1, 2, 3, 0)]);
}

#[test]
fn each_image_of_a_pair_matches_its_own_parse() {
    let first = b"P6 1 2 255 abcdef".to_vec();
    let second = b"# lead\n P6 2 1 65535 \x01\x02\x03\x04\x05\x06\x07\x08\x09\x0a\x0b\x0c\n".to_vec();
    let both = [first.clone(), second.clone()].concat();
    let res = parse_ppm_file(&both).unwrap();
    assert_eq!(res.len(), 2);
    assert_eq!(res[0], parse_ppm_file(&first).unwrap()[0]);
    assert_eq!(res[1], parse_ppm_file(&second).unwrap()[0]);
    assert_eq!((res[1].width(), res[1].height()), (2, 1));
}

#[test]
fn unterminated_format_token() {
    expect_err(b"P6", ImagesFromPpmFileError::NoWhitespaceAfterFormat);
    expect_err(b"  # c\n P7", ImagesFromPpmFileError::NoWhitespaceAfterFormat);
}

#[test]
fn other_format_tokens_are_not_supported() {
    expect_err(b"P5 1 1 255 abc", ImagesFromPpmFileError::FormatNotSupported);
    expect_err(b"P6x ", ImagesFromPpmFileError::FormatNotSupported);
    expect_err(b"P3#c\n", ImagesFromPpmFileError::FormatNotSupported);
}

#[test]
fn comments_between_tokens() {
    let res = parse_ppm_file(b"#a\n#b\nP6#c\n1\t#d\n1\r255\nxyz# trailing").unwrap();
    assert_eq!(res.len(), 1);
    assert_eq!(channels(&res[0]), vec![(b'x', b'y', b'z', 0)]);
}

#[test]
fn comment_only_buffer_has_no_format() {
    expect_err(b"# only a comment\n \t", ImagesFromPpmFileError::FormatNotFound);
}

#[test]
fn width_needs_plain_digits_and_text() {
    expect_err(b"P6 +1 1 255 abc", ImagesFromPpmFileError::WidthIsNotAUsize);
    expect_err(b"P6 \xff 1 255 abc", ImagesFromPpmFileError::WidthIsNotAUtf8String);
    expect_err(b"P6 1 \xc3 255 abc", ImagesFromPpmFileError::HeightIsNotAUtf8String);
    expect_err(b"P6 1 1 \xe2\x82 abc", ImagesFromPpmFileError::MaxvalIsNotAUtf8String);
    expect_err(b"P6 1 1 \xc3\xa9 abc", ImagesFromPpmFileError::MaxvalIsNotAU16);
}

#[test]
fn maxval_is_ended_by_whitespace_only() {
    expect_err(b"P6 1 1 255#c\nabc", ImagesFromPpmFileError::NoWhitespaceAfterMaxval);
    expect_err(b"P6 1 1 65536 abc", ImagesFromPpmFileError::MaxvalIsNotAU16);
}

#[test]
fn empty_grid_decodes() {
    let res = parse_ppm_file(b"P6 0 5 255 ").unwrap();
    assert_eq!(res.len(), 1);
    assert_eq!((res[0].width(), res[0].height(), res[0].pixels().len()), (0, 5, 0));
}

#[test]
fn second_image_error_fails_everything() {
    expect_err(b"P6 1 1 255 abcP6 1 1 0 ", ImagesFromPpmFileError::MaxvalCantBe0);
}

#[test]
fn first_image_is_returned() {
    let image = parse_ppm_image(b"P6 1 1 255 abc P6 1 1 255 def").unwrap();
    assert_eq!(channels(&image), vec![(b'a', b'b', b'c', 0)]);
    assert!(matches!(parse_ppm_image(b""), Err(ImagesFromPpmFileError::FormatNotFound)));
}

#[test]
fn pixel_views_agree() {
    let p = Pixel::from(Rgba { r: 1, g: 2, b: 3, a: 4 });
    assert_eq!(p.color(), 0x0403_0201);
    assert_eq!(Pixel::from(0x0403_0201u32), p);
    assert_eq!(p.rgba(), Rgba { r: 1, g: 2, b: 3, a: 4 });
    let mut q = p;
    q.set_color(0xff);
    assert_eq!(q.rgba(), Rgba { r: 255, g: 0, b: 0, a: 0 });
}

#[test]
fn image_pixels_can_be_replaced() {
    let mut image = Image::new(2, 1, vec![Pixel::from(1u32), Pixel::from(2u32)]);
    assert_eq!(image.pixel(1), Pixel::from(2u32));
    image.set_pixel(1, Pixel::from(7u32));
    assert_eq!(image.pixel(1).color(), 7);
    assert_eq!((image.width(), image.height()), (2, 1));
    assert_ne!(image, Image::new(2, 1, vec![Pixel::from(1u32), Pixel::from(2u32)]));
}

#[test]
fn token_values() {
    assert_eq!(token_value(b" 4093 ", 1, 5, true, 65535), Ok(4093));
    assert_eq!(token_value(b" 4093 ", 1, 5, false, 65535), Err(TokenError::NotText));
    assert_eq!(token_value(b"65536", 0, 5, true, 65535), Err(TokenError::NotANumber));
    assert_eq!(token_value(b"+7", 0, 2, true, 65535), Err(TokenError::NotANumber));
    assert_eq!(token_value(b"x", 0, 0, true, 65535), Err(TokenError::NotANumber));
}

#[test]
fn form_feed_is_not_whitespace() {
    expect_err(b"\x0cP6 1 1 255 abc", ImagesFromPpmFileError::FormatNotSupported);
    expect_err(b"P6\x0c", ImagesFromPpmFileError::NoWhitespaceAfterFormat);
    expect_err(b"P6 1\x0c1 255 abc", ImagesFromPpmFileError::WidthIsNotAUsize);
}

#[test]
fn short_two_byte_payload_is_refused_before_allocating() {
    expect_err(b"P6 2 1 1000 \x00\x01", ImagesFromPpmFileError::LessThanSizePixelsFoundInFile);
}
