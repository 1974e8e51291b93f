//! The header parser, the pixel decoder and the driver that reads images one after
//! another from a buffer.
use vstd::prelude::*;

use crate::image::{pack, Image, ImageView, Pixel, Rgba, DEFAULT_ALPHA_VALUE};
use crate::tokenizer::{
    as_pos, content_from, decimal, find_index, first_match, get_content_end_index,
    get_content_start_index, lemma_content_bounds, lemma_first_match_bounds, parse_decimal,
    is_ws, ByteClass, COMMENT,
};

verus! {

/// The path of a file that holds images, for callers that read them from disk.
pub struct PpmFilePath<'a>(pub &'a str);

/// Why a buffer could not be decoded.
#[derive(Clone, Copy, Debug, PartialEq, Eq, Structural)]
pub enum ImagesFromPpmFileError {
    FailedToOpenFile,
    FailedToReadFile,
    FormatNotFound,
    NoWhitespaceAfterFormat,
    FormatNotSupported,
    WidthNotFound,
    NoWhitespaceAfterWidth,
    WidthIsNotAUtf8String,
    WidthIsNotAUsize,
    HeightNotFound,
    NoWhitespaceAfterHeight,
    HeightIsNotAUtf8String,
    HeightIsNotAUsize,
    WidthMulHeightOverflowsUsize,
    SizeMulColorByteCountOverflows,
    MaxvalNotFound,
    NoWhitespaceAfterMaxval,
    MaxvalIsNotAUtf8String,
    MaxvalIsNotAU16,
    MaxvalCantBe0,
    FailedToAllocateImageData,
    LessThanSizePixelsFoundInFile,
}

/// Whether the bytes are well-formed UTF-8.
pub uninterp spec fn utf8_valid(b: Seq<u8>) -> bool;

/// Relies on std::str::from_utf8: it succeeds exactly on well-formed UTF-8, which every
/// run of ASCII bytes is.
#[verifier::external_body]
fn is_utf8(bytes: &[u8]) -> (r: bool)
    ensures
        r == utf8_valid(bytes@),
        (forall|i: int| 0 <= i < bytes@.len() ==> bytes@[i] < 0x80) ==> r,
{
    std::str::from_utf8(bytes).is_ok()
}

/// Relies on Vec::try_reserve_exact: it leaves the elements as they are, whether or
/// not the allocator grants the room.
#[verifier::external_body]
fn reserve_exact(pixels: &mut Vec<Pixel>, additional: usize) -> (r: bool)
    ensures
        final(pixels)@ == old(pixels)@,
{
    pixels.try_reserve_exact(additional).is_ok()
}

/// The most pixels one image may hold: room for more, at four bytes each, would exceed
/// the largest allocation that Rust permits (`isize::MAX` bytes).
pub const MAX_PIXELS: usize = usize::MAX / 8;

/// A header field holding a number.
#[derive(Clone, Copy, Debug, PartialEq, Eq, Structural)]
pub enum Field {
    Width,
    Height,
    Maxval,
}

/// How reading a numeric field can fail.
#[derive(Clone, Copy, Debug, PartialEq, Eq, Structural)]
pub enum TokenError {
    NotFound,
    Unterminated,
    NotText,
    NotANumber,
}

pub open spec fn field_error(field: Field, e: TokenError) -> ImagesFromPpmFileError {
    match (field, e) {
        (Field::Width, TokenError::NotFound) => ImagesFromPpmFileError::WidthNotFound,
        (Field::Width, TokenError::Unterminated) => ImagesFromPpmFileError::NoWhitespaceAfterWidth,
        (Field::Width, TokenError::NotText) => ImagesFromPpmFileError::WidthIsNotAUtf8String,
        (Field::Width, TokenError::NotANumber) => ImagesFromPpmFileError::WidthIsNotAUsize,
        (Field::Height, TokenError::NotFound) => ImagesFromPpmFileError::HeightNotFound,
        (Field::Height, TokenError::Unterminated) =>
            ImagesFromPpmFileError::NoWhitespaceAfterHeight,
        (Field::Height, TokenError::NotText) => ImagesFromPpmFileError::HeightIsNotAUtf8String,
        (Field::Height, TokenError::NotANumber) => ImagesFromPpmFileError::HeightIsNotAUsize,
        (Field::Maxval, TokenError::NotFound) => ImagesFromPpmFileError::MaxvalNotFound,
        (Field::Maxval, TokenError::Unterminated) =>
            ImagesFromPpmFileError::NoWhitespaceAfterMaxval,
        (Field::Maxval, TokenError::NotText) => ImagesFromPpmFileError::MaxvalIsNotAUtf8String,
        (Field::Maxval, TokenError::NotANumber) => ImagesFromPpmFileError::MaxvalIsNotAU16,
    }
}

fn to_field_error(field: Field, e: TokenError) -> (r: ImagesFromPpmFileError)
    ensures
        r == field_error(field, e),
{
    match (field, e) {
        (Field::Width, TokenError::NotFound) => ImagesFromPpmFileError::WidthNotFound,
        (Field::Width, TokenError::Unterminated) => ImagesFromPpmFileError::NoWhitespaceAfterWidth,
        (Field::Width, TokenError::NotText) => ImagesFromPpmFileError::WidthIsNotAUtf8String,
        (Field::Width, TokenError::NotANumber) => ImagesFromPpmFileError::WidthIsNotAUsize,
        (Field::Height, TokenError::NotFound) => ImagesFromPpmFileError::HeightNotFound,
        (Field::Height, TokenError::Unterminated) =>
            ImagesFromPpmFileError::NoWhitespaceAfterHeight,
        (Field::Height, TokenError::NotText) => ImagesFromPpmFileError::HeightIsNotAUtf8String,
        (Field::Height, TokenError::NotANumber) => ImagesFromPpmFileError::HeightIsNotAUsize,
        (Field::Maxval, TokenError::NotFound) => ImagesFromPpmFileError::MaxvalNotFound,
        (Field::Maxval, TokenError::Unterminated) =>
            ImagesFromPpmFileError::NoWhitespaceAfterMaxval,
        (Field::Maxval, TokenError::NotText) => ImagesFromPpmFileError::MaxvalIsNotAUtf8String,
        (Field::Maxval, TokenError::NotANumber) => ImagesFromPpmFileError::MaxvalIsNotAU16,
    }
}

/// The next token at or after `from`, which ends at whitespace or a comment, read as a
/// number of at most `limit`; with the position of the byte that ends it. Where
/// `ws_only`, that byte must be whitespace: a token ended by a comment is unterminated.
pub open spec fn numeric_field(s: Seq<u8>, from: int, ws_only: bool, limit: nat) -> Result<
    (nat, int),
    TokenError,
> {
    match content_from(s, from, false) {
        None => Err(TokenError::NotFound),
        Some(a) => match first_match(s, a, ByteClass::Boundary) {
            None => Err(TokenError::Unterminated),
            Some(b) => if ws_only && !is_ws(s[b]) {
                Err(TokenError::Unterminated)
            } else if !utf8_valid(s.subrange(a, b)) {
                Err(TokenError::NotText)
            } else {
                match decimal(s.subrange(a, b), limit) {
                    None => Err(TokenError::NotANumber),
                    Some(v) => Ok((v, b)),
                }
            },
        },
    }
}

pub proof fn lemma_numeric_field_bounds(s: Seq<u8>, from: int, ws_only: bool, limit: nat)
    ensures
        numeric_field(s, from, ws_only, limit) matches Ok((v, b)) ==> from <= b < s.len() && v
            <= limit,
{
    lemma_content_bounds(s, from, false);
    if let Some(a) = content_from(s, from, false) {
        lemma_first_match_bounds(s, a, ByteClass::Boundary);
    }
}

fn read_numeric_field(slice: &[u8], from: usize, ws_only: bool, limit: usize) -> (r: Result<
    (usize, usize),
    TokenError,
>)
    ensures
        match r {
            Ok((v, b)) => numeric_field(slice@, from as int, ws_only, limit as nat) == Ok::<
                (nat, int),
                TokenError,
            >((v as nat, b as int)),
            Err(e) => numeric_field(slice@, from as int, ws_only, limit as nat) == Err::<
                (nat, int),
                TokenError,
            >(e),
        },
        r matches Ok((v, b)) ==> from <= b < slice@.len() && v <= limit,
{
    let start = match get_content_start_index(slice, from) {
        Some(a) => a,
        None => return Err(TokenError::NotFound),
    };
    let end = match get_content_end_index(slice, start) {
        Some(b) => b,
        None => return Err(TokenError::Unterminated),
    };
    if ws_only && slice[end] == COMMENT {
        return Err(TokenError::Unterminated);
    }
    let token = vstd::slice::slice_subrange(slice, start, end);
    match token_value(slice, start, end, is_utf8(token), limit) {
        Ok(v) => Ok((v, end)),
        Err(e) => Err(e),
    }
}

/// The value of the token `slice[start..end]`, given whether its bytes are text: not
/// text, not a number of at most `limit`, or that number.
pub fn token_value(slice: &[u8], start: usize, end: usize, is_text: bool, limit: usize) -> (r: Result<
    usize,
    TokenError,
>)
    requires
        start <= end <= slice@.len(),
    ensures
        !is_text ==> r == Err::<usize, TokenError>(TokenError::NotText),
        is_text ==> match decimal(slice@.subrange(start as int, end as int), limit as nat) {
            Some(v) => r matches Ok(x) && x as nat == v,
            None => r == Err::<usize, TokenError>(TokenError::NotANumber),
        },
{
    if !is_text {
        return Err(TokenError::NotText);
    }
    match parse_decimal(slice, start, end, limit) {
        Some(v) => Ok(v),
        None => Err(TokenError::NotANumber),
    }
}

/// The format token of this format.
pub open spec fn is_p6(t: Seq<u8>) -> bool {
    t == seq![0x50u8, 0x36u8]
}

/// Raw sample `j` of the payload that starts at `start`: one byte, or two in
/// big-endian order where `wide`.
pub open spec fn sample(s: Seq<u8>, start: int, j: int, wide: bool) -> nat {
    if wide {
        s[start + 2 * j] as nat * 256 + s[start + 2 * j + 1] as nat
    } else {
        s[start + j] as nat
    }
}

/// A sample rescaled from `0..=maxval` to `0..=255`: `floor(v * 255 / maxval)`, where a
/// sample above `maxval` gives 255.
pub open spec fn scale(v: nat, maxval: nat) -> u8 {
    if v * 255 / maxval >= 255 {
        255
    } else {
        (v * 255 / maxval) as u8
    }
}

/// Output channel `j` of the payload that starts at `start`.
pub open spec fn channel(s: Seq<u8>, start: int, j: int, maxval: nat, wide: bool) -> u8 {
    scale(sample(s, start, j, wide), maxval)
}

/// Pixel `i` of the payload that starts at `start`.
pub open spec fn decoded_pixel(s: Seq<u8>, start: int, i: int, maxval: nat, wide: bool) -> Pixel {
    Pixel {
        color: pack(
            Rgba {
                r: channel(s, start, 3 * i, maxval, wide),
                g: channel(s, start, 3 * i + 1, maxval, wide),
                b: channel(s, start, 3 * i + 2, maxval, wide),
                a: DEFAULT_ALPHA_VALUE,
            },
        ),
    }
}

/// The first `count` pixels of the payload that starts at `start`, with samples of two
/// bytes where `wide`.
pub open spec fn decoded_pixels(s: Seq<u8>, start: int, count: nat, maxval: nat, wide: bool) -> Seq<
    Pixel,
> {
    Seq::new(count, |i: int| decoded_pixel(s, start, i, maxval, wide))
}

/// Bytes per pixel: three samples of one byte, or of two where `maxval` exceeds 255.
pub open spec fn pixel_bytes(maxval: nat) -> nat {
    if maxval < 256 {
        3
    } else {
        6
    }
}

/// The pixel payload of a `width` by `height` image that starts at `start`: the image,
/// with the position just past the payload.
pub open spec fn pixel_payload(s: Seq<u8>, start: int, width: nat, height: nat, maxval: nat) -> Result<
    (int, ImageView),
    ImagesFromPpmFileError,
> {
    let size = width * height;
    if size > MAX_PIXELS {
        Err(ImagesFromPpmFileError::FailedToAllocateImageData)
    } else if size * pixel_bytes(maxval) > usize::MAX {
        Err(ImagesFromPpmFileError::SizeMulColorByteCountOverflows)
    } else if s.len() - start < size * pixel_bytes(maxval) {
        Err(ImagesFromPpmFileError::LessThanSizePixelsFoundInFile)
    } else {
        Ok(
            (
                start + size * pixel_bytes(maxval),
                ImageView {
                    width: width as usize,
                    height: height as usize,
                    pixels: decoded_pixels(s, start, size, maxval, maxval >= 256),
                },
            ),
        )
    }
}

/// The format, width and height fields of the header that starts at or after `pos`:
/// the width, the height, and the position of the byte that ends the height.
pub open spec fn dimensions_at(s: Seq<u8>, pos: int) -> Result<(nat, nat, int), ImagesFromPpmFileError> {
    match content_from(s, pos, false) {
        None => Err(ImagesFromPpmFileError::FormatNotFound),
        Some(fa) => match first_match(s, fa, ByteClass::Boundary) {
            None => Err(ImagesFromPpmFileError::NoWhitespaceAfterFormat),
            Some(fb) => if !is_p6(s.subrange(fa, fb)) {
                Err(ImagesFromPpmFileError::FormatNotSupported)
            } else {
                match numeric_field(s, fb, false, usize::MAX as nat) {
                    Err(e) => Err(field_error(Field::Width, e)),
                    Ok((w, we)) => match numeric_field(
                        s,
                        we,
                        false,
                        usize::MAX as nat,
                    ) {
                        Err(e) => Err(field_error(Field::Height, e)),
                        Ok((h, he)) => Ok((w, h, he)),
                    },
                }
            },
        },
    }
}

/// One image whose header starts at or after `pos`: the image, with the position just
/// past its pixels. Exactly one byte of whitespace separates the maxval from the pixels.
pub open spec fn image_at(s: Seq<u8>, pos: int) -> Result<(int, ImageView), ImagesFromPpmFileError> {
    match dimensions_at(s, pos) {
        Err(e) => Err(e),
        Ok((w, h, he)) => if w * h > usize::MAX {
            Err(ImagesFromPpmFileError::WidthMulHeightOverflowsUsize)
        } else {
            match numeric_field(s, he, true, u16::MAX as nat) {
                Err(e) => Err(field_error(Field::Maxval, e)),
                Ok((m, me)) => if m == 0 {
                    Err(ImagesFromPpmFileError::MaxvalCantBe0)
                } else {
                    pixel_payload(s, me + 1, w, h, m)
                },
            }
        },
    }
}

/// `floor(color * 255 / maxval)`, or 255 where that exceeds 255.
fn convert_u8_maxval_color(color: u8, maxval: u8) -> (r: u8)
    requires
        maxval > 0,
    ensures
        r == scale(color as nat, maxval as nat),
{
    assert((color as u32) * 255 <= 255 * 255) by (nonlinear_arith);
    let q = (color as u32) * 255 / (maxval as u32);
    if q >= 255 {
        255
    } else {
        q as u8
    }
}

/// `floor(color * 255 / maxval)`, or 255 where that exceeds 255.
fn convert_u16_maxval_color(color: u16, maxval: u16) -> (r: u8)
    requires
        maxval > 0,
    ensures
        r == scale(color as nat, maxval as nat),
{
    assert((color as u32) * 255 <= 65535 * 255) by (nonlinear_arith);
    let q = (color as u32) * 255 / (maxval as u32);
    if q >= 255 {
        255
    } else {
        q as u8
    }
}

/// What decoding a payload of `size` pixels at `start` appends, or why it fails.
/// `bytes` per pixel: the number of bytes read, or why the payload cannot be read.
pub open spec fn payload_outcome(s: Seq<u8>, start: int, size: nat, bytes: nat) -> Result<
    nat,
    ImagesFromPpmFileError,
> {
    if size * bytes > usize::MAX {
        Err(ImagesFromPpmFileError::SizeMulColorByteCountOverflows)
    } else if s.len() - start < size * bytes {
        Err(ImagesFromPpmFileError::LessThanSizePixelsFoundInFile)
    } else {
        Ok(size * bytes)
    }
}

/// Decodes `size` pixels of one-byte samples at `start`, appending them to `image_data`;
/// returns the number of bytes read.
fn read_image_from_u8_maxval(
    raw_image_data: &[u8],
    start: usize,
    size: usize,
    maxval: u8,
    image_data: &mut Vec<Pixel>,
) -> (r: Result<usize, ImagesFromPpmFileError>)
    requires
        start <= raw_image_data@.len(),
        maxval > 0,
    ensures
        match r {
            Ok(n) => payload_outcome(raw_image_data@, start as int, size as nat, 3)
                == Ok::<nat, ImagesFromPpmFileError>(n as nat) && final(image_data)@ == old(
                image_data,
            )@ + decoded_pixels(raw_image_data@, start as int, size as nat, maxval as nat, false),
            Err(e) => payload_outcome(raw_image_data@, start as int, size as nat, 3)
                == Err::<nat, ImagesFromPpmFileError>(e) && final(image_data)@ == old(image_data)@,
        },
{
    let limit = match size.checked_mul(3) {
        Some(l) => l,
        None => return Err(ImagesFromPpmFileError::SizeMulColorByteCountOverflows),
    };
    let len = raw_image_data.len();
    if len - start < limit {
        return Err(ImagesFromPpmFileError::LessThanSizePixelsFoundInFile);
    }
    let ghost s = raw_image_data@;
    let ghost m = maxval as nat;
    let ghost before = image_data@;
    let mut i: usize = 0;
    while i < size
        invariant
            i <= size,
            limit == size * 3,
            start + limit <= len,
            len == raw_image_data@.len(),
            s == raw_image_data@,
            m == maxval as nat,
            maxval > 0,
            image_data@ == before + decoded_pixels(s, start as int, i as nat, m, false),
        decreases size - i,
    {
        assert(start + 3 * i + 3 <= raw_image_data@.len()) by (nonlinear_arith)
            requires
                i < size,
                limit == size * 3,
                start + limit <= len,
                len == raw_image_data@.len(),
        ;
        let base = start + 3 * i;
        let pixel = Pixel::from(
            Rgba {
                r: convert_u8_maxval_color(raw_image_data[base], maxval),
                g: convert_u8_maxval_color(raw_image_data[base + 1], maxval),
                b: convert_u8_maxval_color(raw_image_data[base + 2], maxval),
                a: DEFAULT_ALPHA_VALUE,
            },
        );
        assert(pixel == decoded_pixel(s, start as int, i as int, m, false));
        image_data.push(pixel);
        assert(decoded_pixels(s, start as int, (i + 1) as nat, m, false) =~= decoded_pixels(
            s,
            start as int,
            i as nat,
            m,
            false,
        ).push(pixel));
        i = i + 1;
    }
    Ok(limit)
}

/// Decodes `size` pixels of two-byte big-endian samples at `start`, appending them to
/// `image_data`; returns the number of bytes read.
fn read_image_from_u16_maxval(
    raw_image_data: &[u8],
    start: usize,
    size: usize,
    maxval: u16,
    image_data: &mut Vec<Pixel>,
) -> (r: Result<usize, ImagesFromPpmFileError>)
    requires
        start <= raw_image_data@.len(),
        maxval > 0,
    ensures
        match r {
            Ok(n) => payload_outcome(raw_image_data@, start as int, size as nat, 6)
                == Ok::<nat, ImagesFromPpmFileError>(n as nat) && final(image_data)@ == old(
                image_data,
            )@ + decoded_pixels(raw_image_data@, start as int, size as nat, maxval as nat, true),
            Err(e) => payload_outcome(raw_image_data@, start as int, size as nat, 6)
                == Err::<nat, ImagesFromPpmFileError>(e) && final(image_data)@ == old(image_data)@,
        },
{
    let limit = match size.checked_mul(6) {
        Some(l) => l,
        None => return Err(ImagesFromPpmFileError::SizeMulColorByteCountOverflows),
    };
    let len = raw_image_data.len();
    if len - start < limit {
        return Err(ImagesFromPpmFileError::LessThanSizePixelsFoundInFile);
    }
    let ghost s = raw_image_data@;
    let ghost m = maxval as nat;
    let ghost before = image_data@;
    let mut i: usize = 0;
    while i < size
        invariant
            i <= size,
            limit == size * 6,
            start + limit <= len,
            len == raw_image_data@.len(),
            s == raw_image_data@,
            m == maxval as nat,
            maxval > 0,
            image_data@ == before + decoded_pixels(s, start as int, i as nat, m, true),
        decreases size - i,
    {
        assert(start + 6 * i + 6 <= raw_image_data@.len()) by (nonlinear_arith)
            requires
                i < size,
                limit == size * 6,
                start + limit <= len,
                len == raw_image_data@.len(),
        ;
        let base = start + 6 * i;
        let r = ((raw_image_data[base] as u16) << 8u16) | raw_image_data[base + 1] as u16;
        let g = ((raw_image_data[base + 2] as u16) << 8u16) | raw_image_data[base + 3] as u16;
        let b = ((raw_image_data[base + 4] as u16) << 8u16) | raw_image_data[base + 5] as u16;
        proof {
            let (x0, x1, x2, x3, x4, x5) = (
                raw_image_data[base as int],
                raw_image_data[base + 1],
                raw_image_data[base + 2],
                raw_image_data[base + 3],
                raw_image_data[base + 4],
                raw_image_data[base + 5],
            );
            assert(((x0 as u16) << 8u16) | x1 as u16 == x0 as u16 * 256 + x1 as u16) by (bit_vector);
            assert(((x2 as u16) << 8u16) | x3 as u16 == x2 as u16 * 256 + x3 as u16) by (bit_vector);
            assert(((x4 as u16) << 8u16) | x5 as u16 == x4 as u16 * 256 + x5 as u16) by (bit_vector);
            assert(base + 2 == start + 2 * (3 * i + 1));
            assert(base + 4 == start + 2 * (3 * i + 2));
        }
        let pixel = Pixel::from(
            Rgba {
                r: convert_u16_maxval_color(r, maxval),
                g: convert_u16_maxval_color(g, maxval),
                b: convert_u16_maxval_color(b, maxval),
                a: DEFAULT_ALPHA_VALUE,
            },
        );
        assert(pixel == decoded_pixel(s, start as int, i as int, m, true));
        image_data.push(pixel);
        assert(decoded_pixels(s, start as int, (i + 1) as nat, m, true) =~= decoded_pixels(
            s,
            start as int,
            i as nat,
            m,
            true,
        ).push(pixel));
        i = i + 1;
    }
    Ok(limit)
}

/// Checks that the payload at `start` holds `size` pixels, reserves room for exactly
/// that many and decodes them; returns the number of bytes read and the image. Where
/// `pixel_payload` succeeds, the allocator may still refuse the room.
fn read_image(
    raw_image_data: &[u8],
    start: usize,
    width: usize,
    height: usize,
    size: usize,
    maxval: u16,
) -> (r: Result<(usize, Image), ImagesFromPpmFileError>)
    requires
        start <= raw_image_data@.len(),
        size == width * height,
        maxval > 0,
    ensures
        r matches Ok((n, img)) ==> pixel_payload(
            raw_image_data@,
            start as int,
            width as nat,
            height as nat,
            maxval as nat,
        ) == Ok::<(int, ImageView), ImagesFromPpmFileError>((start + n, img@)) && img.wf(),
        r matches Err(e) ==> pixel_payload(
            raw_image_data@,
            start as int,
            width as nat,
            height as nat,
            maxval as nat,
        ) == Err::<(int, ImageView), ImagesFromPpmFileError>(e) || (e
            == ImagesFromPpmFileError::FailedToAllocateImageData && pixel_payload(
            raw_image_data@,
            start as int,
            width as nat,
            height as nat,
            maxval as nat,
        ) is Ok),
{
    if size > MAX_PIXELS {
        return Err(ImagesFromPpmFileError::FailedToAllocateImageData);
    }
    let bytes_per_pixel: usize = if maxval < 256 {
        3
    } else {
        6
    };
    let limit = match size.checked_mul(bytes_per_pixel) {
        Some(l) => l,
        None => return Err(ImagesFromPpmFileError::SizeMulColorByteCountOverflows),
    };
    if raw_image_data.len() - start < limit {
        return Err(ImagesFromPpmFileError::LessThanSizePixelsFoundInFile);
    }
    let mut image_data: Vec<Pixel> = Vec::new();
    if !reserve_exact(&mut image_data, size) {
        return Err(ImagesFromPpmFileError::FailedToAllocateImageData);
    }
    let bytes_read = if maxval < 256 {
        match read_image_from_u8_maxval(raw_image_data, start, size, maxval as u8, &mut image_data) {
            Ok(n) => n,
            Err(e) => return Err(e),
        }
    } else {
        match read_image_from_u16_maxval(raw_image_data, start, size, maxval, &mut image_data) {
            Ok(n) => n,
            Err(e) => return Err(e),
        }
    };
    assert(image_data@ =~= decoded_pixels(
        raw_image_data@,
        start as int,
        size as nat,
        maxval as nat,
        maxval >= 256,
    ));
    Ok((bytes_read, Image::new(width, height, image_data)))
}

/// Parses the header of the image that starts at or after `pos`, then its pixels;
/// returns the position just past them and the image.
fn parse_image(file_content: &[u8], pos: usize) -> (r: Result<(usize, Image), ImagesFromPpmFileError>)
    ensures
        r matches Ok((end, img)) ==> image_at(file_content@, pos as int) == Ok::<
            (int, ImageView),
            ImagesFromPpmFileError,
        >((end as int, img@)) && pos < end <= file_content@.len() && img.wf(),
        r matches Err(e) ==> image_at(file_content@, pos as int) == Err::<
            (int, ImageView),
            ImagesFromPpmFileError,
        >(e) || (e == ImagesFromPpmFileError::FailedToAllocateImageData && image_at(
            file_content@,
            pos as int,
        ) is Ok),
{
    let format_start = match get_content_start_index(file_content, pos) {
        Some(i) => i,
        None => return Err(ImagesFromPpmFileError::FormatNotFound),
    };
    let format_end = match get_content_end_index(file_content, format_start) {
        Some(i) => i,
        None => return Err(ImagesFromPpmFileError::NoWhitespaceAfterFormat),
    };
    let ghost format = file_content@.subrange(format_start as int, format_end as int);
    if !(format_end - format_start == 2 && file_content[format_start] == 0x50
        && file_content[format_start + 1] == 0x36) {
        proof {
            if format.len() == 2 {
                assert(format[0] == file_content@[format_start as int]);
                assert(format[1] == file_content@[format_start + 1]);
            }
        }
        return Err(ImagesFromPpmFileError::FormatNotSupported);
    }
    assert(format =~= seq![0x50u8, 0x36u8]);
    let (width, width_end) = match read_numeric_field(
        file_content,
        format_end,
        false,
        usize::MAX,
    ) {
        Ok(f) => f,
        Err(e) => return Err(to_field_error(Field::Width, e)),
    };
    let (height, height_end) = match read_numeric_field(
        file_content,
        width_end,
        false,
        usize::MAX,
    ) {
        Ok(f) => f,
        Err(e) => return Err(to_field_error(Field::Height, e)),
    };
    let size = match width.checked_mul(height) {
        Some(n) => n,
        None => return Err(ImagesFromPpmFileError::WidthMulHeightOverflowsUsize),
    };
    let (maxval, maxval_end) = match read_numeric_field(
        file_content,
        height_end,
        true,
        0xffff,
    ) {
        Ok(f) => f,
        Err(e) => return Err(to_field_error(Field::Maxval, e)),
    };
    if maxval == 0 {
        return Err(ImagesFromPpmFileError::MaxvalCantBe0);
    }
    let start = maxval_end + 1;
    match read_image(file_content, start, width, height, size, maxval as u16) {
        Ok((bytes_read, image)) => Ok((start + bytes_read, image)),
        Err(e) => Err(e),
    }
}

/// The images of the buffer from the header that starts at or after `pos` on, each
/// one read where the previous one's pixels end.
pub open spec fn images_from(s: Seq<u8>, pos: int) -> Result<Seq<ImageView>, ImagesFromPpmFileError>
    decreases s.len() - pos,
    via images_from_decreases
{
    match image_at(s, pos) {
        Err(e) => Err(e),
        Ok((end, img)) => match content_from(s, end, false) {
            None => Ok(seq![img]),
            Some(next) => match images_from(s, next) {
                Err(e) => Err(e),
                Ok(rest) => Ok(seq![img] + rest),
            },
        },
    }
}

/// Parsing an image moves forward and stays in the buffer.
pub proof fn lemma_image_at_advances(s: Seq<u8>, pos: int)
    ensures
        image_at(s, pos) matches Ok((end, img)) ==> pos < end <= s.len(),
{
    lemma_content_bounds(s, pos, false);
    if let Some(fa) = content_from(s, pos, false) {
        lemma_first_match_bounds(s, fa, ByteClass::Boundary);
        if let Some(fb) = first_match(s, fa, ByteClass::Boundary) {
            lemma_numeric_field_bounds(s, fb, false, usize::MAX as nat);
            if let Ok((w, we)) = numeric_field(s, fb, false, usize::MAX as nat) {
                lemma_numeric_field_bounds(s, we, false, usize::MAX as nat);
                if let Ok((h, he)) = numeric_field(s, we, false, usize::MAX as nat) {
                    lemma_numeric_field_bounds(s, he, true, u16::MAX as nat);
                }
            }
        }
    }
}

#[via_fn]
proof fn images_from_decreases(s: Seq<u8>, pos: int) {
    lemma_image_at_advances(s, pos);
    if let Ok((end, img)) = image_at(s, pos) {
        lemma_content_bounds(s, end, false);
    }
}

/// The images of the whole buffer.
pub open spec fn decode(s: Seq<u8>) -> Result<Seq<ImageView>, ImagesFromPpmFileError> {
    images_from(s, 0)
}

pub open spec fn views(images: Seq<Image>) -> Seq<ImageView> {
    images.map_values(|i: Image| i@)
}

pub open spec fn prepend(
    pre: Seq<ImageView>,
    r: Result<Seq<ImageView>, ImagesFromPpmFileError>,
) -> Result<Seq<ImageView>, ImagesFromPpmFileError> {
    match r {
        Ok(rest) => Ok(pre + rest),
        Err(e) => Err(e),
    }
}

/// Decodes every image of the buffer, in order. Fails on the first error anywhere, or
/// where the allocator refuses the room for an image's pixels, which can only happen
/// once the first image has been found well formed.
pub fn parse_ppm_file(file_content: &[u8]) -> (r: Result<Vec<Image>, ImagesFromPpmFileError>)
    ensures
        r matches Ok(images) ==> decode(file_content@) == Ok::<
            Seq<ImageView>,
            ImagesFromPpmFileError,
        >(views(images@)),
        r matches Err(e) ==> decode(file_content@) == Err::<
            Seq<ImageView>,
            ImagesFromPpmFileError,
        >(e) || (e == ImagesFromPpmFileError::FailedToAllocateImageData && image_at(
            file_content@,
            0,
        ) is Ok),
{
    let ghost s = file_content@;
    if file_content.len() == 0 {
        return Err(ImagesFromPpmFileError::FormatNotFound);
    }
    let mut images: Vec<Image> = Vec::new();
    let mut cursor: usize = 0;
    assert(seq![] + images_from(s, 0)->Ok_0 =~= images_from(s, 0)->Ok_0);
    loop
        invariant
            s == file_content@,
            cursor < file_content@.len(),
            decode(s) == prepend(views(images@), images_from(s, cursor as int)),
            images@.len() == 0 ==> cursor == 0,
            images@.len() > 0 ==> image_at(s, 0) is Ok,
        decreases file_content@.len() - cursor,
    {
        let (end, image) = match parse_image(file_content, cursor) {
            Ok(parsed) => parsed,
            Err(e) => return Err(e),
        };
        let ghost pre = views(images@);
        images.push(image);
        assert(views(images@) =~= pre + seq![image@]);
        match get_content_start_index(file_content, end) {
            Some(next) => {
                proof {
                    if let Ok(rest) = images_from(s, next as int) {
                        assert((pre + seq![image@]) + rest =~= pre + (seq![image@] + rest));
                    }
                }
                cursor = next;
            },
            None => return Ok(images),
        }
    }
}

/// Decodes the first image of the buffer; fails as `parse_ppm_file` does.
pub fn parse_ppm_image(file_content: &[u8]) -> (r: Result<Image, ImagesFromPpmFileError>)
    ensures
        r matches Ok(img) ==> decode(file_content@) matches Ok(v) && v.len() >= 1 && img@
            == v[0],
        r matches Err(e) ==> decode(file_content@) == Err::<
            Seq<ImageView>,
            ImagesFromPpmFileError,
        >(e) || (e == ImagesFromPpmFileError::FailedToAllocateImageData && image_at(
            file_content@,
            0,
        ) is Ok),
{
    let mut images = match parse_ppm_file(file_content) {
        Ok(images) => images,
        Err(e) => return Err(e),
    };
    assert(views(images@).len() >= 1);
    Ok(images.remove(0))
}

} // verus!
