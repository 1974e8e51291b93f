//! Facts about decoding that involve the whole buffer or several results.
use vstd::prelude::*;

use crate::image::{lemma_pack_unpack, pack, unpack, ImageView, Rgba};
use crate::ppm::{
    decode, decoded_pixel, dimensions_at, image_at, images_from, lemma_image_at_advances,
    numeric_field, pixel_bytes, ImagesFromPpmFileError, MAX_PIXELS,
};
use crate::tokenizer::{
    content_from, first_match, is_ws, lemma_content_bounds, ByteClass, COMMENT, NEWLINE,
};

verus! {

/// Every decoded image holds one pixel per cell of its grid, and every pixel has alpha 0.
pub open spec fn well_formed_output(v: Seq<ImageView>) -> bool {
    forall|k: int|
        0 <= k < v.len() ==> #[trigger] v[k].pixels.len() == v[k].width * v[k].height && (
        forall|i: int| 0 <= i < v[k].pixels.len() ==> (#[trigger] unpack(v[k].pixels[i].color)).a
            == 0)
}

proof fn lemma_image_at_well_formed(s: Seq<u8>, pos: int)
    ensures
        image_at(s, pos) matches Ok((end, img)) ==> well_formed_output(seq![img]),
{
    if let Ok((end, img)) = image_at(s, pos) {
        assert forall|i: int| 0 <= i < img.pixels.len() implies (#[trigger] unpack(
            img.pixels[i].color,
        )).a == 0 by {
            let p = img.pixels[i];
            assert(exists|c: Rgba| c.a == 0 && p.color == pack(c));
            let c = choose|c: Rgba| c.a == 0 && p.color == pack(c);
            lemma_pack_unpack(c, 0);
        }
        assert(seq![img][0] == img);
    }
}

/// Each image that a successful decode yields has exactly width times height pixels,
/// all with alpha 0.
pub proof fn lemma_decoded_images_well_formed(s: Seq<u8>, pos: int)
    ensures
        images_from(s, pos) matches Ok(v) ==> well_formed_output(v),
    decreases s.len() - pos,
{
    lemma_image_at_well_formed(s, pos);
    lemma_image_at_advances(s, pos);
    if let Ok((end, img)) = image_at(s, pos) {
        lemma_content_bounds(s, end, false);
        if let Some(next) = content_from(s, end, false) {
            lemma_decoded_images_well_formed(s, next);
            if let Ok(rest) = images_from(s, next) {
                let v = seq![img] + rest;
                assert forall|k: int| 0 <= k < v.len() implies #[trigger] v[k].pixels.len()
                    == v[k].width * v[k].height && (forall|i: int|
                    0 <= i < v[k].pixels.len() ==> (#[trigger] unpack(v[k].pixels[i].color)).a
                        == 0) by {
                    if k == 0 {
                        assert(v[k] == seq![img][0]);
                    } else {
                        assert(v[k] == rest[k - 1]);
                    }
                }
            }
        }
    }
}

/// A buffer that holds one valid image, with nothing but whitespace and comments after
/// its pixels, decodes to that one image, of width times height pixels with alpha 0.
pub proof fn lemma_single_image(s: Seq<u8>)
    requires
        image_at(s, 0) matches Ok((end, img)) && content_from(s, end, false) is None,
    ensures
        decode(s) matches Ok(v) && v.len() == 1 && v[0] == image_at(s, 0)->Ok_0.1
            && well_formed_output(v),
{
    lemma_decoded_images_well_formed(s, 0);
}

/// With a maxval of 255 each output channel is the sample byte itself.
pub proof fn lemma_maxval_255_identity(s: Seq<u8>, start: int, i: int)
    requires
        0 <= start,
        0 <= i,
        start + 3 * i + 2 < s.len(),
    ensures
        unpack(decoded_pixel(s, start, i, 255, false).color) == (Rgba {
            r: s[start + 3 * i],
            g: s[start + 3 * i + 1],
            b: s[start + 3 * i + 2],
            a: 0,
        }),
{
    let c = Rgba { r: s[start + 3 * i], g: s[start + 3 * i + 1], b: s[start + 3 * i + 2], a: 0 };
    assert forall|v: nat| v <= 255 implies #[trigger] (v * 255 / 255) == v by {
        assert(v * 255 / 255 == v) by (nonlinear_arith);
    }
    assert(decoded_pixel(s, start, i, 255, false).color == pack(c));
    lemma_pack_unpack(c, 0);
}

proof fn lemma_blank_has_no_content(s: Seq<u8>, i: int)
    requires
        0 <= i,
        forall|j: int| i <= j < s.len() ==> is_ws(#[trigger] s[j]),
    ensures
        content_from(s, i, false) is None,
    decreases s.len() - i,
{
    if i < s.len() {
        lemma_blank_has_no_content(s, i + 1);
    }
}

/// An empty buffer, or one of whitespace only, holds no format token.
pub proof fn lemma_blank_buffer(s: Seq<u8>)
    requires
        forall|j: int| 0 <= j < s.len() ==> is_ws(#[trigger] s[j]),
    ensures
        decode(s) == Err::<Seq<ImageView>, ImagesFromPpmFileError>(
            ImagesFromPpmFileError::FormatNotFound,
        ),
{
    lemma_blank_has_no_content(s, 0);
}

/// A first token other than `P6` that is ended by whitespace or a comment is not
/// supported; a first token that runs to the end of the buffer has no whitespace after it.
pub proof fn lemma_format_token(s: Seq<u8>)
    requires
        content_from(s, 0, false) is Some,
    ensures
        first_match(s, content_from(s, 0, false)->0, ByteClass::Boundary) matches Some(b) && !(
        s.subrange(content_from(s, 0, false)->0, b) =~= seq![0x50u8, 0x36u8]) ==> decode(s)
            == Err::<Seq<ImageView>, ImagesFromPpmFileError>(
            ImagesFromPpmFileError::FormatNotSupported,
        ),
        first_match(s, content_from(s, 0, false)->0, ByteClass::Boundary) is None ==> decode(s)
            == Err::<Seq<ImageView>, ImagesFromPpmFileError>(
            ImagesFromPpmFileError::NoWhitespaceAfterFormat,
        ),
{
}

/// A maxval of zero is refused.
pub proof fn lemma_zero_maxval(s: Seq<u8>, w: nat, h: nat, height_end: int, maxval_end: int)
    requires
        dimensions_at(s, 0) == Ok::<(nat, nat, int), ImagesFromPpmFileError>((w, h, height_end)),
        w * h <= usize::MAX,
        numeric_field(s, height_end, true, u16::MAX as nat) == Ok::<
            (nat, int),
            crate::ppm::TokenError,
        >((0, maxval_end)),
    ensures
        decode(s) == Err::<Seq<ImageView>, ImagesFromPpmFileError>(
            ImagesFromPpmFileError::MaxvalCantBe0,
        ),
{
}

/// A payload shorter than width times height times the bytes per pixel (three, or six
/// where the maxval exceeds 255) is refused, for grids small enough to be stored.
pub proof fn lemma_short_payload(
    s: Seq<u8>,
    w: nat,
    h: nat,
    height_end: int,
    maxval: nat,
    maxval_end: int,
)
    requires
        dimensions_at(s, 0) == Ok::<(nat, nat, int), ImagesFromPpmFileError>((w, h, height_end)),
        w * h <= MAX_PIXELS,
        numeric_field(s, height_end, true, u16::MAX as nat) == Ok::<
            (nat, int),
            crate::ppm::TokenError,
        >((maxval, maxval_end)),
        maxval > 0,
        s.len() - (maxval_end + 1) < w * h * pixel_bytes(maxval),
    ensures
        decode(s) == Err::<Seq<ImageView>, ImagesFromPpmFileError>(
            ImagesFromPpmFileError::LessThanSizePixelsFoundInFile,
        ),
{
    assert(w * h * pixel_bytes(maxval) <= usize::MAX) by (nonlinear_arith)
        requires
            w * h <= MAX_PIXELS,
            pixel_bytes(maxval) <= 6,
            MAX_PIXELS == usize::MAX / 8,
    ;
}

/// A width times height beyond the range of `usize` is refused as an overflow.
pub proof fn lemma_size_overflow(s: Seq<u8>)
    requires
        dimensions_at(s, 0) matches Ok((w, h, height_end)) && w * h > usize::MAX,
    ensures
        decode(s) == Err::<Seq<ImageView>, ImagesFromPpmFileError>(
            ImagesFromPpmFileError::WidthMulHeightOverflowsUsize,
        ),
{
}

pub open spec fn shift_pos(r: Option<int>, d: int) -> Option<int> {
    match r {
        Some(k) => Some(k + d),
        None => None,
    }
}

proof fn lemma_first_match_shift(a: Seq<u8>, b: Seq<u8>, i: int, class: ByteClass)
    requires
        0 <= i,
    ensures
        first_match(a + b, a.len() + i, class) == shift_pos(first_match(b, i, class), a.len() as int),
    decreases b.len() - i,
{
    if i < b.len() {
        assert((a + b)[a.len() + i] == b[i]);
        lemma_first_match_shift(a, b, i + 1, class);
    }
}

proof fn lemma_content_shift(a: Seq<u8>, b: Seq<u8>, i: int, in_comment: bool)
    requires
        0 <= i,
    ensures
        content_from(a + b, a.len() + i, in_comment) == shift_pos(
            content_from(b, i, in_comment),
            a.len() as int,
        ),
    decreases b.len() - i,
{
    if i < b.len() {
        assert((a + b)[a.len() + i] == b[i]);
        lemma_content_shift(a, b, i + 1, true);
        lemma_content_shift(a, b, i + 1, false);
    }
}

proof fn lemma_numeric_field_shift(a: Seq<u8>, b: Seq<u8>, i: int, ws_only: bool, limit: nat)
    requires
        0 <= i,
    ensures
        numeric_field(a + b, a.len() + i, ws_only, limit) == (match numeric_field(b, i, ws_only, limit) {
            Ok((v, e)) => Ok((v, e + a.len())),
            Err(err) => Err(err),
        }),
{
    let o = a.len() as int;
    lemma_content_shift(a, b, i, false);
    lemma_content_bounds(b, i, false);
    if let Some(x) = content_from(b, i, false) {
        lemma_first_match_shift(a, b, x, ByteClass::Boundary);
        crate::tokenizer::lemma_first_match_bounds(b, x, ByteClass::Boundary);
        if let Some(y) = first_match(b, x, ByteClass::Boundary) {
            assert((a + b).subrange(o + x, o + y) =~= b.subrange(x, y));
            assert((a + b)[o + y] == b[y]);
        }
    }
}

proof fn lemma_dimensions_shift(a: Seq<u8>, b: Seq<u8>, p: int)
    requires
        0 <= p,
    ensures
        dimensions_at(a + b, a.len() + p) == (match dimensions_at(b, p) {
            Ok((w, h, e)) => Ok((w, h, e + a.len())),
            Err(err) => Err(err),
        }),
{
    let o = a.len() as int;
    lemma_content_shift(a, b, p, false);
    lemma_content_bounds(b, p, false);
    if let Some(x) = content_from(b, p, false) {
        lemma_first_match_shift(a, b, x, ByteClass::Boundary);
        crate::tokenizer::lemma_first_match_bounds(b, x, ByteClass::Boundary);
        if let Some(y) = first_match(b, x, ByteClass::Boundary) {
            assert((a + b).subrange(o + x, o + y) =~= b.subrange(x, y));
            lemma_numeric_field_shift(a, b, y, false, usize::MAX as nat);
            crate::ppm::lemma_numeric_field_bounds(b, y, false, usize::MAX as nat);
            if let Ok((w, we)) = numeric_field(b, y, false, usize::MAX as nat) {
                lemma_numeric_field_shift(a, b, we, false, usize::MAX as nat);
            }
        }
    }
}

/// The samples of pixel `k` of a payload of `size` pixels lie inside the payload.
proof fn lemma_pixel_samples_inside(k: int, size: int, m: nat)
    requires
        0 <= k < size,
    ensures
        3 * k + 3 <= 3 * size,
        6 * k + 6 <= 6 * size,
        size * pixel_bytes(m) == (if m < 256 {
            3 * size
        } else {
            6 * size
        }),
{
    assert(3 * k + 3 <= 3 * size) by (nonlinear_arith)
        requires
            0 <= k < size,
    ;
    assert(6 * k + 6 <= 6 * size) by (nonlinear_arith)
        requires
            0 <= k < size,
    ;
}

proof fn lemma_pixels_shift(a: Seq<u8>, b: Seq<u8>, start: int, size: nat, m: nat)
    requires
        0 <= start,
        start + size * pixel_bytes(m) <= b.len(),
    ensures
        crate::ppm::decoded_pixels(a + b, a.len() + start, size, m, m >= 256) == crate::ppm::decoded_pixels(
            b,
            start,
            size,
            m,
            m >= 256,
        ),
{
    let o = a.len() as int;
    let wide = m >= 256;
    assert forall|k: int| 0 <= k < size implies #[trigger] decoded_pixel(a + b, o + start, k, m, wide)
        == decoded_pixel(b, start, k, m, wide) by {
        lemma_pixel_samples_inside(k, size as int, m);
        assert forall|j: int|
            0 <= j < (if m < 256 {
                3 * k + 3
            } else {
                6 * k + 6
            }) implies #[trigger] (a + b)[o + start + j] == b[start + j] by {}
    }
    assert(crate::ppm::decoded_pixels(a + b, o + start, size, m, m >= 256) =~= crate::ppm::decoded_pixels(
        b,
        start,
        size,
        m,
        m >= 256,
    ));
}

proof fn lemma_image_at_shift(a: Seq<u8>, b: Seq<u8>, p: int)
    requires
        0 <= p,
    ensures
        image_at(a + b, a.len() + p) == (match image_at(b, p) {
            Ok((e, img)) => Ok((e + a.len(), img)),
            Err(err) => Err(err),
        }),
{
    lemma_dimensions_shift(a, b, p);
    if let Ok((w, h, he)) = dimensions_at(b, p) {
        lemma_image_at_advances(b, p);
        assert(he >= 0) by {
            lemma_content_bounds(b, p, false);
            if let Some(x) = content_from(b, p, false) {
                crate::tokenizer::lemma_first_match_bounds(b, x, ByteClass::Boundary);
                if let Some(y) = first_match(b, x, ByteClass::Boundary) {
                    crate::ppm::lemma_numeric_field_bounds(
                        b,
                        y,
                        false,
                        usize::MAX as nat,
                    );
                    if let Ok((wv, we)) = numeric_field(b, y, false, usize::MAX as nat) {
                        crate::ppm::lemma_numeric_field_bounds(
                            b,
                            we,
                            false,
                            usize::MAX as nat,
                        );
                    }
                }
            }
        }
        lemma_numeric_field_shift(a, b, he, true, u16::MAX as nat);
        crate::ppm::lemma_numeric_field_bounds(b, he, true, u16::MAX as nat);
        if let Ok((m, me)) = numeric_field(b, he, true, u16::MAX as nat) {
            if w * h <= MAX_PIXELS && b.len() - (me + 1) >= w * h * pixel_bytes(m) {
                lemma_pixels_shift(a, b, me + 1, w * h, m);
            }
        }
    }
}

/// Decoding the images of `b` from `p` on gives the same images where `b` follows `a`.
proof fn lemma_images_from_shift(a: Seq<u8>, b: Seq<u8>, p: int)
    requires
        0 <= p,
    ensures
        images_from(a + b, a.len() + p) == images_from(b, p),
    decreases b.len() - p,
{
    lemma_image_at_shift(a, b, p);
    lemma_image_at_advances(b, p);
    if let Ok((end, img)) = image_at(b, p) {
        lemma_content_shift(a, b, end, false);
        lemma_content_bounds(b, end, false);
        if let Some(next) = content_from(b, end, false) {
            lemma_images_from_shift(a, b, next);
        }
    }
}

proof fn lemma_first_match_prefix(a: Seq<u8>, b: Seq<u8>, i: int, class: ByteClass)
    requires
        0 <= i,
        first_match(a, i, class) is Some,
    ensures
        first_match(a + b, i, class) == first_match(a, i, class),
    decreases a.len() - i,
{
    if i < a.len() && !crate::tokenizer::in_class(a[i], class) {
        lemma_first_match_prefix(a, b, i + 1, class);
    }
}

proof fn lemma_content_prefix(a: Seq<u8>, b: Seq<u8>, i: int, in_comment: bool)
    requires
        0 <= i,
        content_from(a, i, in_comment) is Some,
    ensures
        content_from(a + b, i, in_comment) == content_from(a, i, in_comment),
    decreases a.len() - i,
{
    if i < a.len() {
        if in_comment {
            lemma_content_prefix(a, b, i + 1, a[i] != NEWLINE);
        } else if is_ws(a[i]) {
            lemma_content_prefix(a, b, i + 1, false);
        } else if a[i] == COMMENT {
            lemma_content_prefix(a, b, i + 1, true);
        }
    }
}

proof fn lemma_numeric_field_prefix(a: Seq<u8>, b: Seq<u8>, i: int, ws_only: bool, limit: nat)
    requires
        0 <= i,
        numeric_field(a, i, ws_only, limit) is Ok,
    ensures
        numeric_field(a + b, i, ws_only, limit) == numeric_field(a, i, ws_only, limit),
{
    let x = content_from(a, i, false)->0;
    lemma_content_prefix(a, b, i, false);
    lemma_content_bounds(a, i, false);
    lemma_first_match_prefix(a, b, x, ByteClass::Boundary);
    crate::tokenizer::lemma_first_match_bounds(a, x, ByteClass::Boundary);
    let y = first_match(a, x, ByteClass::Boundary)->0;
    assert((a + b).subrange(x, y) =~= a.subrange(x, y));
    assert((a + b)[y] == a[y]);
}

proof fn lemma_image_at_prefix(a: Seq<u8>, b: Seq<u8>)
    requires
        image_at(a, 0) is Ok,
    ensures
        image_at(a + b, 0) == image_at(a, 0),
{
    let x = content_from(a, 0, false)->0;
    lemma_content_prefix(a, b, 0, false);
    lemma_content_bounds(a, 0, false);
    lemma_first_match_prefix(a, b, x, ByteClass::Boundary);
    crate::tokenizer::lemma_first_match_bounds(a, x, ByteClass::Boundary);
    let y = first_match(a, x, ByteClass::Boundary)->0;
    assert((a + b).subrange(x, y) =~= a.subrange(x, y));
    lemma_numeric_field_prefix(a, b, y, false, usize::MAX as nat);
    crate::ppm::lemma_numeric_field_bounds(a, y, false, usize::MAX as nat);
    let (w, we) = numeric_field(a, y, false, usize::MAX as nat)->Ok_0;
    lemma_numeric_field_prefix(a, b, we, false, usize::MAX as nat);
    crate::ppm::lemma_numeric_field_bounds(a, we, false, usize::MAX as nat);
    let (h, he) = numeric_field(a, we, false, usize::MAX as nat)->Ok_0;
    lemma_numeric_field_prefix(a, b, he, true, u16::MAX as nat);
    crate::ppm::lemma_numeric_field_bounds(a, he, true, u16::MAX as nat);
    let (m, me) = numeric_field(a, he, true, u16::MAX as nat)->Ok_0;
    let start = me + 1;
    let size = w * h;
    let wide = m >= 256;
    assert forall|k: int| 0 <= k < size implies #[trigger] decoded_pixel(a + b, start, k, m, wide)
        == decoded_pixel(a, start, k, m, wide) by {
        lemma_pixel_samples_inside(k, size as int, m);
        assert forall|j: int|
            0 <= j < (if m < 256 {
                3 * k + 3
            } else {
                6 * k + 6
            }) implies #[trigger] (a + b)[start + j] == a[start + j] by {}
    }
    assert(crate::ppm::decoded_pixels(a + b, start, size, m, m >= 256) =~= crate::ppm::decoded_pixels(
        a,
        start,
        size,
        m,
        m >= 256,
    ));
}

/// An image whose pixels end where the buffer ends, followed directly by a buffer that
/// decodes on its own, decodes to that image followed by the images of the second
/// buffer, each as decoding its own buffer alone gives it.
pub proof fn lemma_back_to_back(a: Seq<u8>, b: Seq<u8>)
    requires
        image_at(a, 0) matches Ok((end, img)) && end == a.len(),
        decode(b) is Ok,
    ensures
        decode(a) matches Ok(va) && decode(a + b) == Ok::<
            Seq<ImageView>,
            ImagesFromPpmFileError,
        >(va + decode(b)->Ok_0),
{
    let o = a.len() as int;
    let img = image_at(a, 0)->Ok_0.1;
    assert(content_from(a, o, false) is None);
    lemma_image_at_prefix(a, b);
    lemma_content_shift(a, b, 0, false);
    let first = content_from(b, 0, false)->0;
    lemma_content_bounds(b, 0, false);
    assert(content_from(b, first, false) == Some(first));
    lemma_images_from_shift(a, b, first);
    assert(images_from(b, first) == images_from(b, 0));
}

} // verus!
