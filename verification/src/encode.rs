use vstd::prelude::*;
use png::EncodingError;
use crate::image::{
    bgra_to_rgba, flip_rows, placeholder_image, swap_red_blue, flipped_image, cropped_image,
    placeholder_pixels, placeholder_spec, lemma_rows_reversed_is_flipped, content_bounds,
    crop_to_box, content_box, has_content, is_content_box, lemma_content_box_unique, crop_rows,
    content_xy,
};

verus! {

#[verifier::external_type_specification]
#[verifier::external_body]
pub struct ExEncodingError(png::EncodingError);

/// The bytes of the PNG file that the `png` crate writes, with its default
/// settings, for an 8-bit RGBA image of `width` by `height` pixels holding
/// `data`.
pub uninterp spec fn png_rgba(width: u32, height: u32, data: Seq<u8>) -> Seq<u8>;

/// Encodes an 8-bit RGBA image as PNG with the `png` crate, into memory:
/// `png::Encoder::new`, `Encoder::set_color` with `ColorType::Rgba`,
/// `Encoder::write_header`, `Writer::write_image_data` and `Writer::finish`,
/// one operation of the crate. The bytes written are those named by
/// `png_rgba`. The crate's source refuses a zero width or height (in
/// `write_header`) and pixel data whose length is not four bytes per pixel
/// (in `write_image_data`). Otherwise it succeeds: the output is an
/// in-memory buffer, and the compressed data is written in chunks under the
/// crate's chunk limit. The image is kept small enough that the crate's
/// size product (`width * 4 * height`, in `usize`) cannot overflow.
#[verifier::external_body]
fn encode_rgba_png(width: u32, height: u32, data: &Vec<u8>) -> (r: Result<Vec<u8>, EncodingError>)
    requires
        width * height * 4 <= u32::MAX,
    ensures
        r matches Ok(bytes) ==> bytes@ == png_rgba(width, height, data@),
        r is Ok <==> (width > 0 && height > 0 && data.len() == width * height * 4),
{
    let mut out: Vec<u8> = Vec::new();
    let mut encoder = png::Encoder::new(std::io::Cursor::new(&mut out), width, height);
    encoder.set_color(png::ColorType::Rgba);
    let mut writer = encoder.write_header()?;
    writer.write_image_data(data)?;
    writer.finish()?;
    Ok(out)
}

/// What can go wrong while writing a thumbnail.
#[derive(Clone, Copy, Debug, PartialEq, Eq, Structural)]
pub enum ThumbnailError {
    /// The PNG encoder refused the image.
    Encoding,
}

/// The pixels as RGBA: a transparent render is read as is; an opaque one
/// comes in BGRA order and has red and blue swapped.
pub open spec fn rgba_pixels(buffer: Seq<u8>, transparent: bool) -> Seq<u8> {
    if transparent {
        buffer
    } else {
        swap_red_blue(buffer)
    }
}

/// The pixels of the thumbnail: the render in RGBA, turned upside down, and
/// cut down to its content when `crop` holds.
pub open spec fn spec_thumbnail_pixels(buffer: Seq<u8>, size: int, transparent: bool, crop: bool) -> Seq<
    u8,
> {
    let f = flipped_image(rgba_pixels(buffer, transparent), size, size * 4);
    if crop {
        cropped_image(f, size, size, transparent)
    } else {
        f
    }
}

/// The width and height of the thumbnail: those of its content box when it
/// is cropped and has content, the render's otherwise.
pub open spec fn spec_thumbnail_size(buffer: Seq<u8>, size: int, transparent: bool, crop: bool) -> (
    int,
    int,
) {
    let f = flipped_image(rgba_pixels(buffer, transparent), size, size * 4);
    if crop && has_content(f, size, size, transparent) {
        let b = content_box(f, size, size, transparent);
        (b.1 - b.0 + 1, b.3 - b.2 + 1)
    } else {
        (size, size)
    }
}

/// Turns the pixels read back from a `size` by `size` render into the
/// thumbnail's pixels and their width and height: BGRA becomes RGBA for an
/// opaque render, the rows are turned upside down, and the picture is
/// cropped to its content when `crop` holds.
pub fn thumbnail_pixels(buffer: &Vec<u8>, size: u32, transparent: bool, crop: bool) -> (out: (
    Vec<u8>,
    u32,
    u32,
))
    requires
        size * size * 4 <= u32::MAX,
        buffer.len() >= size * size * 4,
        !transparent ==> buffer.len() % 4 == 0,
        crop ==> size > 0,
    ensures
        out.0@ == spec_thumbnail_pixels(buffer@, size as int, transparent, crop),
        (out.1 as int, out.2 as int) == spec_thumbnail_size(buffer@, size as int, transparent, crop),
        out.0@.len() == out.1 * out.2 * 4,
        out.1 <= size,
        out.2 <= size,
        size > 0 ==> out.1 > 0 && out.2 > 0,
{
    proof {
        assert(size * 4 <= u32::MAX) by (nonlinear_arith)
            requires
                size * size * 4 <= u32::MAX,
        ;
        assert(size * (size * 4) == size * size * 4) by (nonlinear_arith);
    }
    let flipped = if transparent {
        flip_rows(buffer, size)
    } else {
        let rgba = bgra_to_rgba(buffer);
        flip_rows(&rgba, size)
    };
    let ghost rgba = rgba_pixels(buffer@, transparent);
    let ghost f = flipped_image(rgba, size as int, size * 4);
    proof {
        if size > 0 {
            lemma_rows_reversed_is_flipped(flipped@, rgba, size as int, size * 4);
        } else {
            assert(flipped@ =~= flipped_image(rgba, 0, 0));
        }
    }
    assert(flipped@.len() == size * size * 4) by (nonlinear_arith)
        requires
            flipped@.len() == size * (size * 4),
    ;
    if crop {
        match content_bounds(&flipped, size, size, transparent) {
            Some(b) => {
                let (x0, x1, y0, y1) = b;
                let out = crop_to_box(&flipped, size, size, x0, x1, y0, y1);
                proof {
                    let c = content_box(f, size as int, size as int, transparent);
                    assert(is_content_box(f, size as int, size as int, transparent, c.0, c.1, c.2, c.3));
                    lemma_content_box_unique(
                        f,
                        size as int,
                        size as int,
                        transparent,
                        (x0 as int, x1 as int, y0 as int, y1 as int),
                        c,
                    );
                }
                (out, x1 - x0 + 1, y1 - y0 + 1)
            },
            None => (flipped, size, size),
        }
    } else {
        (flipped, size, size)
    }
}

/// Turns the pixels read back from a `size` by `size` render into the
/// thumbnail's PNG file: the thumbnail's pixels, encoded as a PNG of the
/// thumbnail's width and height (those of the content box when cropped). It
/// is written for every size but zero. An all-white render is a rendering
/// fault and is not taken.
pub fn thumbnail_png(buffer: &Vec<u8>, size: u32, transparent: bool, crop: bool) -> (r: Result<
    Vec<u8>,
    ThumbnailError,
>)
    requires
        size * size * 4 <= u32::MAX,
        buffer.len() >= size * size * 4,
        !transparent ==> buffer.len() % 4 == 0,
        exists|k: int| 0 <= k < buffer.len() && buffer@[k] != 255,
        crop ==> size > 0,
    ensures
        r matches Ok(bytes) ==> bytes@ == png_rgba(
            spec_thumbnail_size(buffer@, size as int, transparent, crop).0 as u32,
            spec_thumbnail_size(buffer@, size as int, transparent, crop).1 as u32,
            spec_thumbnail_pixels(buffer@, size as int, transparent, crop),
        ),
        r matches Err(e) ==> e == ThumbnailError::Encoding,
        r is Ok <==> size > 0,
{
    let (pixels, w, h) = thumbnail_pixels(buffer, size, transparent, crop);
    assert(w * h * 4 <= size * size * 4) by (nonlinear_arith)
        requires
            w <= size,
            h <= size,
    ;
    match encode_rgba_png(w, h, &pixels) {
        Ok(bytes) => Ok(bytes),
        Err(_) => Err(ThumbnailError::Encoding),
    }
}

/// The PNG file shown for an empty mesh: the placeholder image (background,
/// crossed by a red diagonal), encoded as a `size` by `size` PNG; it is
/// written for every size but zero.
pub fn placeholder_png(size: u32, transparent: bool) -> (r: Result<Vec<u8>, ThumbnailError>)
    requires
        size * size * 4 <= u32::MAX,
    ensures
        r matches Ok(bytes) ==> bytes@ == png_rgba(
            size,
            size,
            placeholder_pixels(size as int, transparent),
        ),
        r matches Err(e) ==> e == ThumbnailError::Encoding,
        r is Ok <==> size > 0,
{
    let img = placeholder_image(size, transparent);
    proof {
        let n = size * size;
        assert forall|p: int| 0 <= p < img@.len() implies img@[p] == placeholder_pixels(
            size as int,
            transparent,
        )[p] by {
            let q = p / 4;
            let c = p % 4;
            assert(p == 4 * q + c);
            assert(0 <= q < n);
            assert(img@[4 * q + c] == placeholder_spec(size as int, transparent, q, c));
        }
        assert(img@ =~= placeholder_pixels(size as int, transparent));
    }
    match encode_rgba_png(size, size, &img) {
        Ok(bytes) => Ok(bytes),
        Err(_) => Err(ThumbnailError::Encoding),
    }
}

/// The render in RGBA, turned upside down: what a thumbnail is cut from.
pub open spec fn upright_render(buffer: Seq<u8>, size: int, transparent: bool) -> Seq<u8> {
    flipped_image(rgba_pixels(buffer, transparent), size, size * 4)
}

/// A cropped thumbnail, transparent or opaque, is the upright render cut to
/// its content box `[x0, x1] x [y0, y1]` (the smallest box holding every
/// pixel with alpha above zero on a transparent render, every pixel that is
/// not white on an opaque one), row by row, and its width and height are
/// the box's.
pub proof fn lemma_cropped_thumbnail(
    buffer: Seq<u8>,
    size: int,
    transparent: bool,
    x0: int,
    x1: int,
    y0: int,
    y1: int,
)
    requires
        is_content_box(upright_render(buffer, size, transparent), size, size, transparent, x0, x1, y0, y1),
    ensures
        spec_thumbnail_pixels(buffer, size, transparent, true) == crop_rows(
            upright_render(buffer, size, transparent),
            size,
            x0,
            x1 - x0 + 1,
            y0,
            (y1 - y0 + 1) as nat,
        ),
        spec_thumbnail_size(buffer, size, transparent, true) == (x1 - x0 + 1, y1 - y0 + 1),
{
    let f = upright_render(buffer, size, transparent);
    let y = choose|y: int| #[trigger] content_xy(f, size, size, transparent, x0, y);
    assert(content_xy(f, size, size, transparent, x0, y));
    assert(has_content(f, size, size, transparent));
    assert(exists|a: int, b: int, c: int, d: int|
        is_content_box(f, size, size, transparent, a, b, c, d));
    let bx = content_box(f, size, size, transparent);
    lemma_content_box_unique(f, size, size, transparent, (x0, x1, y0, y1), bx);
}

/// A thumbnail that is not cropped, or whose upright render holds no
/// content pixel, is the whole upright render, `size` by `size`.
pub proof fn lemma_uncropped_thumbnail(buffer: Seq<u8>, size: int, transparent: bool, crop: bool)
    requires
        !crop || !has_content(upright_render(buffer, size, transparent), size, size, transparent),
    ensures
        spec_thumbnail_pixels(buffer, size, transparent, crop) == upright_render(
            buffer,
            size,
            transparent,
        ),
        spec_thumbnail_size(buffer, size, transparent, crop) == (size, size),
{
}

} // verus!
