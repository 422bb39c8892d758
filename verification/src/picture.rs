//! Pictures: what is done to them before they are kept or handed on.

use vstd::prelude::*;

verus! {

/// A picture. What its pixels are is left open.
pub ghost struct Picture {
    pub width: nat,
    pub height: nat,
    pub pixels: Seq<u8>,
}

/// Whether the sides of a picture are from 1 to `limit`.
pub open spec fn has_sides(p: Picture, limit: int) -> bool {
    1 <= p.width <= limit && 1 <= p.height <= limit
}

/// Whether a length is that of a side `part` once a side `whole` has become `limit`: at most
/// one pixel from the exact quotient.
pub open spec fn keeps_ratio(length: nat, part: nat, whole: nat, limit: int) -> bool {
    -whole <= length * whole - part * limit <= whole
}

/// Whether `q` is `p` scaled to a longer side of `limit`, with its ratio kept up to rounding.
pub open spec fn is_scaled(p: Picture, q: Picture, limit: int) -> bool {
    &&& p.width >= p.height ==> q.width == limit && keeps_ratio(q.height, p.height, p.width, limit)
    &&& p.height >= p.width ==> q.height == limit && keeps_ratio(q.width, p.width, p.height, limit)
}

/// `image::DynamicImage`, a picture in memory.
#[verifier::external_type_specification]
#[verifier::external_body]
pub struct ExDynamicImage(image::DynamicImage);

/// `image::ImageError`, why a picture could not be read or written.
#[verifier::external_type_specification]
#[verifier::external_body]
pub struct ExImageError(image::ImageError);

/// The picture that an `image::DynamicImage` holds.
pub uninterp spec fn picture_of(img: image::DynamicImage) -> Picture;

/// The pictures that `image::load_from_memory` may read from a file; none where it refuses
/// the file. The arithmetic of a decoder may differ from machine to machine, so that there
/// may be more than one.
pub uninterp spec fn pictures_in(file: Seq<u8>) -> Set<Picture>;

/// The pictures that `DynamicImage::resize` with the filter Lanczos3 may make of a picture.
/// It computes in floating point.
pub uninterp spec fn resized(picture: Picture, width: u32, height: u32) -> Set<Picture>;

/// The files that `JpegEncoder::encode_image` may write for a picture.
pub uninterp spec fn jpeg_files(picture: Picture, quality: u8) -> Set<Seq<u8>>;

/// The files that `DynamicImage::write_to` may write in the format WebP for a picture.
pub uninterp spec fn webp_files(picture: Picture) -> Set<Seq<u8>>;

/// Calls `image::load_from_memory`: reads a picture, of whichever format. Which files are
/// refused depends on the file alone.
#[verifier::external_body]
fn load_image(file: &[u8]) -> (r: Result<image::DynamicImage, image::ImageError>)
    ensures
        match r {
            Ok(img) => pictures_in(file@).contains(picture_of(img)),
            Err(_) => pictures_in(file@) == Set::<Picture>::empty(),
        },
{
    image::load_from_memory(file)
}

/// Calls `DynamicImage::width`.
#[verifier::external_body]
fn image_width(img: &image::DynamicImage) -> (r: u32)
    ensures
        r == picture_of(*img).width,
{
    img.width()
}

/// Calls `DynamicImage::height`.
#[verifier::external_body]
fn image_height(img: &image::DynamicImage) -> (r: u32)
    ensures
        r == picture_of(*img).height,
{
    img.height()
}

/// Calls `DynamicImage::resize` with the filter Lanczos3: scales a picture, by the same
/// factor in both directions, to the largest size that fits in the given one. So it fits,
/// it is not empty, and one of its sides is as long as it may be. Within a square that is
/// the longer side, and the other is within one pixel of the exact quotient.
#[verifier::external_body]
fn resize_image(img: &image::DynamicImage, width: u32, height: u32) -> (r: image::DynamicImage)
    requires
        1 <= width <= 65535,
        1 <= height <= 65535,
        picture_of(*img).width > 0 || picture_of(*img).height > 0,
    ensures
        resized(picture_of(*img), width, height).contains(picture_of(r)),
        1 <= picture_of(r).width <= width,
        1 <= picture_of(r).height <= height,
        picture_of(r).width == width || picture_of(r).height == height,
        width == height ==> is_scaled(picture_of(*img), picture_of(r), width as int),
{
    img.resize(width, height, image::imageops::FilterType::Lanczos3)
}

/// Makes a `JpegEncoder` with the given quality and calls its `encode_image`: writes a JPEG
/// file, unless the sides of the picture are not from 1 to 65535.
#[verifier::external_body]
fn write_jpeg(img: &image::DynamicImage, quality: u8) -> (r: Result<Vec<u8>, image::ImageError>)
    ensures
        match r {
            Ok(file) => has_sides(picture_of(*img), 65535) && jpeg_files(
                picture_of(*img),
                quality,
            ).contains(file@),
            Err(_) => !has_sides(picture_of(*img), 65535),
        },
{
    let mut file = Vec::new();
    image::codecs::jpeg::JpegEncoder::new_with_quality(&mut file, quality).encode_image(img)?;
    Ok(file)
}

/// Calls `DynamicImage::write_to` with the format WebP: writes a lossless file, unless the
/// sides of the picture are not from 1 to 16384.
#[verifier::external_body]
fn write_webp(img: &image::DynamicImage) -> (r: Result<Vec<u8>, image::ImageError>)
    ensures
        match r {
            Ok(file) => has_sides(picture_of(*img), 16384) && webp_files(picture_of(*img)).contains(
                file@,
            ),
            Err(_) => !has_sides(picture_of(*img), 16384),
        },
{
    let mut file = std::io::Cursor::new(Vec::new());
    img.write_to(&mut file, image::ImageFormat::WebP)?;
    Ok(file.into_inner())
}

/// Why a picture could not be turned into another file.
#[derive(Debug)]
pub enum PictureError {
    /// The file could not be read as a picture.
    Unreadable(image::ImageError),
    /// The picture could not be written.
    Unwritable(image::ImageError),
}

/// Whether a file is a JPEG file of the picture in another.
pub open spec fn is_jpeg_of(raw: Seq<u8>, file: Seq<u8>) -> bool {
    exists|p: Picture| #[trigger]
        pictures_in(raw).contains(p) && has_sides(p, 65535) && jpeg_files(p, 100).contains(file)
}

/// Turns the file of a picture into a JPEG file of the best quality.
pub fn convert_to_jpeg_q100(raw_bytes: &[u8]) -> (r: Result<Vec<u8>, PictureError>)
    ensures
        match r {
            Ok(file) => is_jpeg_of(raw_bytes@, file@),
            Err(PictureError::Unreadable(_)) => pictures_in(raw_bytes@) == Set::<Picture>::empty(),
            Err(PictureError::Unwritable(_)) => exists|p: Picture| #[trigger]
                pictures_in(raw_bytes@).contains(p) && !has_sides(p, 65535),
        },
{
    match load_image(raw_bytes) {
        Err(e) => Err(PictureError::Unreadable(e)),
        Ok(img) => {
            let ghost p = picture_of(img);
            assert(pictures_in(raw_bytes@).contains(p));
            match write_jpeg(&img, 100) {
                Ok(file) => Ok(file),
                Err(e) => Err(PictureError::Unwritable(e)),
            }
        },
    }
}

/// The longest side that a picture from the web may have.
pub const LONG_SIDE: u32 = 1024;

/// Whether a picture of this size is made smaller.
pub fn is_too_large(width: u32, height: u32) -> (r: bool)
    ensures
        r == (width > LONG_SIDE || height > LONG_SIDE),
{
    width > LONG_SIDE || height > LONG_SIDE
}

/// What a picture from the web is kept as: itself where no side is too long, and otherwise
/// scaled down.
pub open spec fn fitted(p: Picture) -> Set<Picture> {
    if p.width > LONG_SIDE || p.height > LONG_SIDE {
        resized(p, LONG_SIDE, LONG_SIDE)
    } else {
        set![p]
    }
}

/// Whether a file is a WebP file of the picture in another, of which no side is longer than
/// it may be. One that was larger has a longer side of that length and the same ratio up to
/// rounding; one that was not keeps its size.
pub open spec fn is_webp_of(raw: Seq<u8>, file: Seq<u8>) -> bool {
    exists|p: Picture, q: Picture| #[trigger]
        pictures_in(raw).contains(p) && #[trigger] fitted(p).contains(q) && has_sides(
            q,
            LONG_SIDE as int,
        ) && (p.width > LONG_SIDE || p.height > LONG_SIDE ==> is_scaled(
            p,
            q,
            LONG_SIDE as int,
        )) && webp_files(q).contains(file)
}

/// Whether a file may hold a picture without any pixel.
pub open spec fn may_be_empty(raw: Seq<u8>) -> bool {
    exists|p: Picture| #[trigger]
        pictures_in(raw).contains(p) && (p.width == 0 && p.height <= LONG_SIDE || p.height == 0
            && p.width <= LONG_SIDE)
}

/// Turns the file of a picture into a WebP file of which no side is longer than 1024.
pub fn resize_to_webp_1024(raw_bytes: &[u8]) -> (r: Result<Vec<u8>, PictureError>)
    ensures
        match r {
            Ok(file) => is_webp_of(raw_bytes@, file@),
            Err(PictureError::Unreadable(_)) => pictures_in(raw_bytes@) == Set::<Picture>::empty(),
            Err(PictureError::Unwritable(_)) => may_be_empty(raw_bytes@),
        },
{
    match load_image(raw_bytes) {
        Err(e) => Err(PictureError::Unreadable(e)),
        Ok(img) => {
            let ghost p = picture_of(img);
            assert(pictures_in(raw_bytes@).contains(p));
            let img = if is_too_large(image_width(&img), image_height(&img)) {
                resize_image(&img, LONG_SIDE, LONG_SIDE)
            } else {
                img
            };
            assert(fitted(p).contains(picture_of(img)));
            match write_webp(&img) {
                Ok(file) => Ok(file),
                Err(e) => Err(PictureError::Unwritable(e)),
            }
        },
    }
}

/// What a kept picture is: the picture itself where no side is longer than 1024, and otherwise
/// scaled down until its longer side is 1024, with its ratio kept to within a pixel.
pub proof fn law_kept_picture(raw: Seq<u8>, file: Seq<u8>)
    requires
        is_webp_of(raw, file),
    ensures
        exists|p: Picture, q: Picture| #[trigger]
            pictures_in(raw).contains(p) && #[trigger] webp_files(q).contains(file) && (if p.width
                <= 1024 && p.height <= 1024 {
                q == p
            } else {
                &&& resized(p, 1024, 1024).contains(q)
                &&& p.width >= p.height ==> q.width == 1024 && -p.width <= q.height * p.width
                    - p.height * 1024 <= p.width
                &&& p.height >= p.width ==> q.height == 1024 && -p.height <= q.width * p.height
                    - p.width * 1024 <= p.height
            }) && 1 <= q.width <= 1024 && 1 <= q.height <= 1024,
{
    let (p, q) = choose|p: Picture, q: Picture| #[trigger]
        pictures_in(raw).contains(p) && #[trigger] fitted(p).contains(q) && has_sides(
            q,
            LONG_SIDE as int,
        ) && (p.width > LONG_SIDE || p.height > LONG_SIDE ==> is_scaled(p, q, LONG_SIDE as int))
            && webp_files(q).contains(file);
    assert(pictures_in(raw).contains(p) && webp_files(q).contains(file));
}

/// A picture that is handed on is a JPEG file of the best quality, of the same picture.
pub proof fn law_handed_on_picture(raw: Seq<u8>, file: Seq<u8>)
    ensures
        is_jpeg_of(raw, file) <==> exists|p: Picture| #[trigger]
            pictures_in(raw).contains(p) && jpeg_files(p, 100).contains(file) && 1 <= p.width
                <= 65535 && 1 <= p.height <= 65535,
        may_be_empty(raw) ==> exists|p: Picture| #[trigger]
            pictures_in(raw).contains(p) && (p.width == 0 || p.height == 0),
{
}

}
