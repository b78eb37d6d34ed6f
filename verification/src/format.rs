//! Telling an image's format from its first bytes.

use vstd::prelude::*;

use crate::error::DistilError;

verus! {

/// The formats that an image can be recognised as.
#[derive(Clone, Copy, Debug, PartialEq, Eq, Structural)]
pub enum ImageFormat {
    PNG,
    JPEG,
    GIF,
    WEBP,
    PNM,
    TIFF,
    TGA,
    BMP,
    ICO,
    HDR,
}

/// Whether `bytes` begins with `signature`.
pub open spec fn starts_with(bytes: Seq<u8>, signature: Seq<u8>) -> bool {
    signature.len() <= bytes.len() && bytes.subrange(0, signature.len() as int) == signature
}

/// The format whose signature `bytes` begins with, if any. TGA has no
/// signature and is never recognised.
pub open spec fn sniffed(bytes: Seq<u8>) -> Option<ImageFormat> {
    if starts_with(bytes, seq![0x89u8, 0x50, 0x4e, 0x47, 0x0d, 0x0a, 0x1a, 0x0a]) {
        Some(ImageFormat::PNG)
    } else if starts_with(bytes, seq![0xffu8, 0xd8, 0xff]) {
        Some(ImageFormat::JPEG)
    } else if starts_with(bytes, seq![0x47u8, 0x49, 0x46, 0x38, 0x39, 0x61])
        || starts_with(bytes, seq![0x47u8, 0x49, 0x46, 0x38, 0x37, 0x61]) {
        Some(ImageFormat::GIF)
    } else if starts_with(bytes, seq![0x57u8, 0x45, 0x42, 0x50]) {
        Some(ImageFormat::WEBP)
    } else if starts_with(bytes, seq![0x4du8, 0x4d, 0x2e, 0x2a])
        || starts_with(bytes, seq![0x49u8, 0x49, 0x2a, 0x2e]) {
        Some(ImageFormat::TIFF)
    } else if starts_with(bytes, seq![0x42u8, 0x4d]) {
        Some(ImageFormat::BMP)
    } else if starts_with(bytes, seq![0u8, 0, 1, 0]) {
        Some(ImageFormat::ICO)
    } else if starts_with(
        bytes,
        seq![0x23u8, 0x3f, 0x52, 0x41, 0x44, 0x49, 0x41, 0x4e, 0x43, 0x45],
    ) {
        Some(ImageFormat::HDR)
    } else if bytes.len() >= 2 && bytes[0] == 0x50 && 0x31 <= bytes[1] <= 0x37 {
        Some(ImageFormat::PNM)
    } else {
        None
    }
}

/// Calls `image::guess_format`, which goes through a table of signatures
/// and gives the format of the first one that the buffer begins with, or an
/// error where it begins with none. The table holds the eight bytes of PNG,
/// `ff d8 ff` for JPEG, `GIF89a` and `GIF87a`, `WEBP`, `MM.*` and `II*.` for
/// TIFF, `BM`, `00 00 01 00` for ICO, `#?RADIANCE`, and for PNM the letter
/// `P` with one of the digits 1 to 7 behind it.
#[verifier::external_body]
fn guess_format(buffer: &[u8]) -> (format: Option<ImageFormat>)
    ensures
        format == sniffed(buffer@),
{
    match image::guess_format(buffer) {
        Ok(image::ImageFormat::PNG) => Some(ImageFormat::PNG),
        Ok(image::ImageFormat::JPEG) => Some(ImageFormat::JPEG),
        Ok(image::ImageFormat::GIF) => Some(ImageFormat::GIF),
        Ok(image::ImageFormat::WEBP) => Some(ImageFormat::WEBP),
        Ok(image::ImageFormat::PNM) => Some(ImageFormat::PNM),
        Ok(image::ImageFormat::TIFF) => Some(ImageFormat::TIFF),
        Ok(image::ImageFormat::TGA) => Some(ImageFormat::TGA),
        Ok(image::ImageFormat::BMP) => Some(ImageFormat::BMP),
        Ok(image::ImageFormat::ICO) => Some(ImageFormat::ICO),
        Ok(image::ImageFormat::HDR) => Some(ImageFormat::HDR),
        Err(_) => None,
    }
}

/// Whether the library distils images of this format.
pub open spec fn supported(format: ImageFormat) -> bool {
    format == ImageFormat::PNG || format == ImageFormat::JPEG
}

/// Tells the format of an image from the bytes it begins with. Fails with
/// `UnsupportedFormat` where they are the signature of no known format.
pub fn get_image_format(header: &[u8]) -> (format: Result<ImageFormat, DistilError>)
    ensures
        match format {
            Ok(found) => sniffed(header@) == Some(found),
            Err(err) => err is UnsupportedFormat && sniffed(header@) is None,
        },
{
    match guess_format(header) {
        Some(found) => Ok(found),
        None => Err(DistilError::UnsupportedFormat),
    }
}

/// Accepts PNG and JPEG, and fails with `UnsupportedFormat` on every other
/// format.
pub fn is_supported_format(format: ImageFormat) -> (accepted: Result<(), DistilError>)
    ensures
        accepted is Ok <==> supported(format),
        accepted is Err ==> accepted->Err_0 is UnsupportedFormat,
{
    match format {
        ImageFormat::PNG | ImageFormat::JPEG => Ok(()),
        _ => Err(DistilError::UnsupportedFormat),
    }
}

} // verus!
