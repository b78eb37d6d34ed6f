use distil::error::DistilError;
use distil::format::{get_image_format, is_supported_format, ImageFormat};

#[test]
fn png_and_jpeg_are_recognised() {
    let png = [0x89, b'P', b'N', b'G', b'\r', b'\n', 0x1a, b'\n', 0, 0, 0, 13];
    assert_eq!(get_image_format(&png).unwrap(), ImageFormat::PNG);
    let jpeg = [0xff, 0xd8, 0xff, 0xe0, 0, 16];
    assert_eq!(get_image_format(&jpeg).unwrap(), ImageFormat::JPEG);
}

#[test]
fn other_signatures_are_recognised() {
    assert_eq!(get_image_format(b"GIF89a\x01\x00").unwrap(), ImageFormat::GIF);
    assert_eq!(get_image_format(b"GIF87a").unwrap(), ImageFormat::GIF);
    assert_eq!(get_image_format(b"WEBPxxxx").unwrap(), ImageFormat::WEBP);
    assert_eq!(get_image_format(b"MM.*rest").unwrap(), ImageFormat::TIFF);
    assert_eq!(get_image_format(b"II*.rest").unwrap(), ImageFormat::TIFF);
    assert_eq!(get_image_format(b"BM\x00\x00").unwrap(), ImageFormat::BMP);
    assert_eq!(get_image_format(&[0, 0, 1, 0, 1, 0]).unwrap(), ImageFormat::ICO);
    assert_eq!(get_image_format(b"#?RADIANCE\n").unwrap(), ImageFormat::HDR);
    assert_eq!(get_image_format(&[b'P', b'1', b'\n']).unwrap(), ImageFormat::PNM);
    assert_eq!(get_image_format(&[b'P', b'4', b'\n']).unwrap(), ImageFormat::PNM);
    assert_eq!(get_image_format(&[b'P', b'7', b'\n']).unwrap(), ImageFormat::PNM);
}

#[test]
fn unknown_bytes_have_no_format() {
    assert!(matches!(get_image_format(&[]), Err(DistilError::UnsupportedFormat)));
    assert!(matches!(get_image_format(&[b'P', b'8', b'\n']), Err(DistilError::UnsupportedFormat)));
    assert!(matches!(get_image_format(&[b'P', b'0', b'\n']), Err(DistilError::UnsupportedFormat)));
    assert!(matches!(get_image_format(b"GIF88a"), Err(DistilError::UnsupportedFormat)));
    assert!(matches!(get_image_format(&[0x89, b'P', b'N']), Err(DistilError::UnsupportedFormat)));
    assert!(matches!(get_image_format(&[0xff, 0xd8]), Err(DistilError::UnsupportedFormat)));
    assert!(matches!(get_image_format(b"hello world"), Err(DistilError::UnsupportedFormat)));
}

#[test]
fn only_png_and_jpeg_are_supported() {
    assert!(is_supported_format(ImageFormat::PNG).is_ok());
    assert!(is_supported_format(ImageFormat::JPEG).is_ok());
    let others = [
        ImageFormat::GIF,
        ImageFormat::WEBP,
        ImageFormat::PNM,
        ImageFormat::TIFF,
        ImageFormat::TGA,
        ImageFormat::BMP,
        ImageFormat::ICO,
        ImageFormat::HDR,
    ];
    for format in others.iter() {
        assert!(matches!(is_supported_format(*format), Err(DistilError::UnsupportedFormat)));
    }
}

#[test]
fn error_messages() {
    assert_eq!(
        DistilError::UnsupportedFormat.message(),
        "The passed image isn't a JPEG or a PNG"
    );
    assert_eq!(
        DistilError::Uninteresting.message(),
        "The passed image does not contain any interesting colours"
    );
}
