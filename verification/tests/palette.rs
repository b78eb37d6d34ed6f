use distil::color::is_similar;
use distil::error::DistilError;
use distil::palette::{check_format, distil_decoded, distil_palette, process_img, Distil};
use distil::quantize::{quantize, split_color_map};
use image::jpeg::JPEGEncoder;
use image::png::PNGEncoder;
use image::{ColorType, GenericImage, ImageError};
use lab::Lab;
use std::collections::BTreeMap;

fn blend(x: Lab, n: usize, y: Lab, m: usize) -> Lab {
    let (n, m) = (n as f32, m as f32);
    Lab {
        l: (x.l * n + y.l * m) / (n + m),
        a: (x.a * n + y.a * m) / (n + m),
        b: (x.b * n + y.b * m) / (n + m),
    }
}

fn read_img(buffer: &[u8], palette_size: usize) -> Result<Vec<[u8; 3]>, DistilError> {
    check_format(buffer)?;
    let decoded = image::load_from_memory(buffer)
        .map(|img| img.pixels().map(|(_, _, px)| px.data).collect());
    distil_decoded(decoded, palette_size, &blend).map(|(_, colors)| colors)
}

fn two_reds() -> Vec<[u8; 4]> {
    let mut pixels = vec![[255, 0, 0, 255]; 200 * 200];
    pixels.extend(vec![[250, 5, 5, 255]; 10 * 10]);
    pixels
}

fn png_of(pixels: &[[u8; 4]], width: u32, height: u32) -> Vec<u8> {
    let mut data = Vec::new();
    for px in pixels {
        data.extend_from_slice(px);
    }
    let mut encoded = Vec::new();
    PNGEncoder::new(&mut encoded).encode(&data, width, height, ColorType::RGBA(8)).unwrap();
    encoded
}

#[test]
fn colour_map_is_cut_into_triples() {
    assert_eq!(split_color_map(&vec![1, 2, 3, 4, 5, 6]), vec![[1, 2, 3], [4, 5, 6]]);
    assert_eq!(split_color_map(&vec![1, 2, 3, 4, 5]), vec![[1, 2, 3]]);
    assert!(split_color_map(&Vec::new()).is_empty());
}

#[test]
fn quantize_gives_a_full_palette() {
    let palette = quantize(&two_reds()).unwrap();
    assert_eq!(palette.len(), 256);
    assert_eq!(quantize(&two_reds()).unwrap(), palette);
}

#[test]
fn quantize_refuses_an_all_transparent_image() {
    let pixels = vec![[255, 0, 0, 0]; 100];
    assert!(matches!(quantize(&pixels), Err(DistilError::Uninteresting)));
}

#[test]
fn palette_is_organised_by_index() {
    let pink = Lab { l: 66.6348, a: 52.260696, b: 14.850557 };
    let distilled = distil_palette(vec![(pink, 9), (Lab::from_rgb(&[0, 0, 255]), 4)]);
    assert_eq!(distilled.colors, vec![[253, 120, 138], [0, 0, 255]]);
    let mut counts = BTreeMap::new();
    counts.insert(0, 9);
    counts.insert(1, 4);
    assert_eq!(distilled.color_count, counts);
    let empty = distil_palette(Vec::new());
    assert!(empty.colors.is_empty());
    assert!(empty.color_count.is_empty());
}

#[test]
fn truncation_takes_the_most_frequent() {
    let distilled = Distil {
        colors: vec![[1, 1, 1], [2, 2, 2], [3, 3, 3]],
        color_count: BTreeMap::new(),
    };
    assert_eq!(distilled.palette(2), vec![[1, 1, 1], [2, 2, 2]]);
    assert_eq!(distilled.palette(1), vec![[1, 1, 1]]);
    assert_eq!(distilled.palette(3), vec![[1, 1, 1], [2, 2, 2], [3, 3, 3]]);
    assert_eq!(distilled.palette(10), vec![[1, 1, 1], [2, 2, 2], [3, 3, 3]]);
    assert!(distilled.palette(0).is_empty());
}

#[test]
fn red_image_distils_to_red() {
    let distilled = Distil::new(&two_reds(), &blend).unwrap();
    let total: usize = distilled.color_count.values().sum();
    assert_eq!(total, 256);
    assert_eq!(distilled.colors.len(), distilled.color_count.len());
    assert_eq!(distilled.colors[0], [249, 3, 3]);
    assert_eq!(distilled.color_count[&0], 51);
    let counts: Vec<usize> = distilled.color_count.values().cloned().collect();
    assert_eq!(counts, vec![51, 41, 34, 32, 30, 28, 27, 6, 3, 3, 1]);
    let red = Lab::from_rgb(&[255, 0, 0]);
    let near_red = Lab::from_rgb(&[250, 5, 5]);
    let family = distilled
        .colors
        .iter()
        .filter(|rgb| {
            let color = Lab::from_rgb(rgb);
            is_similar(color, red) || is_similar(color, near_red)
        })
        .count();
    assert_eq!(family, 1);
}

#[test]
fn distilling_twice_gives_the_same() {
    let first = Distil::new(&two_reds(), &blend).unwrap();
    let second = Distil::new(&two_reds(), &blend).unwrap();
    assert_eq!(first.colors, second.colors);
    assert_eq!(first.color_count, second.color_count);
}

#[test]
fn all_transparent_image_does_not_distil() {
    let pixels = vec![[255, 0, 0, 0]; 50 * 50];
    assert!(matches!(Distil::new(&pixels, &blend), Err(DistilError::Uninteresting)));
    assert!(matches!(process_img(&pixels, 5, &blend), Err(DistilError::Uninteresting)));
}

#[test]
fn process_img_truncates() {
    let all = Distil::new(&two_reds(), &blend).unwrap();
    let (distilled, one) = process_img(&two_reds(), 1, &blend).unwrap();
    assert_eq!(distilled.colors, all.colors);
    assert_eq!(distilled.color_count, all.color_count);
    assert_eq!(one, vec![all.colors[0]]);
    let (distilled, three) = process_img(&two_reds(), 3, &blend).unwrap();
    assert_eq!(three, distilled.colors[..3].to_vec());
    let (distilled, many) = process_img(&two_reds(), 1000, &blend).unwrap();
    assert_eq!(many, distilled.colors);
    let (distilled, none) = process_img(&two_reds(), 0, &blend).unwrap();
    assert!(none.is_empty());
    assert_eq!(distilled.colors.len(), 11);
}

#[test]
fn every_count_is_at_least_one() {
    let distilled = Distil::new(&two_reds(), &blend).unwrap();
    for index in 0..distilled.colors.len() {
        assert!(distilled.color_count[&index] >= 1);
    }
    let counts: Vec<usize> = distilled.color_count.values().cloned().collect();
    for pair in counts.windows(2) {
        assert!(pair[0] >= pair[1]);
    }
}

#[test]
fn format_gate_lets_png_and_jpeg_through() {
    assert!(check_format(&[0x89, b'P', b'N', b'G', b'\r', b'\n', 0x1a, b'\n']).is_ok());
    assert!(check_format(&[0xff, 0xd8, 0xff, 0xdb]).is_ok());
    assert!(matches!(check_format(b"GIF89a"), Err(DistilError::UnsupportedFormat)));
    assert!(matches!(check_format(b"II*.tiff"), Err(DistilError::UnsupportedFormat)));
    assert!(matches!(check_format(&[]), Err(DistilError::UnsupportedFormat)));
}

#[test]
fn decoder_error_is_passed_on_unchanged() {
    let cause = ImageError::FormatError("no palette".to_string());
    match distil_decoded(Err(cause), 5, &blend) {
        Err(DistilError::Io(path, held)) => {
            assert_eq!(path, "");
            assert!(matches!(&held, ImageError::FormatError(text) if text == "no palette"));
            assert_eq!(
                DistilError::Io(path, held).message(),
                "Distil failed to parse the passed image: Format error: no palette"
            );
        }
        other => panic!("unexpected outcome: {:?}", other),
    }
    match distil_decoded(Err(ImageError::DimensionError), 5, &blend) {
        Err(DistilError::Io(_, held)) => assert!(matches!(held, ImageError::DimensionError)),
        other => panic!("unexpected outcome: {:?}", other),
    }
}

#[test]
fn decoded_pixels_are_distilled() {
    let (distilled, colors) = distil_decoded(Ok(two_reds()), 2, &blend).unwrap();
    let (expected, palette) = process_img(&two_reds(), 2, &blend).unwrap();
    assert_eq!(distilled.colors, expected.colors);
    assert_eq!(distilled.color_count, expected.color_count);
    assert_eq!(colors, palette);
    assert_eq!(colors, vec![distilled.colors[0], distilled.colors[1]]);
    let transparent = vec![[1, 2, 3, 0]; 16];
    assert!(matches!(
        distil_decoded(Ok(transparent), 2, &blend),
        Err(DistilError::Uninteresting)
    ));
}

#[test]
fn gif_is_an_unsupported_format() {
    let gif = b"GIF89a\x01\x00\x01\x00\x80\x00\x00\xff\xff\xff\x00\x00\x00";
    assert!(matches!(read_img(gif, 5), Err(DistilError::UnsupportedFormat)));
    assert!(matches!(read_img(&[], 5), Err(DistilError::UnsupportedFormat)));
    assert!(matches!(read_img(b"BM0000", 5), Err(DistilError::UnsupportedFormat)));
}

#[test]
fn broken_png_is_a_parse_failure() {
    let broken = [0x89, b'P', b'N', b'G', b'\r', b'\n', 0x1a, b'\n', 1, 2, 3, 4];
    match read_img(&broken, 5) {
        Err(DistilError::Io(path, cause)) => {
            assert_eq!(path, "");
            let text = format!("Distil failed to parse the passed image: {}", cause);
            assert_eq!(DistilError::Io(path, cause).message(), text);
        }
        other => panic!("unexpected outcome: {:?}", other),
    }
}

#[test]
fn png_is_read_and_distilled() {
    let mut pixels = vec![[20, 40, 200, 255]; 30 * 30];
    pixels.extend(vec![[200, 40, 20, 255]; 30 * 10]);
    let encoded = png_of(&pixels, 30, 40);
    let read = read_img(&encoded, 3).unwrap();
    assert_eq!(read, process_img(&pixels, 3, &blend).unwrap().1);
    assert!(!read.is_empty() && read.len() <= 3);
}

#[test]
fn transparent_png_is_uninteresting() {
    let pixels = vec![[20, 40, 200, 0]; 8 * 8];
    let encoded = png_of(&pixels, 8, 8);
    assert!(matches!(read_img(&encoded, 3), Err(DistilError::Uninteresting)));
}

#[test]
fn jpeg_is_read_and_distilled() {
    let mut data = Vec::new();
    for _ in 0..(16 * 16) {
        data.extend_from_slice(&[30, 160, 60]);
    }
    let mut encoded = Vec::new();
    JPEGEncoder::new(&mut encoded).encode(&data, 16, 16, ColorType::RGB(8)).unwrap();
    let colors = read_img(&encoded, 2).unwrap();
    assert!(!colors.is_empty() && colors.len() <= 2);
    assert_eq!(read_img(&encoded, 2).unwrap(), colors);
}
