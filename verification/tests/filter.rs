use distil::error::DistilError;
use distil::filter::{get_pixels, has_transparency, is_black, is_white};

#[test]
fn transparency_is_anything_but_full_alpha() {
    assert!(!has_transparency(&[10, 20, 30, 255]));
    assert!(has_transparency(&[10, 20, 30, 254]));
    assert!(has_transparency(&[10, 20, 30, 0]));
}

#[test]
fn black_needs_all_channels_below_eight() {
    assert!(is_black(&[0, 0, 0, 255]));
    assert!(is_black(&[7, 7, 7, 255]));
    assert!(!is_black(&[8, 7, 7, 255]));
    assert!(!is_black(&[7, 8, 7, 255]));
    assert!(!is_black(&[7, 7, 8, 255]));
}

#[test]
fn white_needs_all_channels_above_247() {
    assert!(is_white(&[255, 255, 255, 255]));
    assert!(is_white(&[248, 248, 248, 255]));
    assert!(!is_white(&[247, 248, 248, 255]));
    assert!(!is_white(&[248, 247, 248, 255]));
    assert!(!is_white(&[248, 248, 247, 255]));
}

#[test]
fn opaque_mid_range_pixels_survive() {
    let pixels = vec![[9, 9, 9, 255], [246, 246, 246, 255], [100, 150, 200, 255]];
    let sample = get_pixels(&pixels).unwrap();
    assert_eq!(sample, vec![9, 9, 9, 255, 246, 246, 246, 255, 100, 150, 200, 255]);
}

#[test]
fn transparent_pixels_never_survive() {
    let pixels = vec![[100, 150, 200, 254], [100, 150, 200, 255], [9, 9, 9, 0], [50, 60, 70, 128]];
    let sample = get_pixels(&pixels).unwrap();
    assert_eq!(sample, vec![100, 150, 200, 255]);
}

#[test]
fn dark_and_light_pixels_are_left_out_in_order() {
    let pixels = vec![
        [7, 7, 7, 255],
        [8, 0, 0, 255],
        [255, 255, 255, 255],
        [255, 247, 255, 255],
        [0, 0, 0, 255],
        [1, 2, 200, 255],
    ];
    let sample = get_pixels(&pixels).unwrap();
    assert_eq!(sample, vec![8, 0, 0, 255, 255, 247, 255, 255, 1, 2, 200, 255]);
}

#[test]
fn all_transparent_image_is_uninteresting() {
    let pixels = vec![[200, 10, 10, 0]; 64];
    assert!(matches!(get_pixels(&pixels), Err(DistilError::Uninteresting)));
}

#[test]
fn empty_and_black_and_white_images_are_uninteresting() {
    assert!(matches!(get_pixels(&Vec::new()), Err(DistilError::Uninteresting)));
    let pixels = vec![[0, 0, 0, 255], [255, 255, 255, 255], [3, 4, 5, 255], [250, 251, 252, 255]];
    assert!(matches!(get_pixels(&pixels), Err(DistilError::Uninteresting)));
}
