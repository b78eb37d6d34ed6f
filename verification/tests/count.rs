use distil::count::{color_key, count_colors_as_lab, count_keys, key_color, tally_colors};
use lab::Lab;

#[test]
fn keys_order_colours_by_red_then_green_then_blue() {
    assert_eq!(color_key(&[0, 0, 0]), 0);
    assert_eq!(color_key(&[0, 0, 7]), 7);
    assert_eq!(color_key(&[0, 1, 0]), 256);
    assert_eq!(color_key(&[1, 2, 3]), 66051);
    assert_eq!(color_key(&[255, 255, 255]), 16777215);
    assert!(color_key(&[0, 255, 255]) < color_key(&[1, 0, 0]));
    assert!(color_key(&[5, 1, 255]) < color_key(&[5, 2, 0]));
    assert!(color_key(&[5, 5, 1]) < color_key(&[5, 5, 2]));
    assert_eq!(key_color(66051), [1, 2, 3]);
    assert_eq!(key_color(0), [0, 0, 0]);
    assert_eq!(key_color(16777215), [255, 255, 255]);
    for key in [0u32, 255, 256, 65535, 65536, 8421504, 16777215].iter() {
        assert_eq!(color_key(&key_color(*key)), *key);
    }
}

#[test]
fn occurrences_are_counted_under_keys() {
    let colors = vec![[9, 0, 0], [1, 2, 3], [9, 0, 0], [0, 0, 7], [1, 2, 3], [9, 0, 0]];
    let counts = count_keys(&colors);
    let entries: Vec<(u32, usize)> = counts.into_iter().collect();
    assert_eq!(entries, vec![(7, 1), (66051, 2), (589824, 3)]);
    assert!(count_keys(&Vec::new()).is_empty());
}

#[test]
fn tally_counts_each_colour_once() {
    let colors = vec![[9, 0, 0], [1, 2, 3], [9, 0, 0], [0, 0, 7], [1, 2, 3], [9, 0, 0]];
    let tally = tally_colors(&colors);
    assert_eq!(tally, vec![([0, 0, 7], 1), ([1, 2, 3], 2), ([9, 0, 0], 3)]);
}

#[test]
fn tally_of_nothing_is_empty() {
    assert!(tally_colors(&Vec::new()).is_empty());
    assert_eq!(tally_colors(&vec![[4, 4, 4]; 256]), vec![([4, 4, 4], 256)]);
}

#[test]
fn counts_sum_to_the_palette_size() {
    let mut colors = Vec::new();
    for i in 0..256usize {
        colors.push([(i % 7) as u8, (i % 3) as u8, 200]);
    }
    let counted = count_colors_as_lab(colors);
    let total: usize = counted.iter().map(|entry| entry.1).sum();
    assert_eq!(total, 256);
    assert_eq!(counted.len(), 21);
    for pair in counted.windows(2) {
        assert!(pair[0].1 >= pair[1].1);
    }
}

#[test]
fn most_frequent_colour_comes_first() {
    let colors = vec![[0, 0, 255], [255, 0, 0], [0, 0, 255], [0, 255, 0], [0, 0, 255], [255, 0, 0]];
    let counted = count_colors_as_lab(colors);
    assert_eq!(
        counted,
        vec![
            (Lab::from_rgb(&[0, 0, 255]), 3),
            (Lab::from_rgb(&[255, 0, 0]), 2),
            (Lab::from_rgb(&[0, 255, 0]), 1),
        ]
    );
}

#[test]
fn equal_counts_come_in_colour_order() {
    let colors = vec![[200, 0, 0], [0, 0, 9], [0, 9, 0], [0, 0, 9], [200, 0, 0], [0, 9, 0]];
    let counted = count_colors_as_lab(colors);
    assert_eq!(
        counted,
        vec![
            (Lab::from_rgb(&[0, 0, 9]), 2),
            (Lab::from_rgb(&[0, 9, 0]), 2),
            (Lab::from_rgb(&[200, 0, 0]), 2),
        ]
    );
}

#[test]
fn colours_are_taken_to_lab() {
    let counted = count_colors_as_lab(vec![[253, 120, 138]]);
    assert_eq!(counted, vec![(Lab { l: 66.6348, a: 52.260696, b: 14.850557 }, 1)]);
}
