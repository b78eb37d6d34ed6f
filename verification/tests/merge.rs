use distil::color::{is_below_threshold, is_similar};
use distil::merge::{assign_clusters, find_similar, merge_similars, remove_similar_colors, Similar};
use lab::Lab;

fn blend(x: Lab, n: usize, y: Lab, m: usize) -> Lab {
    let (n, m) = (n as f32, m as f32);
    Lab {
        l: (x.l * n + y.l * m) / (n + m),
        a: (x.a * n + y.a * m) / (n + m),
        b: (x.b * n + y.b * m) / (n + m),
    }
}

fn red() -> Lab {
    Lab::from_rgb(&[255, 0, 0])
}

fn near_red() -> Lab {
    Lab::from_rgb(&[250, 5, 5])
}

fn blue() -> Lab {
    Lab::from_rgb(&[0, 0, 255])
}

#[test]
fn threshold_agrees_with_float_comparison() {
    let samples: [f32; 12] = [
        0.0,
        -0.0,
        1.5,
        9.999999,
        10.0,
        10.000001,
        250.0,
        -3.0,
        f32::INFINITY,
        f32::NEG_INFINITY,
        f32::NAN,
        f32::MIN_POSITIVE,
    ];
    for x in samples.iter() {
        assert_eq!(is_below_threshold(x.to_bits()), *x < 10.0);
    }
    assert!(!is_below_threshold((-f32::NAN).to_bits()));
}

#[test]
fn near_red_is_similar_to_red() {
    assert!(is_similar(near_red(), red()));
    assert!(!is_similar(blue(), red()));
    assert!(is_similar(red(), red()));
}

#[test]
fn find_similar_takes_the_first_match() {
    let accepted = vec![(blue(), 5), (red(), 3), (near_red(), 2)];
    assert_eq!(find_similar(&accepted, near_red()), Some(1));
    assert_eq!(find_similar(&accepted, blue()), Some(0));
    assert_eq!(find_similar(&accepted, Lab::from_rgb(&[0, 255, 0])), None);
    assert_eq!(find_similar(&Vec::new(), red()), None);
}

#[test]
fn first_pass_accepts_and_records() {
    let palette = vec![(red(), 200), (blue(), 40), (near_red(), 16)];
    let (accepted, similars) = assign_clusters(&palette);
    assert_eq!(accepted, vec![(red(), 200), (blue(), 40)]);
    assert_eq!(similars.len(), 1);
    assert_eq!(similars[0].cluster, 0);
    assert_eq!(similars[0].color, near_red());
    assert_eq!(similars[0].count, 16);
}

#[test]
fn second_pass_blends_with_running_counts() {
    let x = Lab { l: 10.0, a: 0.0, b: 0.0 };
    let y = Lab { l: 20.0, a: 4.0, b: -8.0 };
    let z = Lab { l: 40.0, a: 9.0, b: 6.0 };
    let similars = vec![
        Similar { cluster: 0, color: y, count: 1 },
        Similar { cluster: 0, color: z, count: 4 },
    ];
    let merged = merge_similars(vec![(x, 3), (blue(), 7)], &similars, &blend);
    assert_eq!(merged.len(), 2);
    assert_eq!(merged[0].1, 8);
    assert_eq!(merged[0].0, Lab { l: 26.25, a: 5.0, b: 2.0 });
    assert_eq!(merged[1], (blue(), 7));
}

#[test]
fn red_family_collapses_to_one_cluster() {
    let palette = vec![(red(), 200), (blue(), 40), (near_red(), 16)];
    let refined = remove_similar_colors(palette, &blend);
    assert_eq!(refined.len(), 2);
    assert_eq!(refined[0].1, 216);
    assert_eq!(refined[0].0, blend(red(), 200, near_red(), 16));
    assert_eq!(refined[1], (blue(), 40));
}

#[test]
fn merged_counts_decide_the_rank() {
    let palette = vec![(blue(), 40), (red(), 30), (near_red(), 16)];
    let refined = remove_similar_colors(palette, &blend);
    assert_eq!(refined.len(), 2);
    assert_eq!(refined[0].1, 46);
    assert_eq!(refined[1], (blue(), 40));
    let total: usize = refined.iter().map(|entry| entry.1).sum();
    assert_eq!(total, 86);
}

#[test]
fn accepted_clusters_are_apart() {
    let mut palette = Vec::new();
    for i in 0..64usize {
        let rgb = [(i * 4) as u8, (255 - i * 3) as u8, ((i * 37) % 256) as u8];
        palette.push((Lab::from_rgb(&rgb), 64 - i));
    }
    let (accepted, similars) = assign_clusters(&palette);
    assert_eq!(accepted.len() + similars.len(), 64);
    assert!(accepted.len() > 1);
    assert!(!similars.is_empty());
    for later in 0..accepted.len() {
        for earlier in 0..later {
            assert!(!is_similar(accepted[later].0, accepted[earlier].0));
        }
    }
    for similar in similars.iter() {
        assert!(is_similar(similar.color, accepted[similar.cluster].0));
        for earlier in 0..similar.cluster {
            assert!(!is_similar(similar.color, accepted[earlier].0));
        }
    }
    let refined = remove_similar_colors(palette.clone(), &blend);
    assert_eq!(refined.len(), accepted.len());
    let before: usize = palette.iter().map(|entry| entry.1).sum();
    let after: usize = refined.iter().map(|entry| entry.1).sum();
    assert_eq!(before, after);
}
