use sg_wasm::palette::{flatten_palette, nearest, palette_samples, parse_pal, sample_pixel};

#[test]
fn parse_pal_groups_triples() {
    assert_eq!(parse_pal(&[1, 2, 3, 4, 5, 6, 7]), vec![[1, 2, 3], [4, 5, 6]]);
    assert!(parse_pal(&[1, 2]).is_empty());
    assert!(parse_pal(&[]).is_empty());
}

#[test]
fn flatten_then_parse_roundtrip() {
    let pal = vec![[9u8, 8, 7], [0, 255, 1]];
    let flat = flatten_palette(&pal);
    assert_eq!(flat, vec![9, 8, 7, 0, 255, 1]);
    assert_eq!(parse_pal(&flat), pal);
    assert_eq!(flatten_palette(&parse_pal(&[1, 2, 3, 4, 5])), vec![1, 2, 3]);
}

#[test]
fn nearest_picks_first_of_ties() {
    let pal = [[0u8, 0, 0], [10, 10, 12], [10, 10, 8]];
    assert_eq!(nearest([10, 10, 10], &pal), 1);
    assert_eq!(nearest([1, 1, 1], &pal), 0);
    assert_eq!(nearest([10, 10, 7], &pal), 2);
}

#[test]
fn nearest_exact_distance() {
    // distances: 255^2 * 3 vs 1
    let pal = [[0u8, 0, 0], [255, 255, 254]];
    assert_eq!(nearest([255, 255, 255], &pal), 1);
}

#[test]
fn nearest_of_palette_colour_is_itself() {
    let pal = [[5u8, 6, 7], [200, 100, 0], [5, 6, 7]];
    assert_eq!(nearest([200, 100, 0], &pal), 1);
    assert_eq!(nearest([5, 6, 7], &pal), 0);
}

#[test]
fn nearest_empty_palette() {
    assert_eq!(nearest([1, 2, 3], &[]), 0);
}

#[test]
fn samples_every_pixel_of_small_image() {
    let px: Vec<u8> = (0u8..16).collect();
    let s = palette_samples(&px, 2, 2, 4);
    assert_eq!(s, vec![[0, 1, 2], [4, 5, 6], [8, 9, 10], [12, 13, 14]]);
}

#[test]
fn samples_with_stride() {
    let px: Vec<u8> = (0..8000 * 3).map(|i| (i % 251) as u8).collect();
    let s = palette_samples(&px, 8000, 1, 3);
    assert_eq!(s.len(), 4000);
    assert_eq!(s[1], [6, 7, 8]);
    assert_eq!(s[3999], [(23994 % 251) as u8, (23995 % 251) as u8, (23996 % 251) as u8]);
}

#[test]
fn samples_of_empty_image() {
    assert!(palette_samples(&[], 0, 5, 4).is_empty());
}

#[test]
fn sample_pixel_clamps() {
    let px: Vec<u8> = (0u8..16).collect();
    assert_eq!(sample_pixel(&px, 2, 2, 4, 5, 0), [4, 5, 6]);
    assert_eq!(sample_pixel(&px, 2, 2, 4, 0, 9), [8, 9, 10]);
    assert_eq!(sample_pixel(&px, 2, 2, 4, 1, 1), [12, 13, 14]);
}

#[test]
fn used_colours_ascending_and_unique() {
    let colors = [3usize, 1, 3, 0, 2];
    let drawn = [true, true, true, false, false];
    assert_eq!(sg_wasm::palette::used_colours(&colors, &drawn, 4), vec![1, 3]);
    assert!(sg_wasm::palette::used_colours(&colors, &[false; 5], 4).is_empty());
    assert!(sg_wasm::palette::used_colours(&[], &[], 0).is_empty());
}

#[test]
fn samples_ignore_alpha() {
    let a: Vec<u8> = (0u8..32).collect();
    let mut b = a.clone();
    for i in (3..32).step_by(4) {
        b[i] = 0xFF;
    }
    assert_eq!(palette_samples(&a, 4, 2, 4), palette_samples(&b, 4, 2, 4));
}
