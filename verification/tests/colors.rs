use small_world_model::colors::{
    color_at, colorize_labels, generate_colors, hsv_to_rgb, hue_frac, Rgb, GOLDEN_HUE_STEP,
};
use std::collections::HashSet;

#[test]
fn test_hue_frac_golden_steps() {
    assert_eq!(hue_frac(0), 0);
    assert_eq!(hue_frac(1), GOLDEN_HUE_STEP);
    assert_eq!(hue_frac(2), 1013904242); // wraps past one turn
    assert_eq!(hue_frac(3), 3668340011);
}

#[test]
fn test_hsv_to_rgb_exact_values() {
    // hue 0: pure red
    assert_eq!(hsv_to_rgb(0, 255), Rgb { r: 255, g: 0, b: 0 });
    // just under one sixth of a turn: red with green almost saturated
    assert_eq!(hsv_to_rgb(0x2AAA_AAAA, 255), Rgb { r: 255, g: 254, b: 0 });
    // the first golden-ratio hues
    assert_eq!(hsv_to_rgb(hue_frac(1), 255), Rgb { r: 0, g: 74, b: 255 });
    assert_eq!(hsv_to_rgb(hue_frac(2), 255), Rgb { r: 148, g: 255, b: 0 });
    assert_eq!(hsv_to_rgb(hue_frac(3), 255), Rgb { r: 255, g: 0, b: 223 });
    // a dimmed value scales every channel
    assert_eq!(hsv_to_rgb(0, 100), Rgb { r: 100, g: 0, b: 0 });
}

#[test]
fn test_generate_colors_layout() {
    let colors = generate_colors(6);
    assert_eq!(colors.len(), 6);
    assert_eq!(colors[5], Rgb { r: 0, g: 0, b: 0 });
    assert_eq!(colors[0], Rgb { r: 255, g: 0, b: 0 });
    assert_eq!(colors[1], Rgb { r: 0, g: 74, b: 255 });
    assert_eq!(colors[2], Rgb { r: 148, g: 255, b: 0 });
    assert_eq!(colors[3], Rgb { r: 255, g: 0, b: 223 });
    assert_eq!(colors[4], Rgb { r: 0, g: 255, b: 212 });
}

#[test]
fn test_generate_colors_single_entry() {
    // the table for zero components holds only the reserved black entry
    let colors = generate_colors(1);
    assert_eq!(colors.len(), 1);
    assert_eq!(colors[0], Rgb { r: 0, g: 0, b: 0 });
}

#[test]
fn test_generate_colors_distinct_up_to_three_hundred() {
    // the golden-ratio hues stay pairwise distinct for a few hundred
    // entries, and none equals the reserved black
    let n = 301usize;
    let colors = generate_colors(n);
    assert_eq!(colors.len(), n);
    assert_eq!(colors[n - 1], Rgb { r: 0, g: 0, b: 0 });
    let mut seen: HashSet<(u8, u8, u8)> = HashSet::new();
    for c in &colors[..n - 1] {
        assert!(c.r == 255 || c.g == 255 || c.b == 255);
        assert!(
            seen.insert((c.r, c.g, c.b)),
            "two generated colors coincide"
        );
    }
}

#[test]
fn test_colorize_labels_maps_through_table() {
    let colors = generate_colors(3);
    let labels: Vec<usize> = vec![0, 1, 2, 1, 0];
    let painted = colorize_labels(&labels, &colors);
    assert_eq!(painted.len(), 5);
    assert_eq!(painted[0], colors[0]);
    assert_eq!(painted[1], colors[1]);
    assert_eq!(painted[2], Rgb { r: 0, g: 0, b: 0 });
    assert_eq!(painted[3], colors[1]);
    assert_eq!(painted[4], colors[0]);
}

#[test]
fn test_color_at_reads_table() {
    let colors = generate_colors(4);
    assert_eq!(color_at(&colors, 0), colors[0]);
    assert_eq!(color_at(&colors, 3), Rgb { r: 0, g: 0, b: 0 });
}
