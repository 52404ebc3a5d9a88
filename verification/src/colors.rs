use vstd::prelude::*;

use rayon::iter::{IntoParallelRefIterator, ParallelIterator};

verus! {

use vstd::arithmetic::div_mod::{lemma_fundamental_div_mod, lemma_mul_mod_noop_left};

/// An RGB color with 8-bit channels.
#[derive(Clone, Copy, PartialEq, Eq, Structural, Debug)]
pub struct Rgb {
    pub r: u8,
    pub g: u8,
    pub b: u8,
}

/// One turn of hue, counted in binary fixed-point steps.
pub const HUE_STEPS: u64 = 0x1_0000_0000;

/// The golden-ratio conjugate as a binary fraction of one turn
/// (`0.6180339887... * 2^32`, rounded): stepping the hue by it spreads
/// successive colors maximally far apart on the hue circle.
pub const GOLDEN_HUE_STEP: u32 = 2654435769;

/// The hue of color index `i`: the fractional part of
/// `i * golden_ratio_conjugate`, as a binary fraction of one turn.
pub open spec fn hue_of(i: int) -> int {
    (i * GOLDEN_HUE_STEP) % 0x1_0000_0000
}

/// The varying channel of the fixed-point HSV hexagon at hue `hue` and
/// value `v`: it rises from 0 to `v` across even sectors and falls back
/// across odd ones, truncated to whole steps.
pub open spec fn spec_hsv_channel(hue: int, v: int) -> int {
    let f = (6 * hue) % 0x1_0000_0000;
    if ((6 * hue) / 0x1_0000_0000) % 2 == 0 {
        (v * f) / 0x1_0000_0000
    } else {
        (v * (0x1_0000_0000 - f)) / 0x1_0000_0000
    }
}

/// Fixed-point HSV to RGB at full saturation: the hue picks one of six
/// sectors of the hue hexagon; the brightest channel is `v`, the
/// varying channel follows `spec_hsv_channel`, the third is zero.
pub open spec fn spec_hsv_to_rgb(hue: int, v: int) -> Rgb {
    let sector = (6 * hue) / 0x1_0000_0000;
    let x = spec_hsv_channel(hue, v) as u8;
    let vv = v as u8;
    if sector == 0 {
        Rgb { r: vv, g: x, b: 0 }
    } else if sector == 1 {
        Rgb { r: x, g: vv, b: 0 }
    } else if sector == 2 {
        Rgb { r: 0, g: vv, b: x }
    } else if sector == 3 {
        Rgb { r: 0, g: x, b: vv }
    } else if sector == 4 {
        Rgb { r: x, g: 0, b: vv }
    } else {
        Rgb { r: vv, g: 0, b: x }
    }
}

/// The hue of color index `i`, computed in fixed point.
pub fn hue_frac(i: usize) -> (h: u32)
    ensures
        h as int == hue_of(i as int),
{
    let reduced: u64 = (i as u64) % HUE_STEPS;
    proof {
        assert(reduced * (GOLDEN_HUE_STEP as u64) < 0x1_0000_0000_0000_0000) by (nonlinear_arith)
            requires
                reduced < 0x1_0000_0000,
                GOLDEN_HUE_STEP < 0x1_0000_0000,
        ;
        lemma_mul_mod_noop_left(i as int, GOLDEN_HUE_STEP as int, 0x1_0000_0000);
    }
    ((reduced * (GOLDEN_HUE_STEP as u64)) % HUE_STEPS) as u32
}

/// Fixed-point HSV to RGB at full saturation, exactly as
/// `spec_hsv_to_rgb` states it; the value `v` always survives as the
/// brightest channel.
pub fn hsv_to_rgb(hue: u32, v: u8) -> (c: Rgb)
    ensures
        c == spec_hsv_to_rgb(hue as int, v as int),
        c.r == v || c.g == v || c.b == v,
{
    let h6: u64 = 6 * (hue as u64);
    let sector: u64 = h6 / HUE_STEPS;
    let f: u64 = h6 % HUE_STEPS;
    proof {
        let m = 0x1_0000_0000int;
        assert(f < m);
        assert((v as int) * (f as int) <= 255 * (m - 1)) by (nonlinear_arith)
            requires
                0 <= v as int <= 255,
                0 <= (f as int) <= m - 1,
        ;
        assert((v as int) * (m - f as int) <= 255 * m) by (nonlinear_arith)
            requires
                0 <= v as int <= 255,
                0 <= (f as int) < m,
        ;
    }
    let wide: u64 = if sector % 2 == 0 {
        ((v as u64) * f) / HUE_STEPS
    } else {
        ((v as u64) * (HUE_STEPS - f)) / HUE_STEPS
    };
    proof {
        let m = 0x1_0000_0000int;
        lemma_fundamental_div_mod((v as int) * (f as int), m);
        lemma_fundamental_div_mod((v as int) * (m - f as int), m);
        assert(wide as int <= v as int) by (nonlinear_arith)
            requires
                m > 0,
                0 <= v as int <= 255,
                0 <= (f as int) < m,
                wide as int == (if sector as int % 2 == 0 {
                    ((v as int) * (f as int)) / m
                } else {
                    ((v as int) * (m - f as int)) / m
                }),
                (v as int) * (f as int) == m * (((v as int) * (f as int)) / m) + ((v as int) * (
                f as int)) % m,
                0 <= ((v as int) * (f as int)) % m < m,
                (v as int) * (m - f as int) == m * (((v as int) * (m - f as int)) / m) + ((
                v as int) * (m - f as int)) % m,
                0 <= ((v as int) * (m - f as int)) % m < m,
        ;
    }
    let x: u8 = wide as u8;
    if sector == 0 {
        Rgb { r: v, g: x, b: 0 }
    } else if sector == 1 {
        Rgb { r: x, g: v, b: 0 }
    } else if sector == 2 {
        Rgb { r: 0, g: v, b: x }
    } else if sector == 3 {
        Rgb { r: 0, g: x, b: v }
    } else if sector == 4 {
        Rgb { r: x, g: 0, b: v }
    } else {
        Rgb { r: v, g: 0, b: x }
    }
}

/// Color table for `n` partition ids: `n - 1` golden-ratio-stepped hues
/// at full saturation and value, then one reserved final entry fixed to
/// black for the "no partition" sentinel. Every generated hue keeps one
/// channel at 255, so no generated entry equals the black sentinel.
pub fn generate_colors(n: usize) -> (colors: Vec<Rgb>)
    requires
        1 <= n,
    ensures
        colors@.len() == n,
        colors@[n as int - 1] == (Rgb { r: 0, g: 0, b: 0 }),
        forall|i: int| 0 <= i < n - 1 ==> (#[trigger] colors@[i]) == spec_hsv_to_rgb(hue_of(i), 255),
        forall|i: int|
            0 <= i < n - 1 ==> ((#[trigger] colors@[i]).r == 255 || colors@[i].g == 255
                || colors@[i].b == 255),
{
    let mut colors: Vec<Rgb> = Vec::new();
    let mut i: usize = 0;
    while i < n - 1
        invariant
            1 <= n,
            0 <= i <= n - 1,
            colors@.len() == i,
            forall|j: int|
                0 <= j < i ==> (#[trigger] colors@[j]) == spec_hsv_to_rgb(hue_of(j), 255),
            forall|j: int|
                0 <= j < i ==> ((#[trigger] colors@[j]).r == 255 || colors@[j].g == 255
                    || colors@[j].b == 255),
        decreases n - 1 - i,
    {
        let hue = hue_frac(i);
        colors.push(hsv_to_rgb(hue, 255));
        i += 1;
    }
    colors.push(Rgb { r: 0, g: 0, b: 0 });
    colors
}

/// Look one label up in the color table.
pub fn color_at(colors: &Vec<Rgb>, label: usize) -> (c: Rgb)
    requires
        label < colors@.len(),
    ensures
        c == colors@[label as int],
{
    colors[label]
}

/// Relies on rayon's indexed parallel map over a slice: `par_iter` over
/// a `Vec` yields its elements in index order and `collect` into a
/// `Vec` preserves that order, so the result is the elementwise map of
/// the labels through the color table.
#[verifier::external_body]
fn par_map_colors(labels: &Vec<usize>, colors: &Vec<Rgb>) -> (out: Vec<Rgb>)
    requires
        forall|i: int| 0 <= i < labels@.len() ==> (#[trigger] labels@[i]) < colors@.len(),
    ensures
        out@ == labels@.map_values(|l: usize| colors@[l as int]),
{
    labels.par_iter().map(|l: &usize| color_at(colors, *l)).collect()
}

/// Paint every cell with its component's color, in parallel across
/// cells. Each label must index into the color table: an out-of-range
/// label means the partitioner and the table size disagree, which is a
/// caller bug, not an input to tolerate.
pub fn colorize_labels(labels: &Vec<usize>, colors: &Vec<Rgb>) -> (out: Vec<Rgb>)
    requires
        forall|i: int| 0 <= i < labels@.len() ==> (#[trigger] labels@[i]) < colors@.len(),
    ensures
        out@.len() == labels@.len(),
        out@ == labels@.map_values(|l: usize| colors@[l as int]),
        forall|i: int| 0 <= i < labels@.len() ==> (#[trigger] out@[i]) == colors@[labels@[i] as int],
{
    let out = par_map_colors(labels, colors);
    proof {
        assert forall|i: int| 0 <= i < labels@.len() implies (#[trigger] out@[i]) == colors@[labels@[i] as int] by {
            assert(out@[i] == labels@.map_values(|l: usize| colors@[l as int])[i]);
        }
    }
    out
}

} // verus!
