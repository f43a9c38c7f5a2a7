use vstd::prelude::*;

verus! {

/// Which channel statistic orders the pixels of a run.
#[derive(Clone, Copy, PartialEq, Eq, Structural, Debug)]
pub enum Metric {
    Red,
    Green,
    Blue,
    Max,
    Min,
    Chroma,
    Hue,
    Saturation,
    Brightness,
    Luma,
}

pub open spec fn spec_max3(r: u8, g: u8, b: u8) -> u8 {
    if r >= g && r >= b {
        r
    } else if g >= b {
        g
    } else {
        b
    }
}

pub open spec fn spec_min3(r: u8, g: u8, b: u8) -> u8 {
    if r <= g && r <= b {
        r
    } else if g <= b {
        g
    } else {
        b
    }
}

pub open spec fn spec_chroma(r: u8, g: u8, b: u8) -> u8 {
    (spec_max3(r, g, b) - spec_min3(r, g, b)) as u8
}

pub open spec fn spec_absdiff(a: u8, b: u8) -> u8 {
    if a >= b {
        (a - b) as u8
    } else {
        (b - a) as u8
    }
}

/// An 8-bit hue approximation: 0 when the pixel is grey; otherwise the
/// channels' spread is divided by the chroma, scaled by 43 and shifted by
/// which channel holds the maximum (ties go to the bluest such channel).
pub open spec fn spec_hue(r: u8, g: u8, b: u8) -> u8 {
    let c = spec_chroma(r, g, b);
    if c == 0 {
        0u8
    } else if b == spec_max3(r, g, b) {
        (spec_absdiff(r, g) as int / c as int * 43 + 171) as u8
    } else if g == spec_max3(r, g, b) {
        (spec_absdiff(b, r) as int / c as int * 43 + 85) as u8
    } else {
        (spec_absdiff(g, b) as int / c as int * 43) as u8
    }
}

pub open spec fn spec_saturation(r: u8, g: u8, b: u8) -> u8 {
    if spec_max3(r, g, b) == 0 {
        0u8
    } else {
        (spec_chroma(r, g, b) as int / spec_max3(r, g, b) as int) as u8
    }
}

/// An overflow-safe integer average of the three channels: each channel's
/// third, plus half the sum of the leftover remainders.
pub open spec fn spec_brightness(r: u8, g: u8, b: u8) -> u8 {
    (r as int / 3 + g as int / 3 + b as int / 3 + (r as int % 3 + g as int % 3 + b as int % 3)
        / 2) as u8
}

/// An integer-weighted luma: (2R + G + 4B) / 8.
pub open spec fn spec_luma(r: u8, g: u8, b: u8) -> u8 {
    ((2 * r as int + g as int + 4 * b as int) / 8) as u8
}

/// The ordering byte a metric assigns to the channel bytes of one pixel.
pub open spec fn spec_metric(m: Metric, r: u8, g: u8, b: u8) -> u8 {
    match m {
        Metric::Red => r,
        Metric::Green => g,
        Metric::Blue => b,
        Metric::Max => spec_max3(r, g, b),
        Metric::Min => spec_min3(r, g, b),
        Metric::Chroma => spec_chroma(r, g, b),
        Metric::Hue => spec_hue(r, g, b),
        Metric::Saturation => spec_saturation(r, g, b),
        Metric::Brightness => spec_brightness(r, g, b),
        Metric::Luma => spec_luma(r, g, b),
    }
}

/// Every metric yields a byte, and the hue of a chroma-free (grey) pixel is 0.
pub proof fn lemma_metric_range(m: Metric, r: u8, g: u8, b: u8)
    ensures
        0 <= spec_metric(m, r, g, b) <= 255,
        spec_chroma(r, g, b) == 0 ==> spec_hue(r, g, b) == 0,
{
}

fn max3(r: u8, g: u8, b: u8) -> (v: u8)
    ensures
        v == spec_max3(r, g, b),
{
    if r >= g && r >= b {
        r
    } else if g >= b {
        g
    } else {
        b
    }
}

fn min3(r: u8, g: u8, b: u8) -> (v: u8)
    ensures
        v == spec_min3(r, g, b),
{
    if r <= g && r <= b {
        r
    } else if g <= b {
        g
    } else {
        b
    }
}

fn absdiff(a: u8, b: u8) -> (v: u8)
    ensures
        v == spec_absdiff(a, b),
{
    if a >= b {
        a - b
    } else {
        b - a
    }
}

fn hue3(r: u8, g: u8, b: u8) -> (v: u8)
    ensures
        v == spec_hue(r, g, b),
{
    let mx: u8 = max3(r, g, b);
    let mn: u8 = min3(r, g, b);
    let c: u8 = mx - mn;
    if c == 0 {
        0
    } else if b == mx {
        let d: u8 = absdiff(r, g);
        assert(d as int / c as int <= 1) by (nonlinear_arith)
            requires
                0 < c,
                d <= c,
        ;
        d / c * 43 + 171
    } else if g == mx {
        let d: u8 = absdiff(b, r);
        assert(d as int / c as int <= 1) by (nonlinear_arith)
            requires
                0 < c,
                d <= c,
        ;
        d / c * 43 + 85
    } else {
        let d: u8 = absdiff(g, b);
        assert(d as int / c as int <= 1) by (nonlinear_arith)
            requires
                0 < c,
                d <= c,
        ;
        d / c * 43
    }
}

fn saturation3(r: u8, g: u8, b: u8) -> (v: u8)
    ensures
        v == spec_saturation(r, g, b),
{
    let mx: u8 = max3(r, g, b);
    if mx == 0 {
        0
    } else {
        let mn: u8 = min3(r, g, b);
        (mx - mn) / mx
    }
}

fn brightness3(r: u8, g: u8, b: u8) -> (v: u8)
    ensures
        v == spec_brightness(r, g, b),
{
    let s: u16 = r as u16 / 3 + g as u16 / 3 + b as u16 / 3 + (r as u16 % 3 + g as u16 % 3
        + b as u16 % 3) / 2;
    s as u8
}

fn luma3(r: u8, g: u8, b: u8) -> (v: u8)
    ensures
        v == spec_luma(r, g, b),
{
    let s: u16 = (2 * r as u16 + g as u16 + 4 * b as u16) / 8;
    s as u8
}

/// The red channel of a pixel's channel bytes.
pub fn pixel_red(p: &[u8]) -> (v: u8)
    requires
        p@.len() >= 3,
    ensures
        v == spec_metric(Metric::Red, p@[0], p@[1], p@[2]),
{
    p[0]
}

/// The green channel of a pixel's channel bytes.
pub fn pixel_green(p: &[u8]) -> (v: u8)
    requires
        p@.len() >= 3,
    ensures
        v == spec_metric(Metric::Green, p@[0], p@[1], p@[2]),
{
    p[1]
}

/// The blue channel of a pixel's channel bytes.
pub fn pixel_blue(p: &[u8]) -> (v: u8)
    requires
        p@.len() >= 3,
    ensures
        v == spec_metric(Metric::Blue, p@[0], p@[1], p@[2]),
{
    p[2]
}

/// The largest of the three color channels.
pub fn pixel_max(p: &[u8]) -> (v: u8)
    requires
        p@.len() >= 3,
    ensures
        v == spec_metric(Metric::Max, p@[0], p@[1], p@[2]),
{
    max3(p[0], p[1], p[2])
}

/// The smallest of the three color channels.
pub fn pixel_min(p: &[u8]) -> (v: u8)
    requires
        p@.len() >= 3,
    ensures
        v == spec_metric(Metric::Min, p@[0], p@[1], p@[2]),
{
    min3(p[0], p[1], p[2])
}

/// The spread between the largest and smallest color channel.
pub fn pixel_chroma(p: &[u8]) -> (v: u8)
    requires
        p@.len() >= 3,
    ensures
        v == spec_metric(Metric::Chroma, p@[0], p@[1], p@[2]),
{
    max3(p[0], p[1], p[2]) - min3(p[0], p[1], p[2])
}

/// The 8-bit hue approximation; 0 for grey pixels.
pub fn pixel_hue(p: &[u8]) -> (v: u8)
    requires
        p@.len() >= 3,
    ensures
        v == spec_metric(Metric::Hue, p@[0], p@[1], p@[2]),
{
    hue3(p[0], p[1], p[2])
}

/// Chroma divided by the largest channel; 0 for black pixels.
pub fn pixel_saturation(p: &[u8]) -> (v: u8)
    requires
        p@.len() >= 3,
    ensures
        v == spec_metric(Metric::Saturation, p@[0], p@[1], p@[2]),
{
    saturation3(p[0], p[1], p[2])
}

/// The overflow-safe integer average of the color channels.
pub fn pixel_brightness(p: &[u8]) -> (v: u8)
    requires
        p@.len() >= 3,
    ensures
        v == spec_metric(Metric::Brightness, p@[0], p@[1], p@[2]),
{
    brightness3(p[0], p[1], p[2])
}

/// The integer-weighted luma (2R + G + 4B) / 8.
pub fn pixel_luma(p: &[u8]) -> (v: u8)
    requires
        p@.len() >= 3,
    ensures
        v == spec_metric(Metric::Luma, p@[0], p@[1], p@[2]),
{
    luma3(p[0], p[1], p[2])
}

/// The selected metric applied to three channel bytes.
pub fn metric_value(m: Metric, r: u8, g: u8, b: u8) -> (v: u8)
    ensures
        v == spec_metric(m, r, g, b),
{
    match m {
        Metric::Red => r,
        Metric::Green => g,
        Metric::Blue => b,
        Metric::Max => max3(r, g, b),
        Metric::Min => min3(r, g, b),
        Metric::Chroma => max3(r, g, b) - min3(r, g, b),
        Metric::Hue => hue3(r, g, b),
        Metric::Saturation => saturation3(r, g, b),
        Metric::Brightness => brightness3(r, g, b),
        Metric::Luma => luma3(r, g, b),
    }
}

} // verus!
