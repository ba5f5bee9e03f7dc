//! From light to a pixel value: the last step of rendering a channel.
//!
//! A channel arrives gamma-corrected, as a number meant to lie between zero
//! and one. It is clamped to the range from 0 to 0.999 and multiplied by 256;
//! the whole part of the result is the level written to the picture.

use crate::ppm::Rgb;
use crate::raster::Image;
use crate::scalar::{lemma_magnitude_increases, magnitude_of, Scalar, HIDDEN_BIT};
use crate::vec3::Vec3;
use vstd::arithmetic::div_mod::{lemma_basic_div, lemma_div_multiples_vanish_quotient};
use vstd::arithmetic::power2::{
    lemma2_to64,
    lemma2_to64_rest,
    lemma_pow2_adds,
    lemma_pow2_pos,
    lemma_pow2_strictly_increases,
    pow2,
};
use vstd::prelude::*;

verus! {

/// The double nearest to 0.999: the brightest value a channel is let through
/// with.
pub const BRIGHTEST: u64 = 0x3fef_f7ce_d916_872b;

/// The channel clamped to the range from zero to [`BRIGHTEST`], in units of
/// 2^-1074. What is no number counts as zero.
pub open spec fn clamped(channel: Scalar) -> int {
    let top = Scalar { bits: BRIGHTEST };
    if channel.nan() {
        0
    } else if channel.scaled() < 0 {
        0
    } else if channel.scaled() > top.scaled() {
        top.scaled()
    } else {
        channel.scaled()
    }
}

/// The level of a channel: the whole part of 256 times its clamped value.
pub open spec fn level_of(channel: Scalar) -> int {
    (256 * clamped(channel)) / (pow2(1074) as int)
}

/// For a normal double with exponent field `exponent` and significand
/// `significand`, 256 times its value has the whole part
/// `significand / 2^(1067 - exponent)`.
proof fn lemma_level_of_normal(exponent: nat, significand: nat)
    requires
        1 <= exponent <= 1067,
    ensures
        (256 * (significand as int * pow2((exponent - 1) as nat) as int)) / (pow2(1074) as int)
            == significand as int / (pow2((1067 - exponent) as nat) as int),
{
    let shift = (1067 - exponent) as nat;
    let common = pow2((exponent + 7) as nat) as int;
    let m = significand as int;
    lemma2_to64();
    lemma_pow2_adds(8, (exponent - 1) as nat);
    lemma_pow2_adds((exponent + 7) as nat, shift);
    lemma_pow2_pos((exponent + 7) as nat);
    lemma_pow2_pos(shift);
    assert(256 * (m * pow2((exponent - 1) as nat)) == common * m) by (nonlinear_arith)
        requires
            common == 256 * pow2((exponent - 1) as nat),
    ;
    assert(pow2(1074) == common * pow2(shift));
    lemma_div_multiples_vanish_quotient(common, m, pow2(shift) as int);
}

/// The brightest value that is let through has level 255.
proof fn lemma_brightest_level()
    ensures
        magnitude_of(BRIGHTEST) == 0x1f_f7ce_d916_872b * pow2(1021),
        (256 * (magnitude_of(BRIGHTEST) as int)) / (pow2(1074) as int) == 255,
{
    assert(BRIGHTEST / HIDDEN_BIT == 1022);
    assert(BRIGHTEST % HIDDEN_BIT == 0xf_f7ce_d916_872b);
    lemma_level_of_normal(1022, 0x1f_f7ce_d916_872b);
    lemma2_to64_rest();
    assert(pow2(45) == 0x2000_0000_0000);
    assert(0x1f_f7ce_d916_872bint / 0x2000_0000_0000int == 255);
    assert(magnitude_of(BRIGHTEST) as int == 0x1f_f7ce_d916_872bint * (pow2(1021) as int));
}

/// Levels run from 0 to 255, and a brighter channel never gets a lower
/// level.
pub proof fn lemma_levels_keep_order(darker: Scalar, brighter: Scalar)
    requires
        darker.le(brighter),
    ensures
        0 <= level_of(darker) <= level_of(brighter) <= 255,
{
    lemma_pow2_pos(1074);
    lemma_brightest_level();
    let unit = pow2(1074) as int;
    vstd::arithmetic::div_mod::lemma_div_is_ordered(0, 256 * clamped(darker), unit);
    vstd::arithmetic::div_mod::lemma_div_is_ordered(
        256 * clamped(darker),
        256 * clamped(brighter),
        unit,
    );
    vstd::arithmetic::div_mod::lemma_div_is_ordered(
        256 * clamped(brighter),
        256 * (magnitude_of(BRIGHTEST) as int),
        unit,
    );
}

/// The level of a channel, from 0 to 255.
pub fn quantize(channel: Scalar) -> (level: u8)
    ensures
        level == level_of(channel),
{
    proof {
        lemma_pow2_pos(1074);
    }
    if channel.is_nan() || channel.is_sign_negative() {
        return 0;
    }
    let bits: u64 = channel.to_bits();
    if bits >= BRIGHTEST {
        proof {
            lemma_brightest_level();
            if bits > BRIGHTEST {
                lemma_magnitude_increases(BRIGHTEST, bits);
            }
        }
        return 255;
    }
    proof {
        lemma_magnitude_increases(bits, BRIGHTEST);
    }
    let exponent: u64 = bits / HIDDEN_BIT;
    let significand: u64 = HIDDEN_BIT + bits % HIDDEN_BIT;
    if exponent < 1015 {
        proof {
            lemma2_to64_rest();
            if exponent == 0 {
                lemma_pow2_strictly_increases(60, 1074);
                lemma_basic_div(256 * (magnitude_of(bits) as int), pow2(1074) as int);
            } else {
                let shift = (1067 - exponent) as nat;
                lemma_level_of_normal(exponent as nat, significand as nat);
                if 53 < shift {
                    lemma_pow2_strictly_increases(53, shift);
                }
                lemma_basic_div(significand as int, pow2(shift) as int);
            }
        }
        return 0;
    }
    let shift: u64 = 1067 - exponent;
    let level: u64 = significand >> shift;
    proof {
        lemma_level_of_normal(exponent as nat, significand as nat);
        vstd::bits::lemma_u64_shr_is_div(significand, shift);
        lemma2_to64_rest();
        if 45 < shift {
            lemma_pow2_strictly_increases(45, shift as nat);
        }
        vstd::arithmetic::div_mod::lemma_div_is_ordered_by_denominator(
            significand as int,
            pow2(45) as int,
            pow2(shift as nat) as int,
        );
        assert(significand / 0x2000_0000_0000 < 256);
    }
    level as u8
}

/// The pixel of a gamma-corrected colour: each channel quantized by itself.
pub fn quantize_color(color: Vec3) -> (pixel: Rgb)
    ensures
        pixel.r == level_of(color.x),
        pixel.g == level_of(color.y),
        pixel.b == level_of(color.z),
{
    Rgb { r: quantize(color.x), g: quantize(color.y), b: quantize(color.z) }
}

/// The picture of gamma-corrected colours, pixel by pixel.
pub fn develop(image: &Image<Vec3>) -> (picture: Image<Rgb>)
    ensures
        picture@.width == image@.width,
        picture@.height == image@.height,
        picture@.pixels.len() == image@.pixels.len(),
        forall|k: int|
            0 <= k < image@.pixels.len() ==> {
                &&& (#[trigger] picture@.pixels[k]).r == level_of(image@.pixels[k].x)
                &&& picture@.pixels[k].g == level_of(image@.pixels[k].y)
                &&& picture@.pixels[k].b == level_of(image@.pixels[k].z)
            },
{
    let colors = image.pixels();
    let mut pixels: Vec<Rgb> = Vec::new();
    let mut k: usize = 0;
    while k < colors.len()
        invariant
            k <= colors@.len(),
            pixels@.len() == k,
            forall|i: int|
                0 <= i < k ==> {
                    &&& (#[trigger] pixels@[i]).r == level_of(colors@[i].x)
                    &&& pixels@[i].g == level_of(colors@[i].y)
                    &&& pixels@[i].b == level_of(colors@[i].z)
                },
        decreases colors@.len() - k,
    {
        pixels.push(quantize_color(colors[k]));
        k = k + 1;
    }
    match Image::from_pixels(image.width(), image.height(), pixels) {
        Some(picture) => picture,
        None => unreached(),
    }
}

} // verus!
