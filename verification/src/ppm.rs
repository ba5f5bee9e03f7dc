//! The plain-text picture format in which a finished image is written: a
//! header naming the size and the largest channel value, then one line of
//! three decimal numbers per pixel.

use crate::raster::Image;
use vstd::prelude::*;

verus! {

/// A pixel ready to be written: three channels of eight bits.
#[derive(Clone, Copy, Debug, PartialEq, Eq, Structural)]
pub struct Rgb {
    pub r: u8,
    pub g: u8,
    pub b: u8,
}

/// The ASCII character of a single digit.
pub open spec fn digit(d: nat) -> u8 {
    (48 + d) as u8
}

/// The decimal notation of `n`, most significant digit first.
pub open spec fn decimal(n: nat) -> Seq<u8>
    decreases n,
{
    if n < 10 {
        seq![digit(n)]
    } else {
        decimal(n / 10).push(digit(n % 10))
    }
}

/// The number that a string of ASCII digits denotes.
pub open spec fn decimal_value(text: Seq<u8>) -> int
    decreases text.len(),
{
    if text.len() == 0 {
        0
    } else {
        decimal_value(text.drop_last()) * 10 + (text.last() - 48)
    }
}

/// `decimal(n)` is the usual way to write `n`: it is not empty, holds digits
/// only, starts with a zero only when `n` is zero, and denotes `n`.
pub proof fn lemma_decimal_denotes(n: nat)
    ensures
        decimal(n).len() >= 1,
        forall|i: int| 0 <= i < decimal(n).len() ==> 48 <= #[trigger] decimal(n)[i] <= 57,
        decimal(n)[0] == 48 <==> n == 0,
        decimal_value(decimal(n)) == n,
    decreases n,
{
    if n < 10 {
        assert(decimal(n).drop_last() =~= Seq::<u8>::empty());
        assert(decimal_value(decimal(n)) == decimal_value(Seq::<u8>::empty()) * 10 + (digit(n)
            - 48));
    } else {
        lemma_decimal_denotes(n / 10);
        assert(decimal(n).drop_last() =~= decimal(n / 10));
    }
}

/// The first lines of a picture: format tag, size, largest channel value.
pub open spec fn header(width: nat, height: nat) -> Seq<u8> {
    seq![80u8, 51u8, 10u8] + decimal(width) + seq![32u8] + decimal(height) + seq![
        10u8,
        50u8,
        53u8,
        53u8,
        10u8,
    ]
}

/// The line of one pixel: red, green and blue, separated by single spaces.
pub open spec fn pixel_line(pixel: Rgb) -> Seq<u8> {
    decimal(pixel.r as nat) + seq![32u8] + decimal(pixel.g as nat) + seq![32u8] + decimal(
        pixel.b as nat,
    ) + seq![10u8]
}

/// The lines of the given pixels, in their order.
pub open spec fn body(pixels: Seq<Rgb>) -> Seq<u8>
    decreases pixels.len(),
{
    if pixels.len() == 0 {
        Seq::empty()
    } else {
        body(pixels.drop_last()) + pixel_line(pixels.last())
    }
}

/// The whole text of a picture.
pub open spec fn picture_text(width: nat, height: nat, pixels: Seq<Rgb>) -> Seq<u8> {
    header(width, height) + body(pixels)
}

/// Appends the decimal notation of `n`.
pub fn push_decimal(out: &mut Vec<u8>, n: u32)
    ensures
        final(out)@ == old(out)@ + decimal(n as nat),
    decreases n,
{
    if n >= 10 {
        push_decimal(out, n / 10);
    }
    let last: u8 = (n % 10) as u8;
    out.push(48 + last);
    assert(out@ =~= old(out)@ + decimal(n as nat));
}

/// Appends the line of one pixel.
pub fn push_pixel_line(out: &mut Vec<u8>, pixel: Rgb)
    ensures
        final(out)@ == old(out)@ + pixel_line(pixel),
{
    push_decimal(out, pixel.r as u32);
    out.push(32);
    push_decimal(out, pixel.g as u32);
    out.push(32);
    push_decimal(out, pixel.b as u32);
    out.push(10);
    assert(out@ =~= old(out)@ + pixel_line(pixel));
}

/// Writes a picture as text: the header, then the pixels row by row, top row
/// first, one per line.
pub fn encode(image: &Image<Rgb>) -> (text: Vec<u8>)
    ensures
        text@ == picture_text(image@.width, image@.height, image@.pixels),
{
    let mut text: Vec<u8> = Vec::new();
    text.push(80);
    text.push(51);
    text.push(10);
    push_decimal(&mut text, image.width());
    text.push(32);
    push_decimal(&mut text, image.height());
    text.push(10);
    text.push(50);
    text.push(53);
    text.push(53);
    text.push(10);
    assert(text@ =~= header(image@.width, image@.height));
    let pixels = image.pixels();
    let mut k: usize = 0;
    while k < pixels.len()
        invariant
            k <= pixels@.len(),
            pixels@ == image@.pixels,
            text@ == header(image@.width, image@.height) + body(pixels@.take(k as int)),
        decreases pixels@.len() - k,
    {
        push_pixel_line(&mut text, pixels[k]);
        proof {
            assert(pixels@.take(k + 1).drop_last() =~= pixels@.take(k as int));
            assert(text@ =~= header(image@.width, image@.height) + body(pixels@.take(k + 1)));
        }
        k = k + 1;
    }
    assert(pixels@.take(k as int) =~= pixels@);
    text
}

} // verus!
