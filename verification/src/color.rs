//! A colour as three binary32 intensities.

use crate::binary32::in_unit_interval;
use crate::channel::{lemma_quantized_in_unit_interval, quantized, scaled};
use vstd::prelude::*;

verus! {

/// One LED's colour. Each channel is the 32-bit encoding of a binary32
/// intensity, as `f32::to_bits` gives it. Intensities are meant to lie between
/// 0.0 and 1.0; any encoding is accepted and is clamped when the colour is
/// encoded.
#[derive(Debug, Clone, Copy)]
pub struct Color {
    pub red: u32,
    pub green: u32,
    pub blue: u32,
}

impl Color {
    /// A colour with the given channel encodings, stored unchanged.
    pub fn new(red: u32, green: u32, blue: u32) -> (color: Color)
        ensures
            color.red == red,
            color.green == green,
            color.blue == blue,
    {
        Color { red, green, blue }
    }

    /// The three bytes that stand for this colour on the wire: red, green,
    /// blue, each channel quantised on its own.
    pub open spec fn encoded(self) -> Seq<u8> {
        seq![quantized(self.red), quantized(self.green), quantized(self.blue)]
    }
}

/// A colour whose channels all lie in the unit interval encodes to the
/// truncated products of its intensities and 255.
pub proof fn lemma_encoded_in_unit_interval(color: Color)
    requires
        in_unit_interval(color.red),
        in_unit_interval(color.green),
        in_unit_interval(color.blue),
    ensures
        color.encoded() == seq![
            scaled(color.red) as u8,
            scaled(color.green) as u8,
            scaled(color.blue) as u8,
        ],
        scaled(color.red) <= 255,
        scaled(color.green) <= 255,
        scaled(color.blue) <= 255,
{
    lemma_quantized_in_unit_interval(color.red);
    lemma_quantized_in_unit_interval(color.green);
    lemma_quantized_in_unit_interval(color.blue);
}

} // verus!
