//! A strip of a fixed number of LEDs, and the datagram that sets its colours.

use crate::channel::encode_channel;
use crate::color::Color;
use crate::error::LEDError;
use vstd::prelude::*;

verus! {

/// The datagram for a frame: three bytes per colour, in the order of the
/// colours, with nothing before, between or after them.
pub open spec fn payload(colors: Seq<Color>) -> Seq<u8> {
    Seq::new(3 * colors.len(), |i: int| colors[i / 3].encoded()[i % 3])
}

/// A strip with a fixed number of LEDs.
#[derive(Debug)]
pub struct LEDDevice {
    num_leds: usize,
}

impl LEDDevice {
    /// The number of colours that every frame for this strip must hold.
    pub closed spec fn expected_count(&self) -> nat {
        self.num_leds as nat
    }

    /// A strip of `num_leds` LEDs. Zero is allowed: the only frame for such a
    /// strip is the empty one.
    pub fn new(num_leds: usize) -> (device: LEDDevice)
        ensures
            device.expected_count() == num_leds,
    {
        LEDDevice { num_leds }
    }

    /// Encodes one colour.
    pub fn to_u8(color: &Color) -> (bytes: [u8; 3])
        ensures
            bytes@ == color.encoded(),
    {
        let red = encode_channel(color.red);
        let green = encode_channel(color.green);
        let blue = encode_channel(color.blue);
        let bytes = [red, green, blue];
        assert(bytes@ =~= color.encoded());
        bytes
    }

    /// Builds the datagram that sets the strip to `color_values`.
    ///
    /// The frame must hold exactly one colour per LED; otherwise the result is
    /// a size error that reports both counts, and no datagram is built. For a
    /// strip without LEDs the datagram is empty; it is a datagram all the
    /// same, and a caller that sends what it gets sends an empty one. The
    /// result depends on the frame alone, and the strip is left as it was.
    pub fn update(&self, color_values: &[Color]) -> (result: Result<Vec<u8>, LEDError>)
        ensures
            match result {
                Ok(data) => {
                    &&& color_values@.len() == self.expected_count()
                    &&& data@ == payload(color_values@)
                    &&& data@.len() == 3 * self.expected_count()
                },
                Err(LEDError::SizeError { received, expected }) => {
                    &&& color_values@.len() != self.expected_count()
                    &&& received == color_values@.len()
                    &&& expected == self.expected_count()
                },
                Err(LEDError::IOError(_)) => false,
            },
    {
        if color_values.len() != self.num_leds {
            return Err(
                LEDError::SizeError { expected: self.num_leds, received: color_values.len() },
            );
        }
        let mut data: Vec<u8> = Vec::new();
        let mut done: usize = 0;
        while done < color_values.len()
            invariant
                done <= color_values@.len(),
                data@ == payload(color_values@.take(done as int)),
            decreases color_values@.len() - done,
        {
            let bytes = LEDDevice::to_u8(&color_values[done]);
            data.extend_from_slice(&bytes);
            done += 1;
            assert(data@ =~= payload(color_values@.take(done as int)));
        }
        assert(color_values@.take(done as int) =~= color_values@);
        Ok(data)
    }
}

/// Equal frames give equal datagrams: the datagram depends on nothing but the
/// colours and their order.
pub proof fn lemma_equal_frames_equal_payloads(first: Seq<Color>, second: Seq<Color>)
    requires
        first.len() == second.len(),
        forall|i: int| 0 <= i < first.len() ==> first[i] == second[i],
    ensures
        payload(first) == payload(second),
{
    assert(first =~= second);
}

/// The datagram keeps the order of the frame: its `i`-th group of three bytes
/// encodes the `i`-th colour.
pub proof fn lemma_payload_keeps_order(colors: Seq<Color>, i: int)
    requires
        0 <= i < colors.len(),
    ensures
        payload(colors).len() == 3 * colors.len(),
        payload(colors).subrange(3 * i, 3 * i + 3) == colors[i].encoded(),
{
    assert(payload(colors).subrange(3 * i, 3 * i + 3) =~= colors[i].encoded());
}

/// Reordering the frame reorders the datagram alike: if the `i`-th colour of
/// `reordered` is the `from[i]`-th colour of `colors`, then the `i`-th group of
/// three bytes of the one datagram is the `from[i]`-th group of the other.
pub proof fn lemma_payload_follows_reordering(
    colors: Seq<Color>,
    reordered: Seq<Color>,
    from: Seq<int>,
)
    requires
        reordered.len() == colors.len(),
        from.len() == colors.len(),
        forall|i: int|
            0 <= i < from.len() ==> 0 <= #[trigger] from[i] < colors.len() && reordered[i]
                == colors[from[i]],
    ensures
        payload(reordered).len() == payload(colors).len(),
        forall|i: int|
            0 <= i < from.len() ==> #[trigger] payload(reordered).subrange(3 * i, 3 * i + 3)
                == payload(colors).subrange(3 * from[i], 3 * from[i] + 3),
{
    assert forall|i: int| 0 <= i < from.len() implies #[trigger] payload(reordered).subrange(
        3 * i,
        3 * i + 3,
    ) == payload(colors).subrange(3 * from[i], 3 * from[i] + 3) by {
        lemma_payload_keeps_order(reordered, i);
        lemma_payload_keeps_order(colors, from[i]);
    }
}

} // verus!
