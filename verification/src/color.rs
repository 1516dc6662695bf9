//! Colours with channels in thousandths.

use vstd::prelude::*;
use crate::fixed::{clamped, MILLI};
use crate::random::random_number;

verus! {

/// A colour. Each channel is a number of thousandths, a thousand being full.
/// Jitter may carry a channel below zero or above full; what is shown of such
/// a channel is up to the renderer.
#[derive(Clone, Copy, Debug, PartialEq, Eq, Structural)]
pub struct Color {
    pub r: i64,
    pub g: i64,
    pub b: i64,
}

/// Largest share of a channel that one jitter may take or give, in thousandths.
pub const JITTER: i64 = 100;

/// A channel moved down by `amount`: the difference, or the nearest number
/// that the arithmetic holds where the difference is beyond it.
pub open spec fn channel_jittered(channel: int, amount: int) -> int {
    clamped(channel - amount, i64::MIN as int, i64::MAX as int)
}

impl Color {
    /// This colour with every channel moved down by `amount`.
    pub open spec fn jittered_spec(self, amount: int) -> Color {
        Color {
            r: channel_jittered(self.r as int, amount) as i64,
            g: channel_jittered(self.g as int, amount) as i64,
            b: channel_jittered(self.b as int, amount) as i64,
        }
    }

    /// `other` is this colour after some jitter of at most `JITTER`.
    pub open spec fn may_become(self, other: Color) -> bool {
        exists|amount: int| -JITTER <= amount <= JITTER && other == #[trigger] self.jittered_spec(amount)
    }

    /// No channel is so near the ends of the arithmetic that a jitter could
    /// carry it beyond them.
    pub open spec fn has_room(self) -> bool {
        &&& i64::MIN + JITTER <= self.r <= i64::MAX - JITTER
        &&& i64::MIN + JITTER <= self.g <= i64::MAX - JITTER
        &&& i64::MIN + JITTER <= self.b <= i64::MAX - JITTER
    }

    /// One jitter moves all three channels down by the same amount, with no
    /// regard to zero or full.
    pub proof fn lemma_jitter_shifts_alike(self, amount: int)
        requires
            self.has_room(),
            -JITTER <= amount <= JITTER,
        ensures
            self.jittered_spec(amount).r == self.r - amount,
            self.jittered_spec(amount).g == self.g - amount,
            self.jittered_spec(amount).b == self.b - amount,
    {
    }

    /// A colour that this one may become differs from it by one amount of at
    /// most `JITTER` in all three channels.
    pub proof fn lemma_may_become(self, other: Color)
        requires
            self.has_room(),
            self.may_become(other),
        ensures
            -JITTER <= self.r - other.r <= JITTER,
            self.g - other.g == self.r - other.r,
            self.b - other.b == self.r - other.r,
    {
        let amount = choose|amount: int|
            -JITTER <= amount <= JITTER && other == #[trigger] self.jittered_spec(amount);
        self.lemma_jitter_shifts_alike(amount);
    }

    /// Moves every channel down by `amount`.
    pub fn jittered(self, amount: i64) -> (c: Color)
        ensures
            c == self.jittered_spec(amount as int),
    {
        Color {
            r: jitter_channel(self.r, amount),
            g: jitter_channel(self.g, amount),
            b: jitter_channel(self.b, amount),
        }
    }

    /// Moves every channel down by one random amount of at most `JITTER`.
    pub fn randomly_jittered(self) -> (c: Color)
        ensures
            self.may_become(c),
    {
        let draw = random_number();
        proof {
            crate::fixed::lemma_scaled_bound(draw as int, JITTER as int, MILLI as int, 1000, 100);
        }
        let amount = crate::fixed::mul_div(draw, JITTER, MILLI);
        self.jittered(amount)
    }
}

fn jitter_channel(channel: i64, amount: i64) -> (c: i64)
    ensures
        c == channel_jittered(channel as int, amount as int),
{
    let moved: i128 = (channel as i128) - (amount as i128);
    if moved < i64::MIN as i128 {
        i64::MIN
    } else if moved > i64::MAX as i128 {
        i64::MAX
    } else {
        moved as i64
    }
}

/// The colour of a fresh track segment.
pub open spec fn floor_color_spec() -> Color {
    Color { r: 847, g: 749, b: 847 }
}

/// The colour of a fresh track segment.
#[verifier::when_used_as_spec(floor_color_spec)]
pub fn floor_color() -> (c: Color)
    ensures
        c == floor_color_spec(),
        c == (Color { r: 847, g: 749, b: 847 }),
{
    Color { r: 847, g: 749, b: 847 }
}

} // verus!
