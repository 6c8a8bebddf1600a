//! Chord types: the notes of a chord as multiples of its root.

use crate::arithmetic::product;
use crate::arithmetic::times;
use vstd::prelude::*;

verus! {

/// A chord as the frequency multipliers of its notes above the root, each a
/// single-precision bit pattern.
#[derive(Clone, Debug)]
pub struct ChordType {
    offsets: Vec<u32>,
}

impl View for ChordType {
    type V = Seq<u32>;

    closed spec fn view(&self) -> Seq<u32> {
        self.offsets@
    }
}

impl ChordType {
    pub fn new(offsets: Vec<u32>) -> (r: Self)
        ensures
            r@ == offsets@,
    {
        ChordType { offsets }
    }

    /// The number of notes: the root and one for each multiplier.
    pub fn num_notes(&self) -> (r: usize)
        requires
            self@.len() < usize::MAX,
        ensures
            r == self@.len() + 1,
    {
        self.offsets.len() + 1
    }

    /// Whether the frequencies of the chord above `base_frequency` can be
    /// had: the base frequency and every multiplier are finite and not
    /// negative.
    pub open spec fn sounds_at(&self, base_frequency: u32) -> bool {
        &&& base_frequency < 0x7f80_0000
        &&& forall|i: int| 0 <= i < self@.len() ==> #[trigger] self@[i] < 0x7f80_0000
    }

    /// The frequencies of the notes of the chord above `base_frequency`:
    /// the base frequency itself, then its product with each multiplier in
    /// turn.
    pub open spec fn frequencies_above(&self, base_frequency: u32) -> Seq<u32> {
        Seq::new(
            self@.len() + 1,
            |i: int|
                if i == 0 {
                    base_frequency
                } else {
                    product(base_frequency, self@[i - 1])
                },
        )
    }

    /// The frequencies of the notes of the chord above `base_frequency`,
    /// root first; nothing where the base frequency or a multiplier is
    /// negative, infinite or a NaN.
    pub fn frequencies(&self, base_frequency: u32) -> (r: Option<Vec<u32>>)
        ensures
            match r {
                Some(frequencies) => self.sounds_at(base_frequency) && frequencies@
                    == self.frequencies_above(base_frequency),
                None => !self.sounds_at(base_frequency),
            },
    {
        if base_frequency >= 0x7f80_0000 {
            return None;
        }
        let mut frequencies: Vec<u32> = Vec::new();
        frequencies.push(base_frequency);
        let mut i: usize = 0;
        while i < self.offsets.len()
            invariant
                i <= self.offsets.len(),
                base_frequency < 0x7f80_0000,
                frequencies.len() == i + 1,
                frequencies[0] == base_frequency,
                forall|j: int| 0 <= j < i ==> #[trigger] self.offsets[j] < 0x7f80_0000,
                forall|j: int|
                    1 <= j <= i ==> #[trigger] frequencies[j] == product(
                        base_frequency,
                        self.offsets[j - 1],
                    ),
            decreases self.offsets.len() - i,
        {
            if self.offsets[i] >= 0x7f80_0000 {
                assert(!(self@[i as int] < 0x7f80_0000));
                return None;
            }
            frequencies.push(times(base_frequency, self.offsets[i]));
            i = i + 1;
        }
        assert(frequencies@ =~= self.frequencies_above(base_frequency));
        Some(frequencies)
    }

    /// The multipliers, in the order of the notes above the root.
    pub fn offsets(&self) -> (r: &Vec<u32>)
        ensures
            r@ == self@,
    {
        &self.offsets
    }
}

} // verus!
