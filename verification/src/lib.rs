//! Labelled synthetic audio: the parameter space of a dataset, the seed and
//! the chord of each datapoint, the octaves of chord notes, and what is
//! done to rendered buffers.
//!
//! Sample values, frequencies and amplitudes are IEEE 754 single-precision
//! numbers, probabilities are double-precision numbers, and both are carried
//! as their bit patterns (see [`ieee`]). What is computed with them is
//! computed as IEEE 754 asks (see [`arithmetic`]).

use crate::arithmetic::difference;
use crate::arithmetic::floor;
use crate::arithmetic::floored;
use crate::arithmetic::minus;
use crate::arithmetic::truncate;
use crate::arithmetic::truncated;
use crate::chord::ChordType;
use crate::ieee::HALF;
use crate::ieee::INFINITY;
use crate::ieee::is_less;
use crate::ieee::less;
use std::collections::hash_map::DefaultHasher;
use std::hash::Hasher;
use vstd::bytes::spec_u64_to_le_bytes;
use vstd::bytes::u64_to_le_bytes;
use vstd::prelude::*;
use vstd::std_specs::hash::DefaultHasherAdditionalSpecFns;

pub mod arithmetic;
pub mod audio;
pub mod chord;
pub mod data;
pub mod effects;
pub mod error;
pub mod ieee;
pub mod log_uniform;
pub mod parameters;
pub mod rng;
pub mod rounding;

verus! {

/// A range from which a number is drawn uniformly, both ends as
/// single-precision bit patterns.
#[derive(Clone, Copy, Debug)]
pub struct Uniform {
    min: u32,
    max: u32,
}

impl Uniform {
    pub closed spec fn spec_min(&self) -> u32 {
        self.min
    }

    pub closed spec fn spec_max(&self) -> u32 {
        self.max
    }

    /// The range from `min` up to, not including, `max`.
    pub fn new(min: u32, max: u32) -> (r: Self)
        ensures
            r.spec_min() == min,
            r.spec_max() == max,
    {
        Uniform { min, max }
    }

    /// The range from `min` up to `max`.
    pub fn new_inclusive(min: u32, max: u32) -> (r: Self)
        ensures
            r.spec_min() == min,
            r.spec_max() == max,
    {
        Uniform { min, max }
    }

    pub fn min(&self) -> (r: u32)
        ensures
            r == self.spec_min(),
    {
        self.min
    }

    pub fn max(&self) -> (r: u32)
        ensures
            r == self.spec_max(),
    {
        self.max
    }
}

/// The number of chord types in the chord table.
pub const NUM_CHORD_TYPES: u32 = 9;

/// The digest of `x`: what the standard library's default hasher returns
/// after one write of the eight bytes of `x`, least significant first.
pub open spec fn hash_value(x: u64) -> u64 {
    DefaultHasher::spec_finish(seq![spec_u64_to_le_bytes(x)])
}

/// Hashes a 64-bit value with the standard library's default hasher.
pub fn hash(x: u64) -> (digest: u64)
    ensures
        digest == hash_value(x),
{
    let mut hasher = DefaultHasher::new();
    let bytes = u64_to_le_bytes(x);
    hasher.write(bytes.as_slice());
    assert(hasher@ =~= seq![spec_u64_to_le_bytes(x)]);
    hasher.finish()
}

/// The multipliers of the chord type at `index` of the chord table, as
/// single-precision bit patterns: 3/2 for a power chord, 5/4 and 3/2 for a
/// major chord, and so on.
pub open spec fn chord_offsets(index: u32) -> Seq<u32> {
    if index == 0 {
        seq![]
    } else if index == 1 {
        seq![0x3fc0_0000u32]
    } else if index == 2 {
        seq![0x3fa0_0000u32, 0x3fc0_0000u32]
    } else if index == 3 {
        seq![0x3f99_999au32, 0x3fc0_0000u32]
    } else if index == 4 {
        seq![0x3f99_999au32, 0x3fb5_04f3u32]
    } else if index == 5 {
        seq![0x3faa_aaabu32, 0x3fc0_0000u32]
    } else if index == 6 {
        seq![0x3fa0_0000u32, 0x3fc0_0000u32, 0x3ff0_0000u32]
    } else if index == 7 {
        seq![0x3f99_999au32, 0x3fc0_0000u32, 0x3fe6_6666u32]
    } else {
        seq![0x3fa0_0000u32, 0x3fc0_0000u32, 0x3fe6_6666u32]
    }
}

/// The name of the chord type at `index` of the chord table.
pub open spec fn chord_name_of(index: u32) -> Seq<char> {
    if index == 0 {
        "Single Note"@
    } else if index == 1 {
        "Power"@
    } else if index == 2 {
        "Major"@
    } else if index == 3 {
        "Minor"@
    } else if index == 4 {
        "Diminished"@
    } else if index == 5 {
        "Sus"@
    } else if index == 6 {
        "Major 7th"@
    } else if index == 7 {
        "Minor 7th"@
    } else {
        "Dominant 7th"@
    }
}

/// The number of notes of the chord type at `index`: the root and one for
/// each multiplier.
pub open spec fn chord_notes(index: u32) -> nat {
    chord_offsets(index).len() + 1
}

/// The frequencies of the notes of the chord type at `index` above
/// `base_frequency`: the base frequency itself, then its product with each
/// multiplier in turn.
pub open spec fn chord_frequencies_above(index: u32, base_frequency: u32) -> Seq<u32> {
    Seq::new(
        chord_notes(index),
        |i: int|
            if i == 0 {
                base_frequency
            } else {
                crate::arithmetic::product(base_frequency, chord_offsets(index)[i - 1])
            },
    )
}

/// Every multiplier of the chord table is a finite number that is not
/// negative.
pub proof fn lemma_chord_offsets_finite(index: u32)
    ensures
        forall|i: int|
            0 <= i < chord_offsets(index).len() ==> #[trigger] chord_offsets(index)[i]
                < 0x7f80_0000,
{
}

/// The chord type at `index` of the chord table.
pub fn chord_type(index: u32) -> (r: ChordType)
    requires
        index < NUM_CHORD_TYPES,
    ensures
        r@ == chord_offsets(index),
{
    let mut offsets: Vec<u32> = Vec::new();
    if index == 1 {
        offsets.push(0x3fc0_0000);
    } else if index == 2 || index == 6 || index == 8 {
        offsets.push(0x3fa0_0000);
        offsets.push(0x3fc0_0000);
    } else if index == 3 || index == 7 {
        offsets.push(0x3f99_999a);
        offsets.push(0x3fc0_0000);
    } else if index == 4 {
        offsets.push(0x3f99_999a);
        offsets.push(0x3fb5_04f3);
    } else if index == 5 {
        offsets.push(0x3faa_aaab);
        offsets.push(0x3fc0_0000);
    }
    if index == 6 {
        offsets.push(0x3ff0_0000);
    } else if index == 7 || index == 8 {
        offsets.push(0x3fe6_6666);
    }
    assert(offsets@ =~= chord_offsets(index));
    ChordType::new(offsets)
}

/// The name of the chord type at `index` of the chord table.
pub fn chord_name(index: u32) -> (r: &'static str)
    requires
        index < NUM_CHORD_TYPES,
    ensures
        r@ == chord_name_of(index),
{
    if index == 0 {
        "Single Note"
    } else if index == 1 {
        "Power"
    } else if index == 2 {
        "Major"
    } else if index == 3 {
        "Minor"
    } else if index == 4 {
        "Diminished"
    } else if index == 5 {
        "Sus"
    } else if index == 6 {
        "Major 7th"
    } else if index == 7 {
        "Minor 7th"
    } else {
        "Dominant 7th"
    }
}

/// The number of notes of the chord type at `index`.
pub fn num_chord_notes(index: u32) -> (r: usize)
    requires
        index < NUM_CHORD_TYPES,
    ensures
        r == chord_notes(index),
        1 <= r <= 4,
{
    if index == 0 {
        1
    } else if index == 1 {
        2
    } else if index <= 5 {
        3
    } else {
        4
    }
}

/// A note number rounded to the nearest whole number, halves away from
/// zero, as a conversion to 32 bits gives it: nothing for a negative number
/// or a NaN, and the largest 32-bit number for a number too large.
pub open spec fn rounded_note_number(note_number: u32) -> u32 {
    let whole = truncated(note_number);
    let up: int = if note_number < 0x4b00_0000 && !less(
        difference(note_number, floored(note_number)),
        HALF,
    ) {
        1
    } else {
        0
    };
    if note_number >= 0x8000_0000 || note_number > 0x7f80_0000 {
        0
    } else if whole + up > u32::MAX {
        u32::MAX
    } else {
        (whole + up) as u32
    }
}

/// The pitch class of a note number: the number, rounded to a whole number,
/// modulo 12.
pub open spec fn pitch_class(note_number: u32) -> u32 {
    (rounded_note_number(note_number) % 12) as u32
}

/// The note, from 0 to 11, of a note number given as a single-precision bit
/// pattern.
pub fn note_number_to_note(note_number: u32) -> (r: u32)
    ensures
        r == pitch_class(note_number),
        r < 12,
{
    if note_number >= 0x8000_0000 || note_number > INFINITY {
        return 0;
    }
    let whole = truncate(note_number);
    let up: u64 = if note_number < 0x4b00_0000 && !is_less(
        minus(note_number, floor(note_number)),
        HALF,
    ) {
        1
    } else {
        0
    };
    let nearest: u32 = if whole >= u32::MAX as u64 {
        u32::MAX
    } else {
        (whole + up) as u32
    };
    nearest % 12
}

} // verus!
