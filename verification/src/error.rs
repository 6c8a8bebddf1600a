//! Why a description of the parameter space is refused.

use vstd::prelude::*;

verus! {

/// A reason for which a distribution or a template cannot be built.
#[derive(Clone, Copy, Debug, PartialEq, Eq, Structural)]
pub enum ParameterError {
    /// The lower end of a range is negative or NaN.
    NegativeMinimum,
    /// The upper end of a range is below its lower end, or NaN.
    EmptyRange,
    /// A probability is outside of what its use admits.
    Probability,
    /// The lowest octave frequency is not positive.
    MinimumFrequency,
    /// The highest octave frequency is below twice the lowest.
    OctaveRoom,
    /// An amplitude range reaches above full scale.
    Amplitude,
    /// The frequency range is empty: its lower end is not below its upper end.
    FrequencyRange,
    /// A datapoint would hold no sample.
    NoSamples,
    /// The sample rate is zero.
    SampleRate,
    /// No chord type is allowed.
    NoChords,
    /// An allowed chord type is not in the chord table.
    ChordType,
    /// The amplitude maxima of the oscillators sum to more than full scale.
    AmplitudeBudget,
    /// No oscillator of the template bears a frequency.
    NoFrequency,
}

} // verus!
