//! Oscillators: what a template allows, and what one datapoint holds.

use crate::error::ParameterError;
use crate::ieee::at_most;
use crate::ieee::double_at_most;
use crate::ieee::double_is_at_most;
use crate::ieee::double_is_less;
use crate::ieee::double_less;
use crate::ieee::DOUBLE_ONE;
use crate::ieee::held_between;
use crate::ieee::hold_between;
use crate::ieee::is_at_most;
use crate::ieee::is_less;
use crate::ieee::less;
use crate::ieee::ONE;
use crate::ieee::ZERO;
use crate::log_uniform::checked_range;
use crate::log_uniform::LogUniform;
use crate::Uniform;
use vstd::prelude::*;

verus! {

/// The kinds of oscillator that a template can allow in one slot. A pulse
/// comes with the range of its duty cycle.
#[derive(Clone, Copy, Debug)]
pub enum OscillatorTypeDistribution {
    Sine,
    Saw,
    Pulse(Uniform),
    Triangle,
    Noise,
}

impl OscillatorTypeDistribution {
    /// Every kind but noise has a pitch.
    pub open spec fn bears_frequency(&self) -> bool {
        !(self is Noise)
    }

    pub fn has_frequency(&self) -> (r: bool)
        ensures
            r == self.bears_frequency(),
    {
        match self {
            OscillatorTypeDistribution::Sine => true,
            OscillatorTypeDistribution::Saw => true,
            OscillatorTypeDistribution::Pulse(_) => true,
            OscillatorTypeDistribution::Triangle => true,
            OscillatorTypeDistribution::Noise => false,
        }
    }
}

/// A probability with which a slot may be taken: above 0 and at most 1.
pub open spec fn is_inclusion_probability(probability: u64) -> bool {
    double_less(0, probability) && double_at_most(probability, DOUBLE_ONE)
}

/// Whether `probability`, a double-precision bit pattern, is above 0 and at
/// most 1.
pub fn check_inclusion_probability(probability: u64) -> (r: bool)
    ensures
        r == is_inclusion_probability(probability),
{
    double_is_less(0, probability) && double_is_at_most(probability, DOUBLE_ONE)
}

/// What building an oscillator slot from these values gives: the ends of its
/// amplitude range, or the first rule that they break.
pub open spec fn checked_oscillator(probability: u64, amplitude_range: (u32, u32)) -> Result<
    (u32, u32),
    ParameterError,
> {
    if !at_most(ZERO, amplitude_range.0) {
        Err(ParameterError::NegativeMinimum)
    } else if !at_most(amplitude_range.0, amplitude_range.1) {
        Err(ParameterError::EmptyRange)
    } else if !at_most(amplitude_range.1, ONE) {
        Err(ParameterError::Amplitude)
    } else if !is_inclusion_probability(probability) {
        Err(ParameterError::Probability)
    } else {
        checked_range(amplitude_range)
    }
}

/// Whether an oscillator kind is the one that a slot allows.
pub open spec fn same_kind(slot: OscillatorTypeDistribution, kind: OscillatorType) -> bool {
    match (slot, kind) {
        (OscillatorTypeDistribution::Sine, OscillatorType::Sine) => true,
        (OscillatorTypeDistribution::Saw, OscillatorType::Saw) => true,
        (OscillatorTypeDistribution::Pulse(_), OscillatorType::Pulse(_)) => true,
        (OscillatorTypeDistribution::Triangle, OscillatorType::Triangle) => true,
        (OscillatorTypeDistribution::Noise, OscillatorType::Noise(_)) => true,
        _ => false,
    }
}

/// The oscillator kind that a slot gives with the values drawn for it.
pub open spec fn kind_of(
    slot: OscillatorTypeDistribution,
    duty_cycle: u32,
    noise_seed: u64,
) -> OscillatorType {
    match slot {
        OscillatorTypeDistribution::Sine => OscillatorType::Sine,
        OscillatorTypeDistribution::Saw => OscillatorType::Saw,
        OscillatorTypeDistribution::Pulse(_) => OscillatorType::Pulse(duty_cycle),
        OscillatorTypeDistribution::Triangle => OscillatorType::Triangle,
        OscillatorTypeDistribution::Noise => OscillatorType::Noise(noise_seed),
    }
}

/// One oscillator slot of a template: a kind, the probability that a
/// datapoint takes the slot, and the range of its amplitude.
#[derive(Clone, Copy, Debug)]
pub struct OscillatorDistribution {
    oscillator_type_distribution: OscillatorTypeDistribution,
    probability: u64,
    amplitude_distribution: LogUniform,
}

impl OscillatorDistribution {
    pub closed spec fn spec_kind(&self) -> OscillatorTypeDistribution {
        self.oscillator_type_distribution
    }

    pub closed spec fn spec_probability(&self) -> u64 {
        self.probability
    }

    pub closed spec fn spec_amplitudes(&self) -> LogUniform {
        self.amplitude_distribution
    }

    /// The amplitude range is positive, ordered and at most full scale, and
    /// the probability is above 0 and at most 1.
    pub open spec fn wf(&self) -> bool {
        &&& self.spec_amplitudes().wf()
        &&& at_most(self.spec_amplitudes().spec_max(), ONE)
        &&& is_inclusion_probability(self.spec_probability())
    }

    /// Builds a slot. `probability` is a double-precision bit pattern, the
    /// ends of `amplitude_range` are single-precision ones.
    pub fn new(
        oscillator_type_distribution: OscillatorTypeDistribution,
        probability: u64,
        amplitude_range: (u32, u32),
    ) -> (r: Result<Self, ParameterError>)
        ensures
            match (r, checked_oscillator(probability, amplitude_range)) {
                (Ok(d), Ok(ends)) => {
                    &&& d.spec_kind() == oscillator_type_distribution
                    &&& d.spec_probability() == probability
                    &&& d.spec_amplitudes().spec_min() == ends.0
                    &&& d.spec_amplitudes().spec_max() == ends.1
                    &&& d.wf()
                },
                (Err(e), Err(f)) => e == f,
                _ => false,
            },
    {
        if !is_at_most(ZERO, amplitude_range.0) {
            return Err(ParameterError::NegativeMinimum);
        }
        if !is_at_most(amplitude_range.0, amplitude_range.1) {
            return Err(ParameterError::EmptyRange);
        }
        if !is_at_most(amplitude_range.1, ONE) {
            return Err(ParameterError::Amplitude);
        }
        if !check_inclusion_probability(probability) {
            return Err(ParameterError::Probability);
        }
        match LogUniform::from_tuple(amplitude_range) {
            Ok(amplitude_distribution) => Ok(
                OscillatorDistribution {
                    oscillator_type_distribution,
                    probability,
                    amplitude_distribution,
                },
            ),
            Err(e) => Err(e),
        }
    }

    /// Whether an oscillator is one of the slot: of its kind, and with an
    /// amplitude of its range.
    pub open spec fn admits(&self, oscillator: OscillatorParameters) -> bool {
        &&& same_kind(self.spec_kind(), oscillator.oscillator_type)
        &&& at_most(self.spec_amplitudes().spec_min(), oscillator.amplitude)
        &&& at_most(oscillator.amplitude, self.spec_amplitudes().spec_max())
    }

    /// Whether an oscillator is one of the slot.
    pub fn check(&self, oscillator: &OscillatorParameters) -> (r: bool)
        ensures
            r == self.admits(*oscillator),
    {
        let kind = match (self.oscillator_type_distribution, oscillator.oscillator_type) {
            (OscillatorTypeDistribution::Sine, OscillatorType::Sine) => true,
            (OscillatorTypeDistribution::Saw, OscillatorType::Saw) => true,
            (OscillatorTypeDistribution::Pulse(_), OscillatorType::Pulse(_)) => true,
            (OscillatorTypeDistribution::Triangle, OscillatorType::Triangle) => true,
            (OscillatorTypeDistribution::Noise, OscillatorType::Noise(_)) => true,
            _ => false,
        };
        kind && is_at_most(self.amplitude_distribution.min(), oscillator.amplitude) && is_at_most(
            oscillator.amplitude,
            self.amplitude_distribution.max(),
        )
    }

    /// The oscillator of the slot that the drawn values make: it is of the
    /// kind of the slot, a pulse with the duty cycle drawn and noise with the
    /// seed drawn, and its amplitude is the one drawn, held to the range of
    /// the slot.
    pub fn oscillator(&self, duty_cycle: u32, noise_seed: u64, amplitude: u32) -> (r:
        OscillatorParameters)
        requires
            self.wf(),
        ensures
            self.admits(r),
            r.amplitude == held_between(
                amplitude,
                self.spec_amplitudes().spec_min(),
                self.spec_amplitudes().spec_max(),
            ),
            r.oscillator_type == kind_of(self.spec_kind(), duty_cycle, noise_seed),
    {
        let oscillator_type = match self.oscillator_type_distribution {
            OscillatorTypeDistribution::Sine => OscillatorType::Sine,
            OscillatorTypeDistribution::Saw => OscillatorType::Saw,
            OscillatorTypeDistribution::Pulse(_) => OscillatorType::Pulse(duty_cycle),
            OscillatorTypeDistribution::Triangle => OscillatorType::Triangle,
            OscillatorTypeDistribution::Noise => OscillatorType::Noise(noise_seed),
        };
        let amplitude = hold_between(
            amplitude,
            self.amplitude_distribution.min(),
            self.amplitude_distribution.max(),
        );
        OscillatorParameters { oscillator_type, amplitude }
    }

    /// The upper end of the amplitude range.
    pub fn maximum_amplitude(&self) -> (r: u32)
        ensures
            r == self.spec_amplitudes().spec_max(),
    {
        self.amplitude_distribution.max()
    }

    pub fn has_frequency(&self) -> (r: bool)
        ensures
            r == self.spec_kind().bears_frequency(),
    {
        self.oscillator_type_distribution.has_frequency()
    }

    pub fn oscillator_type_distribution(&self) -> (r: OscillatorTypeDistribution)
        ensures
            r == self.spec_kind(),
    {
        self.oscillator_type_distribution
    }

    pub fn probability(&self) -> (r: u64)
        ensures
            r == self.spec_probability(),
    {
        self.probability
    }

    pub fn amplitude_distribution(&self) -> (r: LogUniform)
        ensures
            r == self.spec_amplitudes(),
    {
        self.amplitude_distribution
    }
}

/// The kind of one oscillator of a datapoint. A pulse holds its duty cycle,
/// noise holds the seed of its generator.
#[derive(Clone, Copy, Debug)]
pub enum OscillatorType {
    Sine,
    Saw,
    Pulse(u32),
    Triangle,
    Noise(u64),
}

/// One oscillator of a datapoint: its kind and its amplitude.
#[derive(Clone, Copy, Debug)]
pub struct OscillatorParameters {
    pub oscillator_type: OscillatorType,
    pub amplitude: u32,
}

impl OscillatorParameters {
    /// An oscillator bears a frequency when it sounds and is not noise.
    pub open spec fn bears_frequency(&self) -> bool {
        less(ZERO, self.amplitude) && !(self.oscillator_type is Noise)
    }

    pub fn new(oscillator_type: OscillatorType, amplitude: u32) -> (r: Self)
        ensures
            r.oscillator_type == oscillator_type,
            r.amplitude == amplitude,
    {
        OscillatorParameters { oscillator_type, amplitude }
    }

    pub fn amplitude(&self) -> (r: u32)
        ensures
            r == self.amplitude,
    {
        self.amplitude
    }

    pub fn has_frequency(&self) -> (r: bool)
        ensures
            r == self.bears_frequency(),
    {
        is_less(ZERO, self.amplitude) && match self.oscillator_type {
            OscillatorType::Sine => true,
            OscillatorType::Saw => true,
            OscillatorType::Pulse(_) => true,
            OscillatorType::Triangle => true,
            OscillatorType::Noise(_) => false,
        }
    }
}

/// Whether some oscillator of the sequence bears a frequency.
pub open spec fn some_bears_frequency(oscillators: Seq<OscillatorParameters>) -> bool {
    exists|i: int| 0 <= i < oscillators.len() && (#[trigger] oscillators[i]).bears_frequency()
}

} // verus!
