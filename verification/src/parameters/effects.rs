//! Effects: what a template allows, and what one datapoint holds.

use crate::arithmetic::divided_signed;
use crate::arithmetic::lemma_quotient_by_one;
use crate::arithmetic::lemma_quotient_within;
use crate::arithmetic::quotient;
use crate::arithmetic::signed_quotient;
use crate::error::ParameterError;
use crate::ieee::abs;
use crate::ieee::at_most;
use crate::ieee::held_between;
use crate::ieee::hold_between;
use crate::ieee::INFINITY;
use crate::ieee::is_at_most;
use crate::ieee::magnitude;
use crate::ieee::ONE;
use crate::ieee::ZERO;
use crate::log_uniform::checked_range;
use crate::log_uniform::LogUniform;
use crate::parameters::oscillators::check_inclusion_probability;
use crate::parameters::oscillators::is_inclusion_probability;
use vstd::prelude::*;

verus! {

/// The kinds of effect that a template can allow. A distortion comes with
/// the range of its power.
#[derive(Clone, Copy, Debug)]
pub enum EffectTypeDistribution {
    Distortion(LogUniform),
    Normalize,
}

impl EffectTypeDistribution {
    pub open spec fn wf(&self) -> bool {
        self matches EffectTypeDistribution::Distortion(powers) ==> powers.wf()
    }

    /// A distortion whose power lies in `power_range`.
    pub fn distortion(power_range: (u32, u32)) -> (r: Result<Self, ParameterError>)
        ensures
            match (r, checked_range(power_range)) {
                (Ok(EffectTypeDistribution::Distortion(powers)), Ok(ends)) => {
                    &&& powers.spec_min() == ends.0
                    &&& powers.spec_max() == ends.1
                    &&& powers.wf()
                },
                (Err(e), Err(f)) => e == f,
                _ => false,
            },
    {
        match LogUniform::from_tuple(power_range) {
            Ok(powers) => Ok(EffectTypeDistribution::Distortion(powers)),
            Err(e) => Err(e),
        }
    }

    pub fn normalize() -> (r: Self)
        ensures
            r is Normalize,
    {
        EffectTypeDistribution::Normalize
    }
}

/// One effect slot of a template: a kind and the probability that a
/// datapoint takes the slot.
#[derive(Clone, Copy, Debug)]
pub struct EffectDistribution {
    effect_type_distribution: EffectTypeDistribution,
    probability: u64,
}

impl EffectDistribution {
    pub closed spec fn spec_kind(&self) -> EffectTypeDistribution {
        self.effect_type_distribution
    }

    pub closed spec fn spec_probability(&self) -> u64 {
        self.probability
    }

    pub open spec fn wf(&self) -> bool {
        is_inclusion_probability(self.spec_probability())
    }

    /// Builds a slot; the probability, a double-precision bit pattern, must
    /// be above 0 and at most 1.
    pub fn new(effect_type_distribution: EffectTypeDistribution, probability: u64) -> (r: Result<
        Self,
        ParameterError,
    >)
        ensures
            match r {
                Ok(d) => {
                    &&& is_inclusion_probability(probability)
                    &&& d.spec_kind() == effect_type_distribution
                    &&& d.spec_probability() == probability
                    &&& d.wf()
                },
                Err(e) => !is_inclusion_probability(probability) && e
                    == ParameterError::Probability,
            },
    {
        if !check_inclusion_probability(probability) {
            return Err(ParameterError::Probability);
        }
        Ok(EffectDistribution { effect_type_distribution, probability })
    }

    /// Whether an effect is one of the slot: of its kind, and a distortion
    /// with a power of its range.
    pub open spec fn admits(&self, effect: EffectParameters) -> bool {
        match (self.spec_kind(), effect) {
            (EffectTypeDistribution::Distortion(powers), EffectParameters::Distortion(power)) => {
                at_most(powers.spec_min(), power) && at_most(power, powers.spec_max())
            },
            (EffectTypeDistribution::Normalize, EffectParameters::Normalize) => true,
            _ => false,
        }
    }

    /// Whether an effect is one of the slot.
    pub fn check(&self, effect: &EffectParameters) -> (r: bool)
        ensures
            r == self.admits(*effect),
    {
        match (self.effect_type_distribution, effect) {
            (EffectTypeDistribution::Distortion(powers), EffectParameters::Distortion(power)) => {
                is_at_most(powers.min(), *power) && is_at_most(*power, powers.max())
            },
            (EffectTypeDistribution::Normalize, EffectParameters::Normalize) => true,
            _ => false,
        }
    }

    /// The effect of the slot that the drawn power makes: a distortion with
    /// the power held to the range of the slot, or the normalizing, which
    /// takes no power.
    pub fn effect(&self, power: u32) -> (r: EffectParameters)
        requires
            self.spec_kind().wf(),
        ensures
            self.admits(r),
            match self.spec_kind() {
                EffectTypeDistribution::Distortion(powers) => r == EffectParameters::Distortion(
                    held_between(power, powers.spec_min(), powers.spec_max()),
                ),
                EffectTypeDistribution::Normalize => r == EffectParameters::Normalize,
            },
    {
        match self.effect_type_distribution {
            EffectTypeDistribution::Distortion(powers) => EffectParameters::Distortion(
                hold_between(power, powers.min(), powers.max()),
            ),
            EffectTypeDistribution::Normalize => EffectParameters::Normalize,
        }
    }

    pub fn probability(&self) -> (r: u64)
        ensures
            r == self.spec_probability(),
    {
        self.probability
    }

    pub fn effect_type_distribution(&self) -> (r: EffectTypeDistribution)
        ensures
            r == self.spec_kind(),
    {
        self.effect_type_distribution
    }
}

/// One effect of a datapoint. A distortion holds its power.
#[derive(Clone, Copy, Debug, PartialEq, Eq, Structural)]
pub enum EffectParameters {
    Distortion(u32),
    Normalize,
}

/// A distortion that is to be applied to every sample of a buffer: the power
/// of its curve and the nominal amplitude of the signal.
#[derive(Clone, Copy, Debug, PartialEq, Eq, Structural)]
pub struct Distortion {
    pub power: u32,
    pub signal_amplitude: u32,
}

/// Why a buffer cannot be normalized.
#[derive(Clone, Copy, Debug, PartialEq, Eq, Structural)]
pub enum EffectError {
    /// A buffer without samples has no peak.
    EmptyBuffer,
    /// A buffer that holds an infinite sample or a NaN has no peak to
    /// divide by.
    NotFinite,
}

/// Whether every sample is a finite number.
pub open spec fn all_finite(buffer: Seq<u32>) -> bool {
    forall|i: int| 0 <= i < buffer.len() ==> magnitude(#[trigger] buffer[i]) < 0x7f80_0000
}

/// Whether `peak` is the largest absolute value among the samples.
pub open spec fn is_peak(buffer: Seq<u32>, peak: u32) -> bool {
    &&& exists|i: int| 0 <= i < buffer.len() && magnitude(#[trigger] buffer[i]) == peak
    &&& forall|i: int| 0 <= i < buffer.len() ==> magnitude(#[trigger] buffer[i]) <= peak
}

/// Whether every sample lies within full scale.
pub open spec fn is_normalized(buffer: Seq<u32>) -> bool {
    forall|i: int| 0 <= i < buffer.len() ==> at_most(magnitude(#[trigger] buffer[i]) as u32, ONE)
}

/// The buffer with every sample divided by `peak`.
pub open spec fn normalized(buffer: Seq<u32>, peak: u32) -> Seq<u32> {
    Seq::new(buffer.len(), |i: int| signed_quotient(buffer[i], peak))
}

/// What normalizing makes of a buffer of finite samples that is not empty:
/// every sample is divided by the peak of the buffer, and a silent buffer
/// stays as it is.
pub open spec fn normalization(buffer: Seq<u32>, result: Seq<u32>) -> bool {
    exists|peak: u32|
        #[trigger] is_peak(buffer, peak) && result == if peak == 0 {
            buffer
        } else {
            normalized(buffer, peak)
        }
}

/// The peak of a buffer that is not empty.
pub open spec fn peak_of(buffer: Seq<u32>) -> u32 {
    choose|peak: u32| is_peak(buffer, peak)
}

/// The buffer after normalizing: every sample divided by the peak, and the
/// buffer itself where it is silent.
pub open spec fn normalized_buffer(buffer: Seq<u32>) -> Seq<u32> {
    if peak_of(buffer) == 0 {
        buffer
    } else {
        normalized(buffer, peak_of(buffer))
    }
}

/// A buffer has one peak, and normalizing it gives one result.
pub proof fn lemma_normalization(buffer: Seq<u32>, result: Seq<u32>)
    requires
        normalization(buffer, result),
    ensures
        result == normalized_buffer(buffer),
        is_peak(buffer, peak_of(buffer)),
{
    let peak = choose|peak: u32|
        #[trigger] is_peak(buffer, peak) && result == if peak == 0 {
            buffer
        } else {
            normalized(buffer, peak)
        };
    let other = peak_of(buffer);
    assert(is_peak(buffer, other));
    let at = choose|i: int| 0 <= i < buffer.len() && magnitude(#[trigger] buffer[i]) == peak;
    let there = choose|i: int| 0 <= i < buffer.len() && magnitude(#[trigger] buffer[i]) == other;
    assert(magnitude(buffer[at]) <= other);
    assert(magnitude(buffer[there]) <= peak);
}

/// The largest absolute value among the samples of a buffer of finite
/// samples.
pub fn peak(buffer: &Vec<u32>) -> (r: Result<u32, EffectError>)
    ensures
        match r {
            Ok(peak) => buffer.len() > 0 && all_finite(buffer@) && is_peak(buffer@, peak),
            Err(EffectError::EmptyBuffer) => buffer.len() == 0,
            Err(EffectError::NotFinite) => buffer.len() > 0 && !all_finite(buffer@),
        },
{
    if buffer.len() == 0 {
        return Err(EffectError::EmptyBuffer);
    }
    let mut peak: u32 = 0;
    let mut at: usize = 0;
    let mut i: usize = 0;
    while i < buffer.len()
        invariant
            i <= buffer.len(),
            buffer.len() > 0,
            at < buffer.len(),
            i > 0 ==> magnitude(buffer[at as int]) == peak,
            i == 0 ==> peak == 0,
            forall|j: int| 0 <= j < i ==> magnitude(#[trigger] buffer[j]) <= peak,
            forall|j: int| 0 <= j < i ==> magnitude(#[trigger] buffer[j]) < 0x7f80_0000,
        decreases buffer.len() - i,
    {
        let size = abs(buffer[i]);
        if size >= INFINITY {
            return Err(EffectError::NotFinite);
        }
        if size >= peak {
            peak = size;
            at = i;
        }
        i = i + 1;
    }
    Ok(peak)
}

/// Whether every sample lies within full scale. A buffer that holds a NaN
/// does not.
pub fn check_normalized(buffer: &Vec<u32>) -> (r: bool)
    ensures
        r == is_normalized(buffer@),
{
    let mut i: usize = 0;
    while i < buffer.len()
        invariant
            i <= buffer.len(),
            forall|j: int| 0 <= j < i ==> at_most(magnitude(#[trigger] buffer[j]) as u32, ONE),
        decreases buffer.len() - i,
    {
        if !is_at_most(abs(buffer[i]), ONE) {
            return false;
        }
        i = i + 1;
    }
    true
}

/// Scales a buffer so that its largest absolute sample becomes 1: every
/// sample is divided by the peak of the buffer. A silent buffer stays as it
/// is. Afterwards every sample lies within full scale. A buffer without
/// samples, or with a sample that is infinite or a NaN, is refused and
/// stays as it is.
pub fn normalize(buffer: &mut Vec<u32>) -> (r: Result<(), EffectError>)
    ensures
        match r {
            Ok(_) => {
                &&& old(buffer).len() > 0
                &&& all_finite(old(buffer)@)
                &&& normalization(old(buffer)@, final(buffer)@)
                &&& is_normalized(final(buffer)@)
            },
            Err(EffectError::EmptyBuffer) => old(buffer).len() == 0 && final(buffer)@ == old(
                buffer,
            )@,
            Err(EffectError::NotFinite) => old(buffer).len() > 0 && !all_finite(old(buffer)@)
                && final(buffer)@ == old(buffer)@,
        },
{
    let peak = match peak(buffer) {
        Ok(peak) => peak,
        Err(e) => {
            return Err(e);
        },
    };
    let ghost before = buffer@;
    if peak > ZERO {
        let mut i: usize = 0;
        while i < buffer.len()
            invariant
                i <= buffer.len(),
                buffer.len() == before.len(),
                0 < peak < 0x7f80_0000,
                all_finite(before),
                forall|j: int|
                    0 <= j < i ==> #[trigger] buffer[j] == signed_quotient(before[j], peak),
                forall|j: int| i <= j < buffer.len() ==> #[trigger] buffer[j] == before[j],
            decreases buffer.len() - i,
        {
            assert(magnitude(before[i as int]) < 0x7f80_0000);
            let sample = divided_signed(buffer[i], peak);
            buffer.set(i, sample);
            i = i + 1;
        }
        proof {
            assert(buffer@ =~= normalized(before, peak));
            lemma_normalized_within(before, peak);
        }
    } else {
        proof {
            assert forall|i: int| 0 <= i < before.len() implies at_most(
                magnitude(#[trigger] before[i]) as u32,
                ONE,
            ) by {
                assert(magnitude(before[i]) <= peak);
            }
        }
    }
    assert(is_peak(before, peak));
    Ok(())
}

/// Dividing by the peak leaves every sample within full scale, and the
/// largest of them at 1.
pub proof fn lemma_normalized_within(buffer: Seq<u32>, peak: u32)
    requires
        all_finite(buffer),
        is_peak(buffer, peak),
        peak > 0,
    ensures
        is_normalized(normalized(buffer, peak)),
        is_peak(normalized(buffer, peak), ONE),
        all_finite(normalized(buffer, peak)),
{
    let result = normalized(buffer, peak);
    assert forall|i: int| 0 <= i < result.len() implies magnitude(#[trigger] result[i]) <= ONE
        && (magnitude(buffer[i]) == peak ==> magnitude(result[i]) == ONE) by {
        let size = magnitude(buffer[i]) as u32;
        assert(magnitude(buffer[i]) <= peak);
        lemma_quotient_within(size, peak);
        assert(magnitude(result[i]) == quotient(size, peak));
    }
    let at = choose|i: int| 0 <= i < buffer.len() && magnitude(#[trigger] buffer[i]) == peak;
    assert(magnitude(result[at]) == ONE);
}

/// Normalizing twice is normalizing once: in a buffer of finite samples that
/// is not silent, dividing by the peak brings the peak to 1, and dividing by
/// 1 changes nothing.
pub proof fn lemma_normalize_idempotent(buffer: Seq<u32>, once: Seq<u32>, twice: Seq<u32>)
    requires
        all_finite(buffer),
        !is_peak(buffer, ZERO),
        normalization(buffer, once),
        normalization(once, twice),
    ensures
        twice == once,
        is_peak(once, ONE),
        is_normalized(once),
{
    let peak = choose|peak: u32|
        #[trigger] is_peak(buffer, peak) && once == if peak == 0 {
            buffer
        } else {
            normalized(buffer, peak)
        };
    lemma_normalized_within(buffer, peak);
    let again = choose|again: u32|
        #[trigger] is_peak(once, again) && twice == if again == 0 {
            once
        } else {
            normalized(once, again)
        };
    // a buffer has one peak only
    let at = choose|i: int| 0 <= i < once.len() && magnitude(#[trigger] once[i]) == ONE;
    let there = choose|i: int| 0 <= i < once.len() && magnitude(#[trigger] once[i]) == again;
    assert(magnitude(once[at]) <= again);
    assert(magnitude(once[there]) <= ONE);
    assert(again == ONE);
    assert forall|i: int| 0 <= i < once.len() implies #[trigger] twice[i] == once[i] by {
        let size = magnitude(once[i]) as u32;
        assert(magnitude(once[i]) <= ONE);
        lemma_quotient_by_one(size);
    }
    assert(twice =~= once);
}

impl EffectParameters {
    /// Applies the effect to the buffer, as far as it takes no curve from
    /// elsewhere. Normalizing is done in place, as [`normalize`] does it,
    /// and leaves nothing to do. A distortion leaves the buffer as it is and
    /// hands back what is to be applied to each of its samples: the power
    /// and the nominal amplitude of the signal.
    pub fn apply_to_buffer(&self, buffer: &mut Vec<u32>, signal_amplitude: u32) -> (r: Result<
        Option<Distortion>,
        EffectError,
    >)
        ensures
            match (*self, r) {
                (EffectParameters::Distortion(power), Ok(Some(distortion))) => {
                    &&& distortion == (Distortion { power, signal_amplitude })
                    &&& final(buffer)@ == old(buffer)@
                },
                (EffectParameters::Distortion(_), _) => false,
                (EffectParameters::Normalize, Ok(None)) => {
                    &&& old(buffer).len() > 0
                    &&& all_finite(old(buffer)@)
                    &&& normalization(old(buffer)@, final(buffer)@)
                    &&& is_normalized(final(buffer)@)
                },
                (EffectParameters::Normalize, Ok(Some(_))) => false,
                (EffectParameters::Normalize, Err(EffectError::EmptyBuffer)) => old(buffer).len()
                    == 0 && final(buffer)@ == old(buffer)@,
                (EffectParameters::Normalize, Err(EffectError::NotFinite)) => old(buffer).len() > 0
                    && !all_finite(old(buffer)@) && final(buffer)@ == old(buffer)@,
            },
    {
        match self {
            EffectParameters::Distortion(power) => Ok(
                Some(Distortion { power: *power, signal_amplitude }),
            ),
            EffectParameters::Normalize => {
                match normalize(buffer) {
                    Err(e) => Err(e),
                    Ok(_) => Ok(None),
                }
            },
        }
    }
}

} // verus!
