//! The template of a dataset, the octaves of a chord note, and the
//! parameters of one datapoint.

use crate::arithmetic::divided;
use crate::arithmetic::floor;
use crate::arithmetic::floored;
use crate::arithmetic::lemma_sum_monotone;
use crate::arithmetic::lemma_units_at_most;
use crate::arithmetic::lemma_units_of_power;
use crate::arithmetic::plus;
use crate::arithmetic::power_of_two_pattern;
use crate::arithmetic::product;
use crate::arithmetic::quotient;
use crate::arithmetic::sum;
use crate::arithmetic::times;
use crate::audio::AudioGenerationError;
use crate::audio::is_first_clipping;
use crate::audio::never_clips;
use crate::chord::ChordType;
use crate::chord_frequencies_above;
use crate::chord_notes;
use crate::chord_type;
use crate::data::DataPoint;
use crate::error::ParameterError;
use crate::hash;
use crate::hash_value;
use crate::ieee::at_most;
use crate::ieee::double;
use crate::ieee::double_at_most;
use crate::ieee::double_is_at_most;
use crate::ieee::DOUBLE_ONE;
use crate::ieee::EXPONENT_STEP;
use crate::ieee::INFINITY;
use crate::ieee::is_at_most;
use crate::ieee::is_less;
use crate::ieee::lemma_twice;
use crate::ieee::less;
use crate::ieee::ONE;
use crate::ieee::twice;
use crate::ieee::ZERO;
use crate::lemma_chord_offsets_finite;
use crate::log_uniform::checked_range;
use crate::log_uniform::LogUniform;
use crate::num_chord_notes;
use crate::NUM_CHORD_TYPES;
use crate::parameters::effects::EffectDistribution;
use crate::parameters::effects::EffectParameters;
use crate::parameters::effects::EffectTypeDistribution;
use crate::parameters::oscillators::checked_oscillator;
use crate::parameters::oscillators::OscillatorDistribution;
use crate::parameters::oscillators::OscillatorParameters;
use crate::parameters::oscillators::OscillatorTypeDistribution;
use crate::parameters::oscillators::some_bears_frequency;
use crate::rng::draw_below;
use crate::rng::flip;
use crate::rng::pick;
use crate::rounding::is_rounded;
use crate::rounding::lemma_rounded_above;
use crate::rounding::lemma_rounded_below;
use crate::rounding::lemma_rounded_exact;
use crate::rounding::lemma_rounded_exists;
use crate::rounding::units;
use rand::distributions::Bernoulli;
use rand_pcg::Mcg128Xsl64;
use vstd::arithmetic::power2::lemma2_to64;
use vstd::arithmetic::power2::lemma_pow2_adds;
use vstd::arithmetic::power2::lemma_pow2_pos;
use vstd::arithmetic::power2::pow2;
use vstd::prelude::*;

verus! {

/// A probability: at least 0 and at most 1.
pub open spec fn is_probability(probability: u64) -> bool {
    double_at_most(0, probability) && double_at_most(probability, DOUBLE_ONE)
}

/// Why the octaves of a note cannot be laid out.
#[derive(Clone, Copy, Debug, PartialEq, Eq, Structural)]
pub enum OctaveError {
    /// A frequency is not a positive finite number.
    Frequency,
    /// The lowest octave of the note that is not below the lowest frequency
    /// is not found within eleven octaves up and 38 octaves down, or none of
    /// the 39 octaves above it lies above the highest frequency.
    NoOctave,
    /// An octave was drawn from outside the span, or the one octave that a
    /// note above the root must have was not drawn.
    Draw,
}

/// How chord notes are spread over octaves: the probabilities, as
/// double-precision bit patterns, of adding one more octave to the root and
/// to another note, and the frequencies, as single-precision bit patterns,
/// between which the octaves are laid.
#[derive(Clone, Copy, Debug)]
pub struct OctaveParameters {
    add_root_octave_probability: u64,
    add_other_octave_probability: u64,
    min_frequency: u32,
    max_frequency: u32,
}

/// The octaves of one note: the lowest octave that the search settles on,
/// the index of the note itself counted from there, and the number of
/// octaves from which one may be drawn.
#[derive(Clone, Copy, Debug, PartialEq, Eq, Structural)]
pub struct OctaveSpan {
    pub given_octave: i32,
    pub lowest_octave: u32,
    pub num_octaves: i32,
}

/// The first rule that these values break, if any.
pub open spec fn octave_fault(
    add_root_octave_probability: u64,
    add_other_octave_probability: u64,
    min_frequency: u32,
    max_frequency: u32,
) -> Option<ParameterError> {
    if !is_probability(add_root_octave_probability) {
        Some(ParameterError::Probability)
    } else if !is_probability(add_other_octave_probability) {
        Some(ParameterError::Probability)
    } else if !less(ZERO, min_frequency) {
        Some(ParameterError::MinimumFrequency)
    } else if !at_most(twice(min_frequency), max_frequency) {
        Some(ParameterError::OctaveRoom)
    } else {
        None
    }
}

/// The frequency lowered by a number of octaves: its quotient by that power
/// of two, rounded as every quotient is.
pub open spec fn lowered(frequency: u32, octaves: int) -> u32 {
    quotient(frequency, power_of_two_pattern(octaves))
}

/// The frequency raised by a number of octaves: its product with that power
/// of two, rounded as every product is. An infinite frequency stays
/// infinite.
pub open spec fn raised(frequency: u32, octaves: int) -> u32 {
    if frequency >= 0x7f80_0000 {
        0x7f80_0000u32
    } else {
        product(frequency, power_of_two_pattern(octaves))
    }
}

/// The first octave index from `from` on, and below 40, at which the
/// frequency lowered by that many octaves is below `min_frequency`; 40 if
/// there is none.
pub open spec fn first_below(frequency: u32, min_frequency: u32, from: int) -> int
    decreases 40 - from,
{
    if from >= 40 {
        40
    } else if less(lowered(frequency, from), min_frequency) {
        from
    } else {
        first_below(frequency, min_frequency, from + 1)
    }
}

/// The first octave index from `from` on, and below 40, at which
/// `lowest_octave` raised by that many octaves is above `max_frequency`; 40
/// if there is none.
pub open spec fn first_above(lowest_octave: u32, max_frequency: u32, from: int) -> int
    decreases 40 - from,
{
    if from >= 40 {
        40
    } else if less(max_frequency, raised(lowest_octave, from)) {
        from
    } else {
        first_above(lowest_octave, max_frequency, from + 1)
    }
}

/// What the search from `from` finds: an index that passes the test, with
/// none before it, or 40.
pub proof fn lemma_first_below(frequency: u32, min_frequency: u32, from: int)
    requires
        from <= 40,
    ensures
        from <= first_below(frequency, min_frequency, from) <= 40,
        first_below(frequency, min_frequency, from) < 40 ==> less(
            lowered(frequency, first_below(frequency, min_frequency, from)),
            min_frequency,
        ),
        forall|i: int|
            from <= i < first_below(frequency, min_frequency, from) ==> !less(
                #[trigger] lowered(frequency, i),
                min_frequency,
            ),
    decreases 40 - from,
{
    if from < 40 && !less(lowered(frequency, from), min_frequency) {
        lemma_first_below(frequency, min_frequency, from + 1);
    }
}

/// What the search from `from` finds: an index that passes the test, with
/// none before it, or 40.
pub proof fn lemma_first_above(lowest_octave: u32, max_frequency: u32, from: int)
    requires
        from <= 40,
    ensures
        from <= first_above(lowest_octave, max_frequency, from) <= 40,
        first_above(lowest_octave, max_frequency, from) < 40 ==> less(
            max_frequency,
            raised(lowest_octave, first_above(lowest_octave, max_frequency, from)),
        ),
        forall|i: int|
            from <= i < first_above(lowest_octave, max_frequency, from) ==> !less(
                max_frequency,
                #[trigger] raised(lowest_octave, i),
            ),
    decreases 40 - from,
{
    if from < 40 && !less(max_frequency, raised(lowest_octave, from)) {
        lemma_first_above(lowest_octave, max_frequency, from + 1);
    }
}

/// The pattern of 2^`octaves`.
fn power_pattern(octaves: i32) -> (r: u32)
    requires
        -126 <= octaves <= 127,
    ensures
        r == power_of_two_pattern(octaves as int),
        0 < r < 0x7f80_0000,
{
    ((127 + octaves) as u32) * EXPONENT_STEP
}

/// The frequency lowered by a number of octaves.
pub fn lower(frequency: u32, octaves: i32) -> (r: u32)
    requires
        frequency < 0x7f80_0000,
        -126 <= octaves <= 127,
    ensures
        r == lowered(frequency, octaves as int),
        r <= 0x7f80_0000,
{
    divided(frequency, power_pattern(octaves))
}

/// The frequency raised by a number of octaves.
pub fn raise(frequency: u32, octaves: i32) -> (r: u32)
    requires
        frequency <= 0x7f80_0000,
        -126 <= octaves <= 127,
    ensures
        r == raised(frequency, octaves as int),
        r <= 0x7f80_0000,
{
    if frequency >= INFINITY {
        INFINITY
    } else {
        times(frequency, power_pattern(octaves))
    }
}

impl OctaveParameters {
    pub closed spec fn spec_root_probability(&self) -> u64 {
        self.add_root_octave_probability
    }

    pub closed spec fn spec_other_probability(&self) -> u64 {
        self.add_other_octave_probability
    }

    pub closed spec fn spec_min_frequency(&self) -> u32 {
        self.min_frequency
    }

    pub closed spec fn spec_max_frequency(&self) -> u32 {
        self.max_frequency
    }

    /// Both probabilities lie in [0, 1], the lowest frequency is positive,
    /// and the highest is at least twice the lowest.
    pub open spec fn wf(&self) -> bool {
        octave_fault(
            self.spec_root_probability(),
            self.spec_other_probability(),
            self.spec_min_frequency(),
            self.spec_max_frequency(),
        ) is None
    }

    /// Builds the octave rules, or names the first rule that the values
    /// break: a probability outside [0, 1], a lowest frequency that is not
    /// positive, a highest frequency below twice the lowest.
    pub fn new(
        add_root_octave_probability: u64,
        add_other_octave_probability: u64,
        min_frequency: u32,
        max_frequency: u32,
    ) -> (r: Result<Self, ParameterError>)
        ensures
            match r {
                Ok(p) => {
                    &&& p.wf()
                    &&& p.spec_root_probability() == add_root_octave_probability
                    &&& p.spec_other_probability() == add_other_octave_probability
                    &&& p.spec_min_frequency() == min_frequency
                    &&& p.spec_max_frequency() == max_frequency
                },
                Err(e) => octave_fault(
                    add_root_octave_probability,
                    add_other_octave_probability,
                    min_frequency,
                    max_frequency,
                ) == Some(e),
            },
    {
        if !(double_is_at_most(0, add_root_octave_probability) && double_is_at_most(
            add_root_octave_probability,
            DOUBLE_ONE,
        )) {
            return Err(ParameterError::Probability);
        }
        if !(double_is_at_most(0, add_other_octave_probability) && double_is_at_most(
            add_other_octave_probability,
            DOUBLE_ONE,
        )) {
            return Err(ParameterError::Probability);
        }
        if !is_less(ZERO, min_frequency) {
            return Err(ParameterError::MinimumFrequency);
        }
        if !is_at_most(double(min_frequency), max_frequency) {
            return Err(ParameterError::OctaveRoom);
        }
        Ok(
            OctaveParameters {
                add_root_octave_probability,
                add_other_octave_probability,
                min_frequency,
                max_frequency,
            },
        )
    }

    pub fn add_root_octave_probability(&self) -> (r: u64)
        ensures
            r == self.spec_root_probability(),
    {
        self.add_root_octave_probability
    }

    pub fn add_other_octave_probability(&self) -> (r: u64)
        ensures
            r == self.spec_other_probability(),
    {
        self.add_other_octave_probability
    }

    pub fn min_frequency(&self) -> (r: u32)
        ensures
            r == self.spec_min_frequency(),
    {
        self.min_frequency
    }

    pub fn max_frequency(&self) -> (r: u32)
        ensures
            r == self.spec_max_frequency(),
    {
        self.max_frequency
    }

    /// The octaves of the note at `frequency`, a positive finite number. The
    /// note is lowered octave by octave, starting ten octaves above it,
    /// until it is below the lowest frequency; the octave before that one is
    /// the lowest octave, which must not itself be below the lowest
    /// frequency. The lowest octave is then raised until it is above the
    /// highest frequency, which counts the octaves.
    pub open spec fn span_of(&self, frequency: u32) -> Result<OctaveSpan, OctaveError> {
        let below = first_below(frequency, self.spec_min_frequency(), -10);
        let lowest_octave = lowered(frequency, below - 1);
        let above = first_above(lowest_octave, self.spec_max_frequency(), 1);
        if !(0 < frequency < 0x7f80_0000) {
            Err(OctaveError::Frequency)
        } else if below == 40 || less(lowest_octave, self.spec_min_frequency()) || above == 40 {
            Err(OctaveError::NoOctave)
        } else {
            Ok(
                OctaveSpan {
                    given_octave: (below - 1) as i32,
                    lowest_octave,
                    num_octaves: above as i32,
                },
            )
        }
    }

    /// Lays out the octaves of the note at `frequency`.
    pub fn octave_span(&self, frequency: u32) -> (r: Result<OctaveSpan, OctaveError>)
        ensures
            r == self.span_of(frequency),
            r matches Ok(span) ==> span.wf(),
    {
        if !(0 < frequency && frequency < INFINITY) {
            return Err(OctaveError::Frequency);
        }
        let below = search_below(frequency, self.min_frequency);
        if below == 40 {
            return Err(OctaveError::NoOctave);
        }
        let given_octave = below - 1;
        let lowest_octave = lower(frequency, given_octave);
        if is_less(lowest_octave, self.min_frequency) {
            return Err(OctaveError::NoOctave);
        }
        let num_octaves = search_above(lowest_octave, self.max_frequency);
        if num_octaves == 40 {
            return Err(OctaveError::NoOctave);
        }
        Ok(OctaveSpan { given_octave, lowest_octave, num_octaves })
    }

    /// The lowest octave of a note is not below the lowest frequency, and
    /// at most twice the lowest frequency: it is the lowest octave of the
    /// note that is not below the lowest frequency.
    pub proof fn lemma_lowest_octave(&self, frequency: u32)
        requires
            self.wf(),
            self.span_of(frequency) is Ok,
        ensures
            at_most(self.spec_min_frequency(), self.span_of(frequency)->Ok_0.lowest_octave),
            at_most(
                self.span_of(frequency)->Ok_0.lowest_octave,
                twice(self.spec_min_frequency()),
            ),
    {
        let min = self.spec_min_frequency();
        let below = first_below(frequency, min, -10);
        lemma_first_below(frequency, min, -10);
        lemma_lowered(frequency, below - 1);
        lemma_below_twice(frequency, below, min);
    }

    /// Every octave of the span of a note lies between the lowest and the
    /// highest frequency.
    pub proof fn lemma_octave_bounds(&self, frequency: u32, octave: i32)
        requires
            self.wf(),
            self.span_of(frequency) is Ok,
            0 <= octave < self.span_of(frequency)->Ok_0.num_octaves,
        ensures
            at_most(
                self.spec_min_frequency(),
                self.span_of(frequency)->Ok_0.frequency_of(octave),
            ),
            at_most(
                self.span_of(frequency)->Ok_0.frequency_of(octave),
                self.spec_max_frequency(),
            ),
    {
        let min = self.spec_min_frequency();
        let max = self.spec_max_frequency();
        let span = self.span_of(frequency)->Ok_0;
        let below = first_below(frequency, min, -10);
        let lowest = span.lowest_octave;
        let sounding = span.frequency_of(octave);
        let d = pow2(149) as int;
        lemma_first_below(frequency, min, -10);
        lemma_first_above(lowest, max, 1);
        lemma_pow2_pos(149);
        lemma_lowered(frequency, below - 1);
        assert(lowest <= 0x7f80_0000);
        assert(!less(lowest, min));
        assert(min <= lowest);
        // raising never lowers
        if lowest < 0x7f80_0000 {
            lemma_raised(lowest, octave as int);
            assert(lowest <= sounding <= 0x7f80_0000);
        }
        if octave == 0 {
            // half the lowest octave is below the lowest frequency, so the
            // lowest octave is at most twice the lowest frequency
            lemma_below_twice(frequency, below, min);
            assert(lowest <= twice(min));
            assert(twice(min) <= max);
        } else {
            assert(!less(max, raised(lowest, octave as int)));
        }
    }

    /// The frequencies at which a chord note sounds, given what was drawn
    /// for it: the span of its octaves is laid out, the octaves are chosen
    /// from the draws, and each is turned into its frequency.
    pub open spec fn frequencies_of(&self, frequency: u32, root: bool, draws: Seq<i32>) -> Result<
        Seq<u32>,
        OctaveError,
    > {
        match self.span_of(frequency) {
            Err(e) => Err(e),
            Ok(span) => if !span.admits(draws) || (!root && draws.len() == 0) {
                Err(OctaveError::Draw)
            } else {
                Ok(span.frequencies_of(span.chosen(root, draws)))
            },
        }
    }

    /// Every frequency at which a chord note sounds lies between the lowest
    /// and the highest frequency.
    pub proof fn lemma_frequencies_within_bounds(
        &self,
        frequency: u32,
        root: bool,
        draws: Seq<i32>,
        i: int,
    )
        requires
            self.wf(),
            self.frequencies_of(frequency, root, draws) is Ok,
            0 <= i < self.frequencies_of(frequency, root, draws)->Ok_0.len(),
        ensures
            at_most(
                self.spec_min_frequency(),
                self.frequencies_of(frequency, root, draws)->Ok_0[i],
            ),
            at_most(
                self.frequencies_of(frequency, root, draws)->Ok_0[i],
                self.spec_max_frequency(),
            ),
    {
        let span = self.span_of(frequency)->Ok_0;
        lemma_first_above(span.lowest_octave, self.spec_max_frequency(), 1);
        span.lemma_chosen_held(root, draws);
        let octave = span.chosen(root, draws)[i];
        self.lemma_octave_bounds(frequency, octave);
    }

    /// The frequencies at which the chord note at `frequency` sounds. The
    /// root always sounds at its lowest octave; any other note sounds at
    /// the octave drawn first. Every further draw adds its octave unless the
    /// note has it already. `draws` holds the octaves drawn for the note, in
    /// the order of the draws, each from the octaves that
    /// [`OctaveParameters::octave_span`] counts.
    pub fn frequencies_from_draws(&self, frequency: u32, root: bool, draws: &Vec<i32>) -> (r: Result<
        Vec<u32>,
        OctaveError,
    >)
        ensures
            match (r, self.frequencies_of(frequency, root, draws@)) {
                (Ok(frequencies), Ok(expected)) => frequencies@ == expected,
                (Err(e), Err(f)) => e == f,
                _ => false,
            },
    {
        let span = match self.octave_span(frequency) {
            Ok(span) => span,
            Err(e) => {
                return Err(e);
            },
        };
        if !span.check_draws(draws) || (!root && draws.len() == 0) {
            return Err(OctaveError::Draw);
        }
        let octaves = span.octaves(root, draws);
        proof {
            span.lemma_chosen_held(root, draws@);
        }
        Ok(span.frequencies(&octaves))
    }

    /// Draws the frequencies at which the chord note at `frequency` sounds.
    /// The root sounds at its lowest octave, any other note at an octave
    /// drawn from its span. Then, as long as the trial `add_octave`
    /// succeeds, one more octave is drawn from the span, and added unless
    /// the note has it already. The result is what
    /// [`OctaveParameters::frequencies_from_draws`] gives for the octaves
    /// drawn; the generator is not touched when the span cannot be laid out.
    ///
    /// `add_octave` is the trial with the probability of one more octave for
    /// the root or for another note. After `u64::MAX` successes no further
    /// trial is made.
    pub fn generate_frequencies(
        &self,
        rng: &mut Mcg128Xsl64,
        add_octave: &Bernoulli,
        frequency: u32,
        root: bool,
    ) -> (r: Result<Vec<u32>, OctaveError>)
        ensures
            match r {
                Ok(frequencies) => exists|draws: Seq<i32>|
                    #[trigger] self.frequencies_of(frequency, root, draws) == Ok::<
                        Seq<u32>,
                        OctaveError,
                    >(frequencies@),
                Err(e) => self.span_of(frequency) == Err::<OctaveSpan, OctaveError>(e),
            },
    {
        let span = match self.octave_span(frequency) {
            Ok(span) => span,
            Err(e) => {
                return Err(e);
            },
        };
        let mut octaves: Vec<i32> = Vec::new();
        if root {
            octaves.push(0);
        } else {
            octaves.push(draw_below(rng, span.num_octaves));
        }
        let ghost first = octaves@;
        let ghost mut rest = Seq::<i32>::empty();
        let mut trials_left: u64 = u64::MAX;
        let mut more = flip(add_octave, rng);
        while more && trials_left > 0
            invariant
                span.wf(),
                span.admits(rest),
                octaves@ == with_octaves(first, rest),
            decreases trials_left,
        {
            let octave = draw_below(rng, span.num_octaves);
            if !contains_octave(&octaves, octave) {
                octaves.push(octave);
            }
            proof {
                let longer = rest.push(octave);
                assert(longer.drop_last() =~= rest);
                rest = longer;
            }
            trials_left = trials_left - 1;
            more = flip(add_octave, rng);
        }
        let ghost draws = if root {
            rest
        } else {
            first + rest
        };
        proof {
            if !root {
                assert(draws.drop_first() =~= rest);
                assert(first =~= seq![draws[0]]);
            } else {
                assert(first =~= seq![0i32]);
            }
            assert(span.admits(draws));
            assert(octaves@ == span.chosen(root, draws));
            span.lemma_chosen_held(root, draws);
        }
        let frequencies = span.frequencies(&octaves);
        assert(self.frequencies_of(frequency, root, draws) == Ok::<Seq<u32>, OctaveError>(
            frequencies@,
        ));
        Ok(frequencies)
    }

    /// The frequencies of a chord, given what was drawn for each of its
    /// notes: those of the first note, which is the root, then those of
    /// each other note in turn. The first note whose octaves cannot be laid
    /// out, or were not drawn from its span, gives its error.
    pub open spec fn chord_frequencies(&self, notes: Seq<u32>, draws: Seq<Seq<i32>>) -> Result<
        Seq<u32>,
        OctaveError,
    >
        decreases notes.len(),
    {
        if notes.len() == 0 {
            Ok(seq![])
        } else {
            match self.chord_frequencies(notes.drop_last(), draws.drop_last()) {
                Err(e) => Err(e),
                Ok(before) => match self.frequencies_of(
                    notes.last(),
                    notes.len() == 1,
                    draws.last(),
                ) {
                    Err(e) => Err(e),
                    Ok(sounding) => Ok(before + sounding),
                },
            }
        }
    }

    /// The frequencies of a chord whose notes sound at `notes`, root first,
    /// given the octaves drawn for each note. Without one sequence of draws
    /// for each note the result is [`OctaveError::Draw`].
    pub fn chord_frequencies_from_draws(&self, notes: &Vec<u32>, draws: &Vec<Vec<i32>>) -> (r:
        Result<Vec<u32>, OctaveError>)
        ensures
            match r {
                Ok(frequencies) => notes.len() == draws.len() && self.chord_frequencies(
                    notes@,
                    drawn(draws@),
                ) == Ok::<Seq<u32>, OctaveError>(frequencies@),
                Err(e) => if notes.len() == draws.len() {
                    self.chord_frequencies(notes@, drawn(draws@)) == Err::<Seq<u32>, OctaveError>(e)
                } else {
                    e == OctaveError::Draw
                },
            },
    {
        if notes.len() != draws.len() {
            return Err(OctaveError::Draw);
        }
        let mut frequencies: Vec<u32> = Vec::new();
        let mut i: usize = 0;
        assert(notes@.take(0) =~= Seq::<u32>::empty());
        while i < notes.len()
            invariant
                i <= notes.len(),
                notes.len() == draws.len(),
                self.chord_frequencies(notes@.take(i as int), drawn(draws@).take(i as int)) == Ok::<
                    Seq<u32>,
                    OctaveError,
                >(frequencies@),
            decreases notes.len() - i,
        {
            proof {
                assert(notes@.take(i + 1).drop_last() =~= notes@.take(i as int));
                assert(drawn(draws@).take(i + 1).drop_last() =~= drawn(draws@).take(i as int));
            }
            match self.frequencies_from_draws(notes[i], i == 0, &draws[i]) {
                Err(e) => {
                    proof {
                        self.lemma_chord_error(notes@, drawn(draws@), i as int + 1);
                    }
                    return Err(e);
                },
                Ok(mut sounding) => {
                    frequencies.append(&mut sounding);
                },
            }
            i = i + 1;
        }
        proof {
            assert(notes@.take(notes.len() as int) =~= notes@);
            assert(drawn(draws@).take(notes.len() as int) =~= drawn(draws@));
        }
        Ok(frequencies)
    }

    /// An error among the first `count` notes of a chord is the error of the
    /// chord.
    pub proof fn lemma_chord_error(&self, notes: Seq<u32>, draws: Seq<Seq<i32>>, count: int)
        requires
            0 <= count <= notes.len(),
            notes.len() == draws.len(),
            self.chord_frequencies(notes.take(count), draws.take(count)) is Err,
        ensures
            self.chord_frequencies(notes, draws) == self.chord_frequencies(
                notes.take(count),
                draws.take(count),
            ),
        decreases notes.len() - count,
    {
        if count == notes.len() {
            assert(notes.take(count) =~= notes);
            assert(draws.take(count) =~= draws);
        } else {
            assert(notes.take(count + 1).drop_last() =~= notes.take(count));
            assert(draws.take(count + 1).drop_last() =~= draws.take(count));
            self.lemma_chord_error(notes, draws, count + 1);
        }
    }

    /// Draws the frequencies of a chord whose notes sound at `notes`, root
    /// first: each note in turn gets its octaves as
    /// [`OctaveParameters::generate_frequencies`] draws them, the root with
    /// the trial `add_root_octave` and every other note with
    /// `add_other_octave`. The first note whose octaves cannot be laid out
    /// ends the drawing with its error.
    pub fn generate_chord_frequencies(
        &self,
        rng: &mut Mcg128Xsl64,
        add_root_octave: &Bernoulli,
        add_other_octave: &Bernoulli,
        notes: &Vec<u32>,
    ) -> (r: Result<Vec<u32>, OctaveError>)
        ensures
            match r {
                Ok(frequencies) => exists|draws: Seq<Seq<i32>>|
                    draws.len() == notes.len() && #[trigger] self.chord_frequencies(
                        notes@,
                        draws,
                    ) == Ok::<Seq<u32>, OctaveError>(frequencies@),
                Err(e) => exists|i: int|
                    0 <= i < notes.len() && self.span_of(#[trigger] notes[i]) == Err::<
                        OctaveSpan,
                        OctaveError,
                    >(e),
            },
    {
        let mut frequencies: Vec<u32> = Vec::new();
        let ghost mut draws = Seq::<Seq<i32>>::empty();
        let mut i: usize = 0;
        assert(notes@.take(0) =~= Seq::<u32>::empty());
        while i < notes.len()
            invariant
                i <= notes.len(),
                draws.len() == i,
                self.chord_frequencies(notes@.take(i as int), draws) == Ok::<Seq<u32>, OctaveError>(
                    frequencies@,
                ),
            decreases notes.len() - i,
        {
            let root = i == 0;
            let trial = if root {
                add_root_octave
            } else {
                add_other_octave
            };
            match self.generate_frequencies(rng, trial, notes[i], root) {
                Err(e) => {
                    return Err(e);
                },
                Ok(mut sounding) => {
                    proof {
                        let these = choose|these: Seq<i32>|
                            #[trigger] self.frequencies_of(notes[i as int], root, these) == Ok::<
                                Seq<u32>,
                                OctaveError,
                            >(sounding@);
                        let longer = draws.push(these);
                        assert(notes@.take(i + 1).drop_last() =~= notes@.take(i as int));
                        assert(longer.drop_last() =~= draws);
                        draws = longer;
                    }
                    frequencies.append(&mut sounding);
                },
            }
            i = i + 1;
        }
        proof {
            assert(notes@.take(notes.len() as int) =~= notes@);
        }
        Ok(frequencies)
    }

    /// Draws the frequencies at which a chord above `base_frequency`
    /// sounds: the frequencies of its notes are those of
    /// [`ChordType::frequencies`], and their octaves are drawn as
    /// [`OctaveParameters::generate_chord_frequencies`] draws them. A base
    /// frequency or a multiplier that is negative, infinite or a NaN gives
    /// [`OctaveError::Frequency`], and leaves the generator untouched.
    pub fn generate_chord(
        &self,
        rng: &mut Mcg128Xsl64,
        add_root_octave: &Bernoulli,
        add_other_octave: &Bernoulli,
        base_frequency: u32,
        chord: &ChordType,
    ) -> (r: Result<Vec<u32>, OctaveError>)
        ensures
            match r {
                Ok(frequencies) => chord.sounds_at(base_frequency) && exists|draws: Seq<Seq<i32>>|
                    draws.len() == chord@.len() + 1 && #[trigger] self.chord_frequencies(
                        chord.frequencies_above(base_frequency),
                        draws,
                    ) == Ok::<Seq<u32>, OctaveError>(frequencies@),
                Err(e) => if chord.sounds_at(base_frequency) {
                    exists|i: int|
                        0 <= i <= chord@.len() && self.span_of(
                            #[trigger] chord.frequencies_above(base_frequency)[i],
                        ) == Err::<OctaveSpan, OctaveError>(e)
                } else {
                    e == OctaveError::Frequency
                },
            },
    {
        let notes = match chord.frequencies(base_frequency) {
            Some(notes) => notes,
            None => {
                return Err(OctaveError::Frequency);
            },
        };
        self.generate_chord_frequencies(rng, add_root_octave, add_other_octave, &notes)
    }

    /// Draws one octave of a note above its lowest octave: `lowest_octave`
    /// is raised until it is above the highest frequency, which counts the
    /// octaves; one of them is drawn, and the note is raised by that many
    /// octaves. Neither frequency may be negative or a NaN. The generator is
    /// not touched when there is nothing to draw from.
    pub fn generate_octave_above(
        &self,
        rng: &mut Mcg128Xsl64,
        frequency: u32,
        lowest_octave: u32,
    ) -> (r: Result<u32, OctaveError>)
        ensures
            match r {
                Ok(sounding) => {
                    &&& frequency <= 0x7f80_0000
                    &&& lowest_octave <= 0x7f80_0000
                    &&& exists|octave: int|
                        0 <= octave < first_above(lowest_octave, self.spec_max_frequency(), 1)
                            < 40 && sounding == #[trigger] raised(frequency, octave)
                },
                Err(OctaveError::Frequency) => !(frequency <= 0x7f80_0000 && lowest_octave
                    <= 0x7f80_0000),
                Err(OctaveError::NoOctave) => {
                    &&& frequency <= 0x7f80_0000
                    &&& lowest_octave <= 0x7f80_0000
                    &&& first_above(lowest_octave, self.spec_max_frequency(), 1) == 40
                },
                Err(OctaveError::Draw) => false,
            },
    {
        if !(frequency <= INFINITY && lowest_octave <= INFINITY) {
            return Err(OctaveError::Frequency);
        }
        let num_octaves = search_above(lowest_octave, self.max_frequency);
        if num_octaves == 40 {
            return Err(OctaveError::NoOctave);
        }
        let octave = draw_below(rng, num_octaves);
        Ok(raise(frequency, octave))
    }

    /// The lowest octave from which an octave of the note at `frequency` is
    /// drawn: the frequency divided by the whole number of times that the
    /// lowest frequency goes into it, and infinity where it goes into it
    /// less than once. There is none unless the frequency is a positive
    /// finite number, the lowest frequency is finite, and so is their
    /// quotient.
    pub open spec fn octave_base(&self, frequency: u32) -> Option<u32> {
        let times = floored(quotient(frequency, self.spec_min_frequency()));
        if !(0 < frequency < 0x7f80_0000) || self.spec_min_frequency() >= 0x7f80_0000
            || quotient(frequency, self.spec_min_frequency()) >= 0x7f80_0000 {
            None
        } else if times == 0 {
            Some(0x7f80_0000u32)
        } else {
            Some(quotient(frequency, times))
        }
    }

    /// Draws one octave of the note at `frequency`: one of the octaves
    /// between its lowest octave, as [`OctaveParameters::octave_base`]
    /// gives it, and the highest frequency is drawn, and the note is raised
    /// by that many octaves.
    pub fn generate_octave(&self, rng: &mut Mcg128Xsl64, frequency: u32) -> (r: Result<
        u32,
        OctaveError,
    >)
        requires
            self.wf(),
        ensures
            match r {
                Ok(sounding) => self.octave_base(frequency) matches Some(lowest_octave) && exists|
                    octave: int,
                |
                    0 <= octave < first_above(lowest_octave, self.spec_max_frequency(), 1) < 40
                        && sounding == #[trigger] raised(frequency, octave),
                Err(OctaveError::Frequency) => self.octave_base(frequency) is None,
                Err(OctaveError::NoOctave) => self.octave_base(frequency) matches Some(
                    lowest_octave,
                ) && first_above(lowest_octave, self.spec_max_frequency(), 1) == 40,
                Err(OctaveError::Draw) => false,
            },
    {
        if !(0 < frequency && frequency < INFINITY) || self.min_frequency >= INFINITY {
            return Err(OctaveError::Frequency);
        }
        let ratio = divided(frequency, self.min_frequency);
        if ratio >= INFINITY {
            return Err(OctaveError::Frequency);
        }
        let times = floor(ratio);
        let lowest_octave = if times == 0 {
            INFINITY
        } else {
            divided(frequency, times)
        };
        self.generate_octave_above(rng, frequency, lowest_octave)
    }
}

/// A lowered frequency is a number that is not negative, infinity at most.
pub proof fn lemma_lowered(frequency: u32, octaves: int)
    requires
        frequency < 0x7f80_0000,
        -126 <= octaves <= 127,
    ensures
        lowered(frequency, octaves) <= 0x7f80_0000,
        is_rounded(
            units(frequency) * pow2(149),
            units(power_of_two_pattern(octaves)),
            lowered(frequency, octaves),
        ),
{
    lemma_units_of_power(octaves);
    lemma_pow2_pos((149 + octaves) as nat);
    lemma_pow2_pos(149);
    lemma_units_at_most(frequency, frequency);
    assert(units(frequency) * pow2(149) >= 0) by (nonlinear_arith)
        requires
            units(frequency) >= 0,
            pow2(149) > 0,
    ;
    lemma_rounded_exists(units(frequency) * pow2(149), units(power_of_two_pattern(octaves)));
}

/// Raising a finite frequency by octaves never lowers it, and raising it by
/// none leaves it as it is.
pub proof fn lemma_raised(frequency: u32, octaves: int)
    requires
        frequency < 0x7f80_0000,
        0 <= octaves <= 127,
    ensures
        frequency <= raised(frequency, octaves) <= 0x7f80_0000,
        octaves == 0 ==> raised(frequency, octaves) == frequency,
{
    let n = units(frequency) * units(power_of_two_pattern(octaves));
    let d = pow2(149) as int;
    lemma_units_of_power(octaves);
    lemma_pow2_pos(149);
    lemma_pow2_adds(149, octaves as nat);
    lemma_pow2_pos(octaves as nat);
    lemma_units_at_most(frequency, frequency);
    assert(n >= units(frequency) * d) by (nonlinear_arith)
        requires
            n == units(frequency) * (d * pow2(octaves as nat)),
            units(frequency) >= 0,
            d > 0,
            pow2(octaves as nat) >= 1,
    ;
    assert(units(frequency) * d >= 0) by (nonlinear_arith)
        requires
            units(frequency) >= 0,
            d > 0,
    ;
    lemma_rounded_exists(n, d);
    lemma_rounded_above(n, d, raised(frequency, octaves), frequency);
    if octaves == 0 {
        lemma2_to64();
        assert(n == units(frequency) * d) by (nonlinear_arith)
            requires
                n == units(frequency) * (d * pow2(0)),
                pow2(0) == 1,
        ;
        lemma_rounded_exact(n, d, frequency);
    }
}

/// Where a frequency lowered by `below` octaves is below the lowest
/// frequency, the frequency lowered by one octave less is at most twice the
/// lowest frequency.
pub proof fn lemma_below_twice(frequency: u32, below: int, min_frequency: u32)
    requires
        frequency < 0x7f80_0000,
        -125 <= below <= 127,
        0 < min_frequency <= 0x7f80_0000,
        less(lowered(frequency, below), min_frequency),
    ensures
        lowered(frequency, below - 1) <= twice(min_frequency),
{
    let n = units(frequency) * pow2(149);
    let half_step = units(power_of_two_pattern(below));
    let step = units(power_of_two_pattern(below - 1));
    lemma_lowered(frequency, below);
    lemma_lowered(frequency, below - 1);
    lemma_units_of_power(below);
    lemma_units_of_power(below - 1);
    lemma_pow2_adds(1, (148 + below) as nat);
    lemma2_to64();
    lemma_pow2_pos((148 + below) as nat);
    assert(half_step == 2 * step);
    if min_frequency < 0x7f00_0000 {
        if n >= units(min_frequency) * half_step {
            lemma_rounded_above(n, half_step, lowered(frequency, below), min_frequency);
        }
        assert(n < units(min_frequency) * half_step);
        lemma_twice(min_frequency);
        lemma_units_at_most(min_frequency, min_frequency);
        lemma_units_at_most(twice(min_frequency), twice(min_frequency));
        assert(crate::ieee::scaled_value(twice(min_frequency)) == crate::ieee::scaled_magnitude(
            twice(min_frequency),
        ));
        assert(units(twice(min_frequency)) == 2 * units(min_frequency));
        assert(n <= units(twice(min_frequency)) * step) by (nonlinear_arith)
            requires
                n < units(min_frequency) * half_step,
                half_step == 2 * step,
                units(twice(min_frequency)) == 2 * units(min_frequency),
        ;
        lemma_rounded_below(n, step, lowered(frequency, below - 1), twice(min_frequency));
    }
}

fn search_below(frequency: u32, min_frequency: u32) -> (r: i32)
    requires
        frequency < 0x7f80_0000,
    ensures
        r == first_below(frequency, min_frequency, -10),
        -10 <= r <= 40,
{
    let mut i: i32 = -10;
    while i < 40
        invariant
            -10 <= i <= 40,
            frequency < 0x7f80_0000,
            first_below(frequency, min_frequency, i as int) == first_below(
                frequency,
                min_frequency,
                -10,
            ),
        decreases 40 - i,
    {
        if is_less(lower(frequency, i), min_frequency) {
            return i;
        }
        i = i + 1;
    }
    i
}

fn search_above(lowest_octave: u32, max_frequency: u32) -> (r: i32)
    requires
        lowest_octave <= 0x7f80_0000,
    ensures
        r == first_above(lowest_octave, max_frequency, 1),
        1 <= r <= 40,
{
    let mut i: i32 = 1;
    while i < 40
        invariant
            1 <= i <= 40,
            lowest_octave <= 0x7f80_0000,
            first_above(lowest_octave, max_frequency, i as int) == first_above(
                lowest_octave,
                max_frequency,
                1,
            ),
        decreases 40 - i,
    {
        if is_less(max_frequency, raise(lowest_octave, i)) {
            return i;
        }
        i = i + 1;
    }
    i
}

impl OctaveSpan {
    /// The lowest octave is a number that is not negative, there is at least
    /// one octave and fewer than 40, and the note itself lies at most eleven
    /// octaves below the lowest octave and fewer than 39 above it.
    pub open spec fn wf(&self) -> bool {
        &&& self.lowest_octave <= 0x7f80_0000
        &&& 1 <= self.num_octaves < 40
        &&& -11 <= self.given_octave < 39
    }

    /// Every drawn octave is one of the span's.
    pub open spec fn admits(&self, draws: Seq<i32>) -> bool {
        forall|i: int| 0 <= i < draws.len() ==> 0 <= #[trigger] draws[i] < self.num_octaves
    }

    /// The octaves of a note, in the order in which they were chosen. The
    /// root starts from the lowest octave and every draw may add one;
    /// another note starts from its first draw and every later draw may add
    /// one.
    pub open spec fn chosen(&self, root: bool, draws: Seq<i32>) -> Seq<i32> {
        if root {
            with_octaves(seq![0i32], draws)
        } else {
            with_octaves(seq![draws[0]], draws.drop_first())
        }
    }

    /// The frequency of an octave: the lowest octave raised by `octave`
    /// octaves.
    pub open spec fn frequency_of(&self, octave: i32) -> u32 {
        raised(self.lowest_octave, octave as int)
    }

    /// The frequencies of the octaves, in their order.
    pub open spec fn frequencies_of(&self, octaves: Seq<i32>) -> Seq<u32> {
        Seq::new(octaves.len(), |i: int| self.frequency_of(octaves[i]))
    }

    /// An octave of the span.
    pub open spec fn holds(&self, octave: i32) -> bool {
        0 <= octave < self.num_octaves
    }

    /// Whether every drawn octave is one of the span's.
    pub fn check_draws(&self, draws: &Vec<i32>) -> (r: bool)
        ensures
            r == self.admits(draws@),
    {
        let mut i: usize = 0;
        while i < draws.len()
            invariant
                i <= draws.len(),
                forall|j: int| 0 <= j < i ==> 0 <= #[trigger] draws[j] < self.num_octaves,
            decreases draws.len() - i,
        {
            if !(0 <= draws[i] && draws[i] < self.num_octaves) {
                return false;
            }
            i = i + 1;
        }
        true
    }

    /// What is chosen from admitted draws is held by the span, and nothing
    /// is chosen twice. The first octave of the root is the lowest one; every
    /// other octave was drawn.
    pub proof fn lemma_chosen_held(&self, root: bool, draws: Seq<i32>)
        requires
            self.num_octaves >= 1,
            self.admits(draws),
            !root ==> draws.len() >= 1,
        ensures
            self.chosen(root, draws).no_duplicates(),
            self.chosen(root, draws).len() >= 1,
            root ==> self.chosen(root, draws)[0] == 0,
            !root ==> self.chosen(root, draws)[0] == draws[0],
            forall|i: int|
                0 <= i < self.chosen(root, draws).len() ==> self.holds(
                    #[trigger] self.chosen(root, draws)[i],
                ),
    {
        let first = if root {
            seq![0i32]
        } else {
            seq![draws[0]]
        };
        let rest = if root {
            draws
        } else {
            draws.drop_first()
        };
        let all = self.chosen(root, draws);
        lemma_with_octaves(first, rest);
        assert(all.take(1)[0] == first[0]);
        assert forall|i: int| 0 <= i < all.len() implies self.holds(#[trigger] all[i]) by {
            let octave = all[i];
            assert(all.contains(octave));
            if rest.contains(octave) {
                let j = choose|j: int| 0 <= j < rest.len() && rest[j] == octave;
                if !root {
                    assert(draws[j + 1] == octave);
                }
            }
            if first.contains(octave) {
                assert(first[0] == octave);
            }
        }
    }

    /// Chooses the octaves of a note from what was drawn for it.
    pub fn octaves(&self, root: bool, draws: &Vec<i32>) -> (r: Vec<i32>)
        requires
            self.admits(draws@),
            !root ==> draws.len() >= 1,
        ensures
            r@ == self.chosen(root, draws@),
    {
        let mut octaves: Vec<i32> = Vec::new();
        let start: usize = if root {
            octaves.push(0);
            0
        } else {
            octaves.push(draws[0]);
            1
        };
        let ghost first = octaves@;
        let ghost rest = draws@.skip(start as int);
        let mut i: usize = start;
        assert(rest.take(0) =~= Seq::<i32>::empty());
        while i < draws.len()
            invariant
                start <= i <= draws.len(),
                rest == draws@.skip(start as int),
                octaves@ == with_octaves(first, rest.take(i - start)),
            decreases draws.len() - i,
        {
            let octave = draws[i];
            let ghost before = octaves@;
            if !contains_octave(&octaves, octave) {
                octaves.push(octave);
            }
            proof {
                let next = rest.take(i + 1 - start);
                assert(next.drop_last() =~= rest.take(i - start));
                assert(next.last() == octave);
                assert(octaves@ == with_octave(before, octave));
            }
            i = i + 1;
        }
        proof {
            assert(rest.take(draws.len() - start) =~= rest);
            if !root {
                assert(rest =~= draws@.drop_first());
                assert(first =~= seq![draws@[0]]);
            } else {
                assert(rest =~= draws@);
                assert(first =~= seq![0i32]);
            }
        }
        octaves
    }

    /// The frequencies of the octaves, in their order.
    pub fn frequencies(&self, octaves: &Vec<i32>) -> (r: Vec<u32>)
        requires
            self.wf(),
            forall|i: int| 0 <= i < octaves.len() ==> self.holds(#[trigger] octaves[i]),
        ensures
            r@ == self.frequencies_of(octaves@),
    {
        let mut frequencies: Vec<u32> = Vec::new();
        let mut i: usize = 0;
        while i < octaves.len()
            invariant
                i <= octaves.len(),
                self.wf(),
                forall|j: int| 0 <= j < octaves.len() ==> self.holds(#[trigger] octaves[j]),
                frequencies.len() == i,
                forall|j: int|
                    0 <= j < i ==> #[trigger] frequencies[j] == self.frequency_of(octaves[j]),
            decreases octaves.len() - i,
        {
            assert(self.holds(octaves[i as int]));
            frequencies.push(raise(self.lowest_octave, octaves[i]));
            i = i + 1;
        }
        assert(frequencies@ =~= self.frequencies_of(octaves@));
        frequencies
    }
}

/// The octaves after one more was drawn: a new one is added at the end, one
/// that is there already changes nothing.
pub open spec fn with_octave(octaves: Seq<i32>, octave: i32) -> Seq<i32> {
    if octaves.contains(octave) {
        octaves
    } else {
        octaves.push(octave)
    }
}

/// The octaves after all of `draws` were drawn, one after the other.
pub open spec fn with_octaves(octaves: Seq<i32>, draws: Seq<i32>) -> Seq<i32>
    decreases draws.len(),
{
    if draws.len() == 0 {
        octaves
    } else {
        with_octave(with_octaves(octaves, draws.drop_last()), draws.last())
    }
}

fn contains_octave(octaves: &Vec<i32>, octave: i32) -> (r: bool)
    ensures
        r == octaves@.contains(octave),
{
    let mut i: usize = 0;
    while i < octaves.len()
        invariant
            i <= octaves.len(),
            forall|j: int| 0 <= j < i ==> octaves[j] != octave,
        decreases octaves.len() - i,
    {
        if octaves[i] == octave {
            return true;
        }
        i = i + 1;
    }
    false
}

/// Drawing octaves never repeats one: what was chosen before stays in its
/// place, nothing occurs twice, and an octave is among the chosen exactly
/// when it was there before or was drawn.
pub proof fn lemma_with_octaves(octaves: Seq<i32>, draws: Seq<i32>)
    requires
        octaves.no_duplicates(),
    ensures
        with_octaves(octaves, draws).no_duplicates(),
        with_octaves(octaves, draws).len() >= octaves.len(),
        with_octaves(octaves, draws).take(octaves.len() as int) == octaves,
        forall|octave: i32|
            with_octaves(octaves, draws).contains(octave) <==> octaves.contains(octave)
                || draws.contains(octave),
    decreases draws.len(),
{
    let all = with_octaves(octaves, draws);
    if draws.len() == 0 {
        assert(all.take(octaves.len() as int) =~= octaves);
    } else {
        let head = draws.drop_last();
        let before = with_octaves(octaves, head);
        lemma_with_octaves(octaves, head);
        assert(all.take(octaves.len() as int) =~= before.take(octaves.len() as int));
        assert forall|octave: i32|
            all.contains(octave) <==> octaves.contains(octave) || draws.contains(
                octave,
            ) by {
            if draws.contains(octave) {
                let i = choose|i: int| 0 <= i < draws.len() && draws[i] == octave;
                if i < head.len() {
                    assert(head[i] == octave);
                }
            }
            if head.contains(octave) {
                let i = choose|i: int| 0 <= i < head.len() && head[i] == octave;
                assert(draws[i] == octave);
            }
            if before.contains(octave) {
                let i = choose|i: int| 0 <= i < before.len() && before[i] == octave;
                assert(all[i] == octave);
            }
            if all.contains(octave) && !before.contains(octave) {
                assert(octave == draws.last());
                assert(draws[draws.len() - 1] == octave);
            }
            if octave == draws.last() {
                assert(draws[draws.len() - 1] == octave);
                if !before.contains(octave) {
                    assert(all[all.len() - 1] == octave);
                }
            }
        }
    }
}


/// The template of a dataset: what every datapoint shares, and the ranges
/// from which the rest is drawn.
#[derive(Clone, Debug)]
pub struct DataParameters {
    sample_rate: u32,
    lowest_frequency: u32,
    highest_frequency: u32,
    frequency_std_dev_distribution: LogUniform,
    possible_chords: Vec<u32>,
    octave_parameters: OctaveParameters,
    oscillators: Vec<OscillatorDistribution>,
    effects: Vec<EffectDistribution>,
    num_samples: u64,
    seed_offset: u64,
    amplitude_total: u32,
}

/// A template as a value: the sample rate in Hz, the range of the base
/// frequency, the range of the deviation of the frequency walk in cents, the
/// allowed chord types, the octave rules, the oscillator and effect slots in
/// their order, the number of samples of a datapoint, the seed offset, and
/// the sum of the amplitude maxima of the oscillator slots as
/// [`amplitude_sum`] gives it.
pub struct Template {
    pub sample_rate: u32,
    pub frequency_range: (u32, u32),
    pub frequency_std_dev_distribution: LogUniform,
    pub possible_chords: Seq<u32>,
    pub octave_parameters: OctaveParameters,
    pub oscillators: Seq<OscillatorDistribution>,
    pub effects: Seq<EffectDistribution>,
    pub num_samples: u64,
    pub seed_offset: u64,
    pub amplitude_total: u32,
}

impl View for DataParameters {
    type V = Template;

    closed spec fn view(&self) -> Template {
        Template {
            sample_rate: self.sample_rate,
            frequency_range: (self.lowest_frequency, self.highest_frequency),
            frequency_std_dev_distribution: self.frequency_std_dev_distribution,
            possible_chords: self.possible_chords@,
            octave_parameters: self.octave_parameters,
            oscillators: self.oscillators@,
            effects: self.effects@,
            num_samples: self.num_samples,
            seed_offset: self.seed_offset,
            amplitude_total: self.amplitude_total,
        }
    }
}

/// The seed offset that a run seed gives: the seed hashed twice.
pub open spec fn seed_offset_of(seed: u64) -> u64 {
    hash_value(hash_value(seed))
}

/// The seed of the datapoint at `index`: the hash of the index plus the seed
/// offset, wrapping round.
pub open spec fn datapoint_seed(seed_offset: u64, index: u64) -> u64 {
    ((hash_value(index) + seed_offset) % 0x1_0000_0000_0000_0000) as u64
}

/// Whether some chord type is not in the chord table.
pub open spec fn has_unknown_chord(possible_chords: Seq<u32>) -> bool {
    exists|i: int| 0 <= i < possible_chords.len() && #[trigger] possible_chords[i] >= NUM_CHORD_TYPES
}

/// The first rule that the values of a new template break, if any.
pub open spec fn template_fault(
    sample_rate: u32,
    frequency_range: (u32, u32),
    frequency_std_dev_range: (u32, u32),
    possible_chords: Seq<u32>,
    num_samples: u64,
) -> Option<ParameterError> {
    if !less(frequency_range.0, frequency_range.1) {
        Some(ParameterError::FrequencyRange)
    } else if num_samples == 0 {
        Some(ParameterError::NoSamples)
    } else if sample_rate == 0 {
        Some(ParameterError::SampleRate)
    } else if !at_most(ZERO, frequency_std_dev_range.0) {
        Some(ParameterError::NegativeMinimum)
    } else if !at_most(frequency_std_dev_range.0, frequency_std_dev_range.1) {
        Some(ParameterError::EmptyRange)
    } else if possible_chords.len() == 0 {
        Some(ParameterError::NoChords)
    } else if has_unknown_chord(possible_chords) {
        Some(ParameterError::ChordType)
    } else {
        None
    }
}

/// Whether some oscillator slot bears a frequency.
pub open spec fn some_slot_bears_frequency(oscillators: Seq<OscillatorDistribution>) -> bool {
    exists|i: int|
        0 <= i < oscillators.len() && (#[trigger] oscillators[i]).spec_kind().bears_frequency()
}

/// The sum of the amplitude maxima of the oscillator slots: the maxima are
/// added to zero one after the other, in the order of the slots, and every
/// sum is rounded as a single-precision sum is.
pub open spec fn amplitude_sum(oscillators: Seq<OscillatorDistribution>) -> u32
    decreases oscillators.len(),
{
    if oscillators.len() == 0 {
        ZERO
    } else {
        sum(amplitude_sum(oscillators.drop_last()), oscillators.last().spec_amplitudes().spec_max())
    }
}

impl Template {
    /// The first rule that one more oscillator slot breaks, if any: a rule
    /// on the slot itself, or the amplitude budget, which the sum of the
    /// amplitude maxima of all slots, the new one included, must not exceed.
    pub open spec fn oscillator_fault(&self, probability: u64, amplitude_range: (u32, u32)) -> Option<
        ParameterError,
    > {
        match checked_oscillator(probability, amplitude_range) {
            Err(e) => Some(e),
            Ok(ends) => if less(ONE, sum(self.amplitude_total, ends.1)) {
                Some(ParameterError::AmplitudeBudget)
            } else {
                None
            },
        }
    }

    /// The rules that every template keeps. The last of them is the
    /// amplitude budget: the sum of the amplitude maxima of the oscillator
    /// slots is at most full scale.
    pub open spec fn wf(&self) -> bool {
        &&& self.sample_rate > 0
        &&& self.num_samples > 0
        &&& less(self.frequency_range.0, self.frequency_range.1)
        &&& self.frequency_std_dev_distribution.wf()
        &&& self.possible_chords.len() > 0
        &&& !has_unknown_chord(self.possible_chords)
        &&& self.octave_parameters.wf()
        &&& forall|i: int| 0 <= i < self.oscillators.len() ==> (#[trigger] self.oscillators[i]).wf()
        &&& forall|i: int|
            0 <= i < self.effects.len() ==> (#[trigger] self.effects[i]).wf()
                && self.effects[i].spec_kind().wf()
        &&& self.amplitude_total == amplitude_sum(self.oscillators)
        &&& at_most(self.amplitude_total, ONE)
        &&& !crate::ieee::is_negative(self.amplitude_total)
    }
}

/// The amplitude budget: in a template that keeps its rules, the sum of the
/// amplitude maxima of the oscillator slots is at most full scale.
pub proof fn lemma_amplitude_budget(template: Template)
    requires
        template.wf(),
    ensures
        at_most(amplitude_sum(template.oscillators), ONE),
{
}

impl DataParameters {
    /// Builds a template without oscillators and effects, and with the seed
    /// offset of the run seed 0; or names the first rule that the values
    /// break.
    pub fn new(
        sample_rate: u32,
        frequency_range: (u32, u32),
        frequency_std_dev_range: (u32, u32),
        possible_chords: Vec<u32>,
        octave_parameters: OctaveParameters,
        num_samples: u64,
    ) -> (r: Result<Self, ParameterError>)
        requires
            octave_parameters.wf(),
        ensures
            match r {
                Ok(template) => {
                    &&& template_fault(
                        sample_rate,
                        frequency_range,
                        frequency_std_dev_range,
                        possible_chords@,
                        num_samples,
                    ) is None
                    &&& template@.wf()
                    &&& template@.sample_rate == sample_rate
                    &&& template@.frequency_range == frequency_range
                    &&& checked_range(frequency_std_dev_range) == Ok::<
                        (u32, u32),
                        ParameterError,
                    >(
                        (
                            template@.frequency_std_dev_distribution.spec_min(),
                            template@.frequency_std_dev_distribution.spec_max(),
                        ),
                    )
                    &&& template@.possible_chords == possible_chords@
                    &&& template@.octave_parameters == octave_parameters
                    &&& template@.oscillators.len() == 0
                    &&& template@.effects.len() == 0
                    &&& template@.num_samples == num_samples
                    &&& template@.seed_offset == seed_offset_of(0)
                    &&& template@.amplitude_total == ZERO
                },
                Err(e) => template_fault(
                    sample_rate,
                    frequency_range,
                    frequency_std_dev_range,
                    possible_chords@,
                    num_samples,
                ) == Some(e),
            },
    {
        if !is_less(frequency_range.0, frequency_range.1) {
            return Err(ParameterError::FrequencyRange);
        }
        if num_samples == 0 {
            return Err(ParameterError::NoSamples);
        }
        if sample_rate == 0 {
            return Err(ParameterError::SampleRate);
        }
        if !is_at_most(ZERO, frequency_std_dev_range.0) {
            return Err(ParameterError::NegativeMinimum);
        }
        if !is_at_most(frequency_std_dev_range.0, frequency_std_dev_range.1) {
            return Err(ParameterError::EmptyRange);
        }
        if possible_chords.len() == 0 {
            return Err(ParameterError::NoChords);
        }
        if !all_chords_known(&possible_chords) {
            return Err(ParameterError::ChordType);
        }
        let frequency_std_dev_distribution = match LogUniform::from_tuple(frequency_std_dev_range) {
            Ok(d) => d,
            Err(e) => {
                return Err(e);
            },
        };
        Ok(
            DataParameters {
                sample_rate,
                lowest_frequency: frequency_range.0,
                highest_frequency: frequency_range.1,
                frequency_std_dev_distribution,
                possible_chords,
                octave_parameters,
                oscillators: Vec::new(),
                effects: Vec::new(),
                num_samples,
                seed_offset: hash(hash(0)),
                amplitude_total: ZERO,
            },
        )
    }

    /// The template with the seed offset of the run seed `seed_offset`.
    pub fn with_seed_offset(self, seed_offset: u64) -> (r: Self)
        ensures
            r@ == (Template { seed_offset: seed_offset_of(seed_offset), ..self@ }),
    {
        let mut template = self;
        template.seed_offset = hash(hash(seed_offset));
        template
    }

    /// The template with one more oscillator slot at the end, or the first
    /// rule that the slot breaks. The slot is refused when, with it, the
    /// amplitude maxima of the slots sum to more than full scale.
    pub fn with_oscillator(
        self,
        oscillator_type_distribution: OscillatorTypeDistribution,
        probability: u64,
        amplitude_range: (u32, u32),
    ) -> (r: Result<Self, ParameterError>)
        requires
            self@.wf(),
        ensures
            match r {
                Ok(template) => {
                    &&& self@.oscillator_fault(probability, amplitude_range) is None
                    &&& template@.wf()
                    &&& template@.oscillators.len() == self@.oscillators.len() + 1
                    &&& template@.oscillators.drop_last() == self@.oscillators
                    &&& template@.oscillators.last().spec_kind() == oscillator_type_distribution
                    &&& template@.oscillators.last().spec_probability() == probability
                    &&& checked_oscillator(probability, amplitude_range) == Ok::<
                        (u32, u32),
                        ParameterError,
                    >(
                        (
                            template@.oscillators.last().spec_amplitudes().spec_min(),
                            template@.oscillators.last().spec_amplitudes().spec_max(),
                        ),
                    )
                    &&& template@ == (Template {
                        oscillators: template@.oscillators,
                        amplitude_total: amplitude_sum(template@.oscillators),
                        ..self@
                    })
                },
                Err(e) => self@.oscillator_fault(probability, amplitude_range) == Some(e),
            },
    {
        let slot = match OscillatorDistribution::new(
            oscillator_type_distribution,
            probability,
            amplitude_range,
        ) {
            Ok(slot) => slot,
            Err(e) => {
                return Err(e);
            },
        };
        let amplitude_total = plus(self.amplitude_total, slot.maximum_amplitude());
        if is_less(ONE, amplitude_total) {
            return Err(ParameterError::AmplitudeBudget);
        }
        let mut template = self;
        template.oscillators.push(slot);
        template.amplitude_total = amplitude_total;
        proof {
            assert(template@.oscillators.drop_last() =~= self@.oscillators);
            assert(template@.oscillators.last() == slot);
            assert(amplitude_sum(template@.oscillators) == sum(
                amplitude_sum(self@.oscillators),
                slot.spec_amplitudes().spec_max(),
            ));
            assert(template@.amplitude_total == amplitude_sum(template@.oscillators));
            assert forall|i: int| 0 <= i < template@.oscillators.len() implies (
            #[trigger] template@.oscillators[i]).wf() by {
                if i < self@.oscillators.len() {
                    assert(template@.oscillators[i] == self@.oscillators[i]);
                }
            }
            assert(template@.effects == self@.effects);
            assert(template@.wf());
        }
        Ok(template)
    }

    /// The template with one more effect slot at the end, or
    /// [`ParameterError::Probability`] when the probability is not above 0
    /// and at most 1.
    pub fn with_effect(
        self,
        effect_type_distribution: EffectTypeDistribution,
        probability: u64,
    ) -> (r: Result<Self, ParameterError>)
        requires
            self@.wf(),
            effect_type_distribution.wf(),
        ensures
            match r {
                Ok(template) => {
                    &&& crate::parameters::oscillators::is_inclusion_probability(probability)
                    &&& template@.wf()
                    &&& template@.effects.len() == self@.effects.len() + 1
                    &&& template@.effects.drop_last() == self@.effects
                    &&& template@.effects.last().spec_kind() == effect_type_distribution
                    &&& template@.effects.last().spec_probability() == probability
                    &&& template@ == (Template { effects: template@.effects, ..self@ })
                },
                Err(e) => e == ParameterError::Probability
                    && !crate::parameters::oscillators::is_inclusion_probability(probability),
            },
    {
        let slot = match EffectDistribution::new(effect_type_distribution, probability) {
            Ok(slot) => slot,
            Err(e) => {
                return Err(e);
            },
        };
        let mut template = self;
        template.effects.push(slot);
        proof {
            assert(template@.effects.drop_last() =~= self@.effects);
            assert forall|i: int| 0 <= i < template@.effects.len() implies (
            #[trigger] template@.effects[i]).wf() && template@.effects[i].spec_kind().wf() by {
                if i < self@.effects.len() {
                    assert(template@.effects[i] == self@.effects[i]);
                }
            }
        }
        Ok(template)
    }

    /// The seed of the datapoint at `index`: the hash of the index plus the
    /// seed offset, wrapping round. A template without an oscillator slot
    /// that bears a frequency gives no datapoint.
    pub fn generate(&self, index: u64) -> (r: Result<u64, ParameterError>)
        ensures
            match r {
                Ok(seed) => some_slot_bears_frequency(self@.oscillators) && seed == datapoint_seed(
                    self@.seed_offset,
                    index,
                ),
                Err(e) => !some_slot_bears_frequency(self@.oscillators) && e
                    == ParameterError::NoFrequency,
            },
    {
        if !self.has_frequency() {
            return Err(ParameterError::NoFrequency);
        }
        Ok(hash(index).wrapping_add(self.seed_offset))
    }

    pub fn sample_rate(&self) -> (r: u32)
        ensures
            r == self@.sample_rate,
    {
        self.sample_rate
    }

    pub fn frequency_range(&self) -> (r: (u32, u32))
        ensures
            r == self@.frequency_range,
    {
        (self.lowest_frequency, self.highest_frequency)
    }

    pub fn frequency_std_dev_distribution(&self) -> (r: LogUniform)
        ensures
            r == self@.frequency_std_dev_distribution,
    {
        self.frequency_std_dev_distribution
    }

    pub fn possible_chords(&self) -> (r: &Vec<u32>)
        ensures
            r@ == self@.possible_chords,
    {
        &self.possible_chords
    }

    pub fn octave_parameters(&self) -> (r: OctaveParameters)
        ensures
            r == self@.octave_parameters,
    {
        self.octave_parameters
    }

    pub fn oscillators(&self) -> (r: &Vec<OscillatorDistribution>)
        ensures
            r@ == self@.oscillators,
    {
        &self.oscillators
    }

    pub fn effects(&self) -> (r: &Vec<EffectDistribution>)
        ensures
            r@ == self@.effects,
    {
        &self.effects
    }

    pub fn num_samples(&self) -> (r: u64)
        ensures
            r == self@.num_samples,
    {
        self.num_samples
    }

    pub fn seed_offset(&self) -> (r: u64)
        ensures
            r == self@.seed_offset,
    {
        self.seed_offset
    }

    /// The sum of the amplitude maxima of the oscillator slots.
    pub fn amplitude_total(&self) -> (r: u32)
        ensures
            r == self@.amplitude_total,
    {
        self.amplitude_total
    }

    /// Draws the chord type of a datapoint: one of the allowed ones.
    pub fn choose_chord(&self, rng: &mut Mcg128Xsl64) -> (r: u32)
        requires
            self@.wf(),
        ensures
            self@.possible_chords.contains(r),
            r < NUM_CHORD_TYPES,
    {
        pick(&self.possible_chords, rng)
    }

    /// Draws the chord of a datapoint above `base_frequency`: its type, one
    /// of the allowed ones, and the frequencies at which it sounds, which
    /// are those that [`OctaveParameters::generate_chord`] draws for the
    /// chord of that type in the chord table, with the octave rules of the
    /// template.
    pub fn generate_chord(
        &self,
        rng: &mut Mcg128Xsl64,
        add_root_octave: &Bernoulli,
        add_other_octave: &Bernoulli,
        base_frequency: u32,
    ) -> (r: Result<(u32, Vec<u32>), OctaveError>)
        requires
            self@.wf(),
        ensures
            match r {
                Ok((chord_type, frequencies)) => {
                    &&& self@.possible_chords.contains(chord_type)
                    &&& chord_type < NUM_CHORD_TYPES
                    &&& base_frequency < 0x7f80_0000
                    &&& exists|draws: Seq<Seq<i32>>|
                        draws.len() == chord_notes(chord_type)
                            && #[trigger] self@.octave_parameters.chord_frequencies(
                            chord_frequencies_above(chord_type, base_frequency),
                            draws,
                        ) == Ok::<Seq<u32>, OctaveError>(frequencies@)
                },
                Err(e) => if base_frequency < 0x7f80_0000 {
                    exists|chord_type: u32, i: int|
                        self@.possible_chords.contains(chord_type) && 0 <= i < chord_notes(
                            chord_type,
                        ) && self@.octave_parameters.span_of(
                            #[trigger] chord_frequencies_above(chord_type, base_frequency)[i],
                        ) == Err::<OctaveSpan, OctaveError>(e)
                } else {
                    e == OctaveError::Frequency
                },
            },
    {
        let chord_type_index = self.choose_chord(rng);
        let chord = chord_type(chord_type_index);
        assert(chord.frequencies_above(base_frequency) == chord_frequencies_above(
            chord_type_index,
            base_frequency,
        ));
        proof {
            lemma_chord_offsets_finite(chord_type_index);
        }
        match self.octave_parameters.generate_chord(
            rng,
            add_root_octave,
            add_other_octave,
            base_frequency,
            &chord,
        ) {
            Ok(frequencies) => Ok((chord_type_index, frequencies)),
            Err(e) => Err(e),
        }
    }

    /// Whether some oscillator slot bears a frequency.
    pub fn has_frequency(&self) -> (r: bool)
        ensures
            r == some_slot_bears_frequency(self@.oscillators),
    {
        let mut i: usize = 0;
        while i < self.oscillators.len()
            invariant
                i <= self.oscillators.len(),
                forall|j: int|
                    0 <= j < i ==> !(#[trigger] self.oscillators[j]).spec_kind().bears_frequency(),
            decreases self.oscillators.len() - i,
        {
            if self.oscillators[i].has_frequency() {
                return true;
            }
            i = i + 1;
        }
        false
    }
}

fn all_chords_known(possible_chords: &Vec<u32>) -> (r: bool)
    ensures
        r == !has_unknown_chord(possible_chords@),
{
    let mut i: usize = 0;
    while i < possible_chords.len()
        invariant
            i <= possible_chords.len(),
            forall|j: int| 0 <= j < i ==> #[trigger] possible_chords[j] < NUM_CHORD_TYPES,
        decreases possible_chords.len() - i,
    {
        if possible_chords[i] >= NUM_CHORD_TYPES {
            return false;
        }
        i = i + 1;
    }
    true
}

/// The draws of every note as sequences.
pub open spec fn drawn(draws: Seq<Vec<i32>>) -> Seq<Seq<i32>> {
    Seq::new(draws.len(), |i: int| draws[i]@)
}

/// The slots that were taken, in their order.
pub open spec fn taken<T>(slots: Seq<Option<T>>) -> Seq<T>
    decreases slots.len(),
{
    if slots.len() == 0 {
        seq![]
    } else {
        match slots.last() {
            Some(value) => taken(slots.drop_last()).push(value),
            None => taken(slots.drop_last()),
        }
    }
}

/// Gathers what the slots hold, leaving out the slots that were not taken.
pub fn included<T: Copy>(slots: &Vec<Option<T>>) -> (r: Vec<T>)
    ensures
        r@ == taken(slots@),
{
    let mut values: Vec<T> = Vec::new();
    let mut i: usize = 0;
    assert(slots@.take(0) =~= Seq::<Option<T>>::empty());
    while i < slots.len()
        invariant
            i <= slots.len(),
            values@ == taken(slots@.take(i as int)),
        decreases slots.len() - i,
    {
        proof {
            assert(slots@.take(i + 1).drop_last() =~= slots@.take(i as int));
        }
        match slots[i] {
            Some(value) => {
                values.push(value);
            },
            None => {},
        }
        i = i + 1;
    }
    assert(slots@.take(slots.len() as int) =~= slots@);
    values
}

/// Why what was drawn does not make a datapoint.
#[derive(Clone, Copy, Debug, PartialEq, Eq, Structural)]
pub enum DataPointError {
    /// There is not one draw for each oscillator slot and each effect slot
    /// of the template.
    Slots,
    /// An oscillator that was taken is not one of its slot: it is of
    /// another kind, or its amplitude lies outside the range of the slot.
    Oscillator,
    /// An effect that was taken is not one of its slot: it is of another
    /// kind, or its power lies outside the range of the slot.
    Effect,
    /// No oscillator that was taken bears a frequency: the oscillators are
    /// to be drawn again.
    NoFrequency,
    /// The chord type is not one that the template allows.
    Chord,
    /// There are fewer frequencies than the chord has notes.
    Frequencies,
}

/// The parameters of one datapoint: sample rate, base frequency, the
/// deviation of the frequency walk in cents and the seed of the walk, the
/// chord type, every frequency that sounds, the oscillators and effects that
/// were taken, and the number of samples. Frequencies, deviation,
/// amplitudes and powers are single-precision bit patterns.
#[derive(Clone, Debug)]
pub struct DataPointParameters {
    pub sample_rate: u32,
    pub base_frequency: u32,
    pub frequency_std_dev: u32,
    pub frequency_walk_seed: u64,
    pub chord_type: u32,
    pub frequencies: Vec<u32>,
    pub oscillators: Vec<OscillatorParameters>,
    pub effects: Vec<EffectParameters>,
    pub num_samples: u64,
}

/// Whether every oscillator that was taken is one of its slot.
pub open spec fn oscillators_fit(
    slots: Seq<OscillatorDistribution>,
    drawn: Seq<Option<OscillatorParameters>>,
) -> bool {
    forall|i: int|
        0 <= i < drawn.len() && i < slots.len() ==> (#[trigger] drawn[i] matches Some(oscillator)
            ==> slots[i].admits(oscillator))
}

/// Whether every effect that was taken is one of its slot.
pub open spec fn effects_fit(
    slots: Seq<EffectDistribution>,
    drawn: Seq<Option<EffectParameters>>,
) -> bool {
    forall|i: int|
        0 <= i < drawn.len() && i < slots.len() ==> (#[trigger] drawn[i] matches Some(effect)
            ==> slots[i].admits(effect))
}

impl Template {
    /// The first reason for which these draws make no datapoint of the
    /// template, if any.
    pub open spec fn datapoint_fault(
        &self,
        chord_type: u32,
        frequencies: Seq<u32>,
        oscillators: Seq<Option<OscillatorParameters>>,
        effects: Seq<Option<EffectParameters>>,
    ) -> Option<DataPointError> {
        if oscillators.len() != self.oscillators.len() || effects.len() != self.effects.len() {
            Some(DataPointError::Slots)
        } else if !oscillators_fit(self.oscillators, oscillators) {
            Some(DataPointError::Oscillator)
        } else if !effects_fit(self.effects, effects) {
            Some(DataPointError::Effect)
        } else if !some_bears_frequency(taken(oscillators)) {
            Some(DataPointError::NoFrequency)
        } else if !self.possible_chords.contains(chord_type) {
            Some(DataPointError::Chord)
        } else if frequencies.len() < chord_notes(chord_type) {
            Some(DataPointError::Frequencies)
        } else {
            None
        }
    }
}

impl DataPointParameters {
    /// What every datapoint keeps: it has samples and a sample rate, a chord
    /// type of the chord table with at least one frequency for each of its
    /// notes, at least one oscillator that bears a frequency, and amplitudes
    /// that sum to at most full scale.
    pub open spec fn wf(&self) -> bool {
        &&& self.sample_rate > 0
        &&& self.num_samples > 0
        &&& self.chord_type < NUM_CHORD_TYPES
        &&& self.frequencies@.len() >= chord_notes(self.chord_type)
        &&& some_bears_frequency(self.oscillators@)
        &&& amplitudes_sum(self.oscillators@) matches Some(total) && total <= ONE
    }

    /// Makes the parameters of a datapoint of the template from what was
    /// drawn for it: the base frequency, the deviation and the seed of the
    /// frequency walk, the chord type, the frequencies that sound, and for
    /// each oscillator and effect slot of the template what was drawn, if
    /// the slot was taken. What was taken must be of its slot, as
    /// [`OscillatorDistribution::admits`] and [`EffectDistribution::admits`]
    /// say. Draws without an oscillator that bears a frequency are refused
    /// with [`DataPointError::NoFrequency`].
    pub fn new(
        data_parameters: &DataParameters,
        base_frequency: u32,
        frequency_std_dev: u32,
        frequency_walk_seed: u64,
        chord_type: u32,
        frequencies: Vec<u32>,
        oscillators: &Vec<Option<OscillatorParameters>>,
        effects: &Vec<Option<EffectParameters>>,
    ) -> (r: Result<Self, DataPointError>)
        requires
            data_parameters@.wf(),
        ensures
            match r {
                Ok(parameters) => {
                    &&& data_parameters@.datapoint_fault(
                        chord_type,
                        frequencies@,
                        oscillators@,
                        effects@,
                    ) is None
                    &&& parameters.wf()
                    &&& parameters.sample_rate == data_parameters@.sample_rate
                    &&& parameters.base_frequency == base_frequency
                    &&& parameters.frequency_std_dev == frequency_std_dev
                    &&& parameters.frequency_walk_seed == frequency_walk_seed
                    &&& parameters.chord_type == chord_type
                    &&& parameters.frequencies@ == frequencies@
                    &&& parameters.oscillators@ == taken(oscillators@)
                    &&& parameters.effects@ == taken(effects@)
                    &&& parameters.num_samples == data_parameters@.num_samples
                },
                Err(e) => data_parameters@.datapoint_fault(
                    chord_type,
                    frequencies@,
                    oscillators@,
                    effects@,
                ) == Some(e),
            },
    {
        if oscillators.len() != data_parameters.oscillators.len() || effects.len()
            != data_parameters.effects.len() {
            return Err(DataPointError::Slots);
        }
        let ghost drawn_oscillators = oscillators@;
        if !check_oscillators(&data_parameters.oscillators, oscillators) {
            return Err(DataPointError::Oscillator);
        }
        if !check_effects(&data_parameters.effects, effects) {
            return Err(DataPointError::Effect);
        }
        let oscillators = included(oscillators);
        if !any_has_frequency(&oscillators) {
            return Err(DataPointError::NoFrequency);
        }
        if !contains_chord(&data_parameters.possible_chords, chord_type) {
            return Err(DataPointError::Chord);
        }
        proof {
            let i = choose|i: int|
                0 <= i < data_parameters@.possible_chords.len()
                    && data_parameters@.possible_chords[i] == chord_type;
            assert(data_parameters@.possible_chords[i] < NUM_CHORD_TYPES);
        }
        if frequencies.len() < num_chord_notes(chord_type) {
            return Err(DataPointError::Frequencies);
        }
        proof {
            lemma_amplitudes_within_budget(data_parameters@.oscillators, drawn_oscillators);
        }
        Ok(
            DataPointParameters {
                sample_rate: data_parameters.sample_rate,
                base_frequency,
                frequency_std_dev,
                frequency_walk_seed,
                chord_type,
                frequencies,
                oscillators,
                effects: included(effects),
                num_samples: data_parameters.num_samples,
            },
        )
    }

    /// Whether some oscillator bears a frequency.
    pub fn has_frequency(&self) -> (r: bool)
        ensures
            r == some_bears_frequency(self.oscillators@),
    {
        any_has_frequency(&self.oscillators)
    }

    /// The datapoint of the parameters, with the samples rendered from
    /// them, one for each sample that the parameters ask for; or the first
    /// sample that lies beyond full scale.
    pub fn generate(self, samples: Vec<u32>) -> (r: Result<DataPoint, AudioGenerationError>)
        requires
            samples@.len() == self.num_samples,
        ensures
            match r {
                Ok(data_point) => {
                    &&& never_clips(samples@)
                    &&& data_point.audio.samples@ == samples@
                    &&& data_point.audio.samples@.len() == self.num_samples
                    &&& data_point.audio.sample_rate == self.sample_rate
                    &&& data_point.parameters == self
                },
                Err(AudioGenerationError::Clipping(index)) => is_first_clipping(
                    samples@,
                    index as int,
                ),
            },
    {
        DataPoint::new(self, samples)
    }

    /// The nominal amplitude of the signal: the sum of the amplitudes of
    /// the oscillators, as [`amplitudes_sum`] gives it.
    pub fn total_amplitude(&self) -> (r: Option<u32>)
        ensures
            r == amplitudes_sum(self.oscillators@),
    {
        let mut total: u32 = ZERO;
        let mut i: usize = 0;
        assert(self.oscillators@.take(0) =~= Seq::<OscillatorParameters>::empty());
        while i < self.oscillators.len()
            invariant
                i <= self.oscillators.len(),
                total < 0x7f80_0000,
                amplitudes_sum(self.oscillators@.take(i as int)) == Some(total),
            decreases self.oscillators.len() - i,
        {
            proof {
                assert(self.oscillators@.take(i + 1).drop_last() =~= self.oscillators@.take(
                    i as int,
                ));
            }
            let amplitude = self.oscillators[i].amplitude();
            if amplitude >= INFINITY {
                proof {
                    lemma_amplitudes_sum_fails(self.oscillators@, i + 1);
                }
                return None;
            }
            let longer = plus(total, amplitude);
            if longer >= INFINITY {
                proof {
                    lemma_amplitudes_sum_fails(self.oscillators@, i + 1);
                }
                return None;
            }
            total = longer;
            i = i + 1;
        }
        assert(self.oscillators@.take(self.oscillators.len() as int) =~= self.oscillators@);
        Some(total)
    }
}

fn check_oscillators(
    slots: &Vec<OscillatorDistribution>,
    drawn: &Vec<Option<OscillatorParameters>>,
) -> (r: bool)
    requires
        slots.len() == drawn.len(),
    ensures
        r == oscillators_fit(slots@, drawn@),
{
    let mut i: usize = 0;
    while i < drawn.len()
        invariant
            i <= drawn.len(),
            slots.len() == drawn.len(),
            forall|j: int|
                0 <= j < i ==> (#[trigger] drawn[j] matches Some(oscillator) ==> slots[j].admits(
                    oscillator,
                )),
        decreases drawn.len() - i,
    {
        match &drawn[i] {
            Some(oscillator) => {
                if !slots[i].check(oscillator) {
                    assert(drawn[i as int] matches Some(o) && !slots[i as int].admits(o));
                    return false;
                }
            },
            None => {},
        }
        i = i + 1;
    }
    true
}

fn check_effects(slots: &Vec<EffectDistribution>, drawn: &Vec<Option<EffectParameters>>) -> (r:
    bool)
    requires
        slots.len() == drawn.len(),
    ensures
        r == effects_fit(slots@, drawn@),
{
    let mut i: usize = 0;
    while i < drawn.len()
        invariant
            i <= drawn.len(),
            slots.len() == drawn.len(),
            forall|j: int|
                0 <= j < i ==> (#[trigger] drawn[j] matches Some(effect) ==> slots[j].admits(
                    effect,
                )),
        decreases drawn.len() - i,
    {
        match &drawn[i] {
            Some(effect) => {
                if !slots[i].check(effect) {
                    assert(drawn[i as int] matches Some(e) && !slots[i as int].admits(e));
                    return false;
                }
            },
            None => {},
        }
        i = i + 1;
    }
    true
}

/// Whether some oscillator bears a frequency.
pub fn any_has_frequency(oscillators: &Vec<OscillatorParameters>) -> (r: bool)
    ensures
        r == some_bears_frequency(oscillators@),
{
    let mut i: usize = 0;
    while i < oscillators.len()
        invariant
            i <= oscillators.len(),
            forall|j: int| 0 <= j < i ==> !(#[trigger] oscillators[j]).bears_frequency(),
        decreases oscillators.len() - i,
    {
        if oscillators[i].has_frequency() {
            return true;
        }
        i = i + 1;
    }
    false
}

fn contains_chord(possible_chords: &Vec<u32>, chord_type: u32) -> (r: bool)
    ensures
        r == possible_chords@.contains(chord_type),
{
    let mut i: usize = 0;
    while i < possible_chords.len()
        invariant
            i <= possible_chords.len(),
            forall|j: int| 0 <= j < i ==> possible_chords[j] != chord_type,
        decreases possible_chords.len() - i,
    {
        if possible_chords[i] == chord_type {
            return true;
        }
        i = i + 1;
    }
    false
}

/// The sum of the amplitudes of the oscillators: the amplitudes are added
/// to zero one after the other, in the order of the oscillators, and every
/// sum is rounded as a single-precision sum is. There is none where an
/// amplitude is negative, infinite or a NaN, or where a sum is infinite.
pub open spec fn amplitudes_sum(oscillators: Seq<OscillatorParameters>) -> Option<u32>
    decreases oscillators.len(),
{
    if oscillators.len() == 0 {
        Some(ZERO)
    } else {
        match amplitudes_sum(oscillators.drop_last()) {
            None => None,
            Some(total) => if oscillators.last().amplitude >= 0x7f80_0000 || sum(
                total,
                oscillators.last().amplitude,
            ) >= 0x7f80_0000 {
                None
            } else {
                Some(sum(total, oscillators.last().amplitude))
            },
        }
    }
}

/// Where the first `count` amplitudes have no sum, all of them have none.
pub proof fn lemma_amplitudes_sum_fails(oscillators: Seq<OscillatorParameters>, count: int)
    requires
        0 <= count <= oscillators.len(),
        amplitudes_sum(oscillators.take(count)) is None,
    ensures
        amplitudes_sum(oscillators) is None,
    decreases oscillators.len() - count,
{
    if count == oscillators.len() {
        assert(oscillators.take(count) =~= oscillators);
    } else {
        assert(oscillators.take(count + 1).drop_last() =~= oscillators.take(count));
        lemma_amplitudes_sum_fails(oscillators, count + 1);
    }
}

/// The amplitude budget of a datapoint: where every oscillator that was
/// taken is one of its slot, and the amplitude maxima of the slots sum to at
/// most full scale, the amplitudes of the oscillators taken have a sum, and
/// it is at most that of the maxima.
pub proof fn lemma_amplitudes_within_budget(
    slots: Seq<OscillatorDistribution>,
    drawn: Seq<Option<OscillatorParameters>>,
)
    requires
        drawn.len() == slots.len(),
        forall|i: int| 0 <= i < slots.len() ==> (#[trigger] slots[i]).wf(),
        oscillators_fit(slots, drawn),
        amplitude_sum(slots) <= ONE,
    ensures
        amplitudes_sum(taken(drawn)) is Some,
        amplitudes_sum(taken(drawn))->Some_0 <= amplitude_sum(slots),
    decreases slots.len(),
{
    if slots.len() > 0 {
        let maximum = slots.last().spec_amplitudes().spec_max();
        let before = amplitude_sum(slots.drop_last());
        assert(slots.last().wf());
        lemma_amplitude_sum_finite(slots.drop_last());
        lemma_sum_monotone(before, before, maximum, maximum);
        assert(oscillators_fit(slots.drop_last(), drawn.drop_last())) by {
            assert forall|i: int|
                0 <= i < drawn.drop_last().len() && i < slots.drop_last().len() implies (
            #[trigger] drawn.drop_last()[i] matches Some(oscillator) ==> slots.drop_last()[i].admits(
                oscillator,
            )) by {
                assert(drawn.drop_last()[i] == drawn[i]);
                assert(slots.drop_last()[i] == slots[i]);
            }
        }
        assert forall|i: int| 0 <= i < slots.drop_last().len() implies (
        #[trigger] slots.drop_last()[i]).wf() by {
            assert(slots.drop_last()[i] == slots[i]);
        }
        lemma_amplitudes_within_budget(slots.drop_last(), drawn.drop_last());
        let total = amplitudes_sum(taken(drawn.drop_last()))->Some_0;
        match drawn.last() {
            None => {},
            Some(oscillator) => {
                assert(drawn[drawn.len() - 1] == drawn.last());
                assert(slots[slots.len() - 1].admits(oscillator));
                assert(taken(drawn).drop_last() =~= taken(drawn.drop_last()));
                assert(taken(drawn).last() == oscillator);
                lemma_sum_monotone(total, before, oscillator.amplitude, maximum);
            },
        }
    }
}

/// The sum of the amplitude maxima of slots that keep their rules is a
/// number that is not negative, infinity at most.
pub proof fn lemma_amplitude_sum_finite(slots: Seq<OscillatorDistribution>)
    requires
        forall|i: int| 0 <= i < slots.len() ==> (#[trigger] slots[i]).wf(),
    ensures
        amplitude_sum(slots) <= 0x7f80_0000,
    decreases slots.len(),
{
    if slots.len() > 0 {
        let n = units(amplitude_sum(slots.drop_last())) + units(
            slots.last().spec_amplitudes().spec_max(),
        );
        assert(slots.last().wf());
        assert forall|i: int| 0 <= i < slots.drop_last().len() implies (
        #[trigger] slots.drop_last()[i]).wf() by {
            assert(slots.drop_last()[i] == slots[i]);
        }
        lemma_amplitude_sum_finite(slots.drop_last());
        lemma_units_at_most(amplitude_sum(slots.drop_last()), amplitude_sum(slots.drop_last()));
        lemma_units_at_most(
            slots.last().spec_amplitudes().spec_max(),
            slots.last().spec_amplitudes().spec_max(),
        );
        lemma_rounded_exists(n, 1);
    }
}

} // verus!
