//! Datapoints: rendered audio with the parameters that made it, and the
//! label that is kept of them.

use crate::arithmetic::divided;
use crate::arithmetic::plus_signed;
use crate::arithmetic::quotient;
use crate::arithmetic::signed_product;
use crate::arithmetic::signed_sum;
use crate::arithmetic::times_signed;
use crate::audio::Audio;
use crate::audio::AudioGenerationError;
use crate::audio::first_clipping;
use crate::audio::is_first_clipping;
use crate::audio::never_clips;
use crate::ieee::magnitude;
use crate::ieee::ONE;
use crate::ieee::ZERO;
use crate::note_number_to_note;
use crate::num_chord_notes;
use crate::NUM_CHORD_TYPES;
use crate::parameters::data::amplitudes_sum;
use crate::parameters::data::DataPointParameters;
use crate::parameters::effects::all_finite;
use crate::parameters::effects::Distortion;
use crate::parameters::effects::EffectError;
use crate::parameters::effects::EffectParameters;
use crate::parameters::effects::lemma_normalization;
use crate::parameters::effects::normalized_buffer;
use crate::parameters::oscillators::OscillatorParameters;
use crate::pitch_class;
use crate::rng::draw_u64;
use crate::rng::seeded;
use vstd::prelude::*;

verus! {

/// One oscillator to render at one frequency, with the seed of its
/// frequency walk.
#[derive(Clone, Copy, Debug)]
pub struct RenderJob {
    pub frequency: u32,
    pub oscillator: OscillatorParameters,
    pub frequency_walk_seed: u64,
}

/// A datapoint: the audio and the parameters it was rendered from.
#[derive(Clone, Debug)]
pub struct DataPoint {
    pub audio: Audio,
    pub parameters: DataPointParameters,
}

/// What is kept of a datapoint beside its audio. Frequencies are
/// single-precision bit patterns; the note is the pitch class of the base
/// frequency, from 0 to 11.
#[derive(Clone, Debug)]
pub struct DataPointLabel {
    pub sample_rate: u32,
    pub base_frequency: Option<u32>,
    pub frequencies: Option<Vec<u32>>,
    pub note: Option<u32>,
    pub chord_type: u32,
    pub num_samples: u64,
}

/// Why a label does not belong to an audio buffer.
#[derive(Clone, Copy, Debug, PartialEq, Eq, Structural)]
pub enum LabelMismatch {
    /// The label records another sample rate than the audio has.
    SampleRate,
    /// The label records another number of samples than the audio has.
    NumSamples,
}

/// The number of notes of a chord type as a single-precision number.
pub open spec fn note_count_of(chord_type: u32) -> u32 {
    if chord_type == 0 {
        0x3f80_0000
    } else if chord_type == 1 {
        0x4000_0000
    } else if chord_type <= 5 {
        0x4040_0000
    } else {
        0x4080_0000
    }
}

/// The factor that keeps the amplitude of a chord at that of one note: one
/// divided by the number of notes of the chord type.
pub open spec fn amplitude_factor_of(chord_type: u32) -> u32 {
    quotient(ONE, note_count_of(chord_type))
}

/// The buffer with every sample multiplied by `factor`.
pub open spec fn scaled(samples: Seq<u32>, factor: u32) -> Seq<u32> {
    Seq::new(samples.len(), |i: int| signed_product(samples[i], factor))
}

/// The factor that keeps the amplitude of a chord at that of one note.
pub fn amplitude_factor(chord_type: u32) -> (r: u32)
    requires
        chord_type < NUM_CHORD_TYPES,
    ensures
        r == amplitude_factor_of(chord_type),
        r <= ONE,
{
    let notes = num_chord_notes(chord_type);
    let count: u32 = if notes == 1 {
        0x3f80_0000
    } else if notes == 2 {
        0x4000_0000
    } else if notes == 3 {
        0x4040_0000
    } else {
        0x4080_0000
    };
    proof {
        crate::arithmetic::lemma_quotient_within(ONE, count);
    }
    divided(ONE, count)
}

/// The sample that an oscillator adds to a buffer: what the buffer holds,
/// plus what the oscillator gives times its amplitude.
pub open spec fn mixed_sample(held: u32, given: u32, amplitude: u32) -> u32 {
    signed_sum(held, signed_product(given, amplitude))
}

/// Whether an oscillator can be added to a buffer: it gives one sample for
/// each sample of the buffer, its amplitude is finite and not negative, and
/// every number that comes up is finite.
pub open spec fn mixes(buffer: Seq<u32>, rendered: Seq<u32>, amplitude: u32) -> bool {
    &&& rendered.len() == buffer.len()
    &&& amplitude < 0x7f80_0000
    &&& forall|i: int|
        0 <= i < buffer.len() ==> {
            &&& magnitude(#[trigger] buffer[i]) < 0x7f80_0000
            &&& magnitude(rendered[i]) < 0x7f80_0000
            &&& magnitude(signed_product(rendered[i], amplitude)) < 0x7f80_0000
            &&& magnitude(mixed_sample(buffer[i], rendered[i], amplitude)) < 0x7f80_0000
        }
}

/// The buffer after an oscillator was added to it.
pub open spec fn mixed(buffer: Seq<u32>, rendered: Seq<u32>, amplitude: u32) -> Seq<u32> {
    Seq::new(buffer.len(), |i: int| mixed_sample(buffer[i], rendered[i], amplitude))
}

/// What applying the effects from the one at `from` on makes of a buffer,
/// and where it stops. The effects are taken in their order. Normalizing is
/// done at once; a distortion stops the run, and is handed on with the
/// place of the effect after it and with the nominal amplitude of the
/// signal; at the end of the effects nothing is handed on. A buffer that
/// cannot be normalized stops the run with its error.
pub open spec fn effects_from(
    effects: Seq<EffectParameters>,
    from: int,
    buffer: Seq<u32>,
    signal_amplitude: u32,
) -> (Result<Option<(usize, Distortion)>, EffectError>, Seq<u32>)
    decreases effects.len() - from,
{
    if from < 0 || from >= effects.len() {
        (Ok(None), buffer)
    } else {
        match effects[from] {
            EffectParameters::Distortion(power) => (
                Ok(Some(((from + 1) as usize, Distortion { power, signal_amplitude }))),
                buffer,
            ),
            EffectParameters::Normalize => if buffer.len() == 0 {
                (Err(EffectError::EmptyBuffer), buffer)
            } else if !all_finite(buffer) {
                (Err(EffectError::NotFinite), buffer)
            } else {
                effects_from(effects, from + 1, normalized_buffer(buffer), signal_amplitude)
            },
        }
    }
}

/// Whether `jobs` pairs every frequency with every oscillator, the
/// frequencies in their order and, for each, the oscillators in theirs.
pub open spec fn is_render_plan(
    jobs: Seq<RenderJob>,
    frequencies: Seq<u32>,
    oscillators: Seq<OscillatorParameters>,
) -> bool {
    &&& jobs.len() == frequencies.len() * oscillators.len()
    &&& forall|i: int, j: int|
        0 <= i < frequencies.len() && 0 <= j < oscillators.len() ==> {
            &&& 0 <= i * oscillators.len() + j < jobs.len()
            &&& (#[trigger] jobs[i * oscillators.len() + j]).frequency == frequencies[i]
            &&& jobs[i * oscillators.len() + j].oscillator == oscillators[j]
        }
}

impl DataPoint {
    /// What is to be rendered and summed for a datapoint: every oscillator
    /// at every frequency, each with a seed of its own for its frequency
    /// walk, drawn in this order from a generator seeded with the
    /// datapoint's walk seed.
    pub fn generate_from_oscillators(parameters: &DataPointParameters) -> (jobs: Vec<RenderJob>)
        ensures
            is_render_plan(jobs@, parameters.frequencies@, parameters.oscillators@),
    {
        let mut jobs: Vec<RenderJob> = Vec::new();
        let mut rng = seeded(parameters.frequency_walk_seed);
        let count = parameters.oscillators.len();
        let mut i: usize = 0;
        while i < parameters.frequencies.len()
            invariant
                i <= parameters.frequencies.len(),
                count == parameters.oscillators.len(),
                jobs.len() == i * count,
                forall|a: int, b: int|
                    0 <= a < i && 0 <= b < count ==> {
                        &&& 0 <= a * count + b < jobs.len()
                        &&& (#[trigger] jobs[a * count + b]).frequency
                            == parameters.frequencies[a]
                        &&& jobs[a * count + b].oscillator == parameters.oscillators[b]
                    },
            decreases parameters.frequencies.len() - i,
        {
            let mut j: usize = 0;
            while j < count
                invariant
                    i < parameters.frequencies.len(),
                    count == parameters.oscillators.len(),
                    j <= count,
                    jobs.len() == i * count + j,
                    forall|a: int, b: int|
                        0 <= a < i && 0 <= b < count ==> {
                            &&& 0 <= a * count + b < jobs.len()
                            &&& (#[trigger] jobs[a * count + b]).frequency
                                == parameters.frequencies[a]
                            &&& jobs[a * count + b].oscillator == parameters.oscillators[b]
                        },
                    forall|b: int|
                        0 <= b < j ==> {
                            &&& (#[trigger] jobs[i * count + b]).frequency
                                == parameters.frequencies[i as int]
                            &&& jobs[i * count + b].oscillator == parameters.oscillators[b]
                        },
                decreases count - j,
            {
                let ghost before = jobs@;
                let job = RenderJob {
                    frequency: parameters.frequencies[i],
                    oscillator: parameters.oscillators[j],
                    frequency_walk_seed: draw_u64(&mut rng),
                };
                jobs.push(job);
                proof {
                    assert forall|a: int, b: int| 0 <= a < i && 0 <= b < count implies {
                        &&& 0 <= a * count + b < jobs.len()
                        &&& (#[trigger] jobs[a * count + b]).frequency
                            == parameters.frequencies[a]
                        &&& jobs[a * count + b].oscillator == parameters.oscillators[b]
                    } by {
                        assert(before[a * count + b].frequency == parameters.frequencies[a]);
                        assert(jobs[a * count + b] == before[a * count + b]);
                    }
                    assert forall|b: int| 0 <= b < j + 1 implies {
                        &&& (#[trigger] jobs[i * count + b]).frequency
                            == parameters.frequencies[i as int]
                        &&& jobs[i * count + b].oscillator == parameters.oscillators[b]
                    } by {
                        if b < j {
                            assert(before[i * count + b].frequency
                                == parameters.frequencies[i as int]);
                            assert(jobs[i * count + b] == before[i * count + b]);
                        }
                    }
                }
                j = j + 1;
            }
            proof {
                assert((i + 1) * count == i * count + count) by (nonlinear_arith);
                assert forall|a: int, b: int| 0 <= a < i + 1 && 0 <= b < count implies {
                    &&& 0 <= a * count + b < jobs.len()
                    &&& (#[trigger] jobs[a * count + b]).frequency == parameters.frequencies[a]
                    &&& jobs[a * count + b].oscillator == parameters.oscillators[b]
                } by {
                    if a == i {
                        assert(jobs[i * count + b].frequency == parameters.frequencies[i as int]);
                        assert(0 <= i * count) by (nonlinear_arith)
                            requires
                                0 <= i,
                                0 <= count,
                        ;
                    }
                }
            }
            i = i + 1;
        }
        jobs
    }

    /// Adds an oscillator to the buffer: to every sample, what the
    /// oscillator gives for it times the amplitude of the oscillator. Where
    /// that cannot be done, as [`mixes`] says, the result is `false` and the
    /// buffer stays as it is.
    pub fn write_oscillator(buffer: &mut Vec<u32>, rendered: &Vec<u32>, amplitude: u32) -> (r: bool)
        ensures
            r == mixes(old(buffer)@, rendered@, amplitude),
            r ==> final(buffer)@ == mixed(old(buffer)@, rendered@, amplitude),
            !r ==> final(buffer)@ == old(buffer)@,
    {
        if rendered.len() != buffer.len() || amplitude >= 0x7f80_0000 {
            return false;
        }
        let mut sums: Vec<u32> = Vec::new();
        let mut i: usize = 0;
        while i < buffer.len()
            invariant
                i <= buffer.len(),
                rendered.len() == buffer.len(),
                amplitude < 0x7f80_0000,
                sums.len() == i,
                forall|j: int|
                    0 <= j < i ==> {
                        &&& magnitude(#[trigger] buffer[j]) < 0x7f80_0000
                        &&& magnitude(rendered[j]) < 0x7f80_0000
                        &&& magnitude(signed_product(rendered[j], amplitude)) < 0x7f80_0000
                        &&& magnitude(mixed_sample(buffer[j], rendered[j], amplitude))
                            < 0x7f80_0000
                    },
                forall|j: int|
                    0 <= j < i ==> #[trigger] sums[j] == mixed_sample(
                        buffer[j],
                        rendered[j],
                        amplitude,
                    ),
            decreases buffer.len() - i,
        {
            let held = buffer[i];
            let given = rendered[i];
            if held % 0x8000_0000 >= 0x7f80_0000 || given % 0x8000_0000 >= 0x7f80_0000 {
                assert(!(magnitude(buffer[i as int]) < 0x7f80_0000 && magnitude(rendered[i as int])
                    < 0x7f80_0000));
                return false;
            }
            let share = times_signed(given, amplitude);
            if share % 0x8000_0000 >= 0x7f80_0000 {
                assert(!(magnitude(signed_product(rendered[i as int], amplitude)) < 0x7f80_0000));
                return false;
            }
            let sample = plus_signed(held, share);
            if sample % 0x8000_0000 >= 0x7f80_0000 {
                assert(!(magnitude(mixed_sample(buffer[i as int], rendered[i as int], amplitude))
                    < 0x7f80_0000));
                return false;
            }
            sums.push(sample);
            i = i + 1;
        }
        assert(sums@ =~= mixed(buffer@, rendered@, amplitude));
        *buffer = sums;
        true
    }

    /// Scales the sum of the rendered oscillators to the size of the chord:
    /// every sample is multiplied by the amplitude factor of the chord type.
    /// A buffer with a sample that is infinite or a NaN is refused with
    /// `false`, and stays as it is.
    pub fn scale_to_chord(samples: &mut Vec<u32>, chord_type: u32) -> (r: bool)
        requires
            chord_type < NUM_CHORD_TYPES,
        ensures
            r == all_finite(old(samples)@),
            r ==> final(samples)@ == scaled(old(samples)@, amplitude_factor_of(chord_type)),
            !r ==> final(samples)@ == old(samples)@,
    {
        let mut i: usize = 0;
        while i < samples.len()
            invariant
                i <= samples.len(),
                forall|j: int| 0 <= j < i ==> magnitude(#[trigger] samples[j]) < 0x7f80_0000,
            decreases samples.len() - i,
        {
            if samples[i] % 0x8000_0000 >= 0x7f80_0000 {
                return false;
            }
            i = i + 1;
        }
        let factor = amplitude_factor(chord_type);
        let ghost before = samples@;
        let mut i: usize = 0;
        while i < samples.len()
            invariant
                i <= samples.len(),
                samples.len() == before.len(),
                factor < 0x7f80_0000,
                all_finite(before),
                forall|j: int|
                    0 <= j < i ==> #[trigger] samples[j] == signed_product(before[j], factor),
                forall|j: int| i <= j < samples.len() ==> #[trigger] samples[j] == before[j],
            decreases samples.len() - i,
        {
            assert(magnitude(before[i as int]) < 0x7f80_0000);
            let sample = times_signed(samples[i], factor);
            samples.set(i, sample);
            i = i + 1;
        }
        assert(samples@ =~= scaled(before, factor));
        true
    }

    /// Applies the effects of the datapoint to the buffer, in their order,
    /// from the effect at `from` on and up to the next distortion, as
    /// [`effects_from`] says. The curve of a distortion is not the
    /// library's: the distortion is handed back, with the place at which to
    /// go on once it is applied.
    pub fn apply_effects(parameters: &DataPointParameters, from: usize, buffer: &mut Vec<u32>) -> (r:
        Result<Option<(usize, Distortion)>, EffectError>)
        requires
            amplitudes_sum(parameters.oscillators@) is Some,
        ensures
            (r, final(buffer)@) == effects_from(
                parameters.effects@,
                from as int,
                old(buffer)@,
                amplitudes_sum(parameters.oscillators@)->Some_0,
            ),
    {
        let signal_amplitude = match parameters.total_amplitude() {
            Some(total) => total,
            None => ZERO,
        };
        let ghost before = buffer@;
        let mut i: usize = from;
        while i < parameters.effects.len()
            invariant
                from <= i,
                before == old(buffer)@,
                signal_amplitude == amplitudes_sum(parameters.oscillators@)->Some_0,
                effects_from(parameters.effects@, i as int, buffer@, signal_amplitude)
                    == effects_from(parameters.effects@, from as int, before, signal_amplitude),
            decreases parameters.effects.len() - i,
        {
            let ghost held = buffer@;
            let ghost outcome = effects_from(
                parameters.effects@,
                i as int,
                held,
                signal_amplitude,
            );
            match parameters.effects[i].apply_to_buffer(buffer, signal_amplitude) {
                Ok(Some(distortion)) => {
                    assert(outcome.0 == Ok::<Option<(usize, Distortion)>, EffectError>(
                        Some(((i + 1) as usize, distortion)),
                    ));
                    assert(outcome.1 == buffer@);
                    return Ok(Some((i + 1, distortion)));
                },
                Ok(None) => {
                    proof {
                        lemma_normalization(held, buffer@);
                    }
                },
                Err(e) => {
                    assert(outcome.0 == Err::<Option<(usize, Distortion)>, EffectError>(e));
                    assert(outcome.1 == buffer@);
                    return Err(e);
                },
            }
            i = i + 1;
        }
        Ok(None)
    }

    /// The datapoint of these parameters and the samples rendered from
    /// them, one for each sample that the parameters ask for. Samples of
    /// which one lies beyond full scale make no datapoint: the first such
    /// sample is reported.
    pub fn new(parameters: DataPointParameters, samples: Vec<u32>) -> (r: Result<
        Self,
        AudioGenerationError,
    >)
        requires
            samples@.len() == parameters.num_samples,
        ensures
            match r {
                Ok(data_point) => {
                    &&& never_clips(samples@)
                    &&& data_point.audio.samples@ == samples@
                    &&& data_point.audio.samples@.len() == parameters.num_samples
                    &&& data_point.audio.sample_rate == parameters.sample_rate
                    &&& data_point.parameters == parameters
                },
                Err(AudioGenerationError::Clipping(index)) => is_first_clipping(
                    samples@,
                    index as int,
                ),
            },
    {
        match first_clipping(&samples) {
            Some(index) => Err(AudioGenerationError::Clipping(index)),
            None => {
                let audio = Audio::from_samples(samples, parameters.sample_rate);
                Ok(DataPoint { audio, parameters })
            },
        }
    }

    pub fn audio(&self) -> (r: &Audio)
        ensures
            *r == self.audio,
    {
        &self.audio
    }

    pub fn parameters(&self) -> (r: &DataPointParameters)
        ensures
            *r == self.parameters,
    {
        &self.parameters
    }

    /// The label of the datapoint. `note_number` is the note number of the
    /// base frequency, a single-precision bit pattern.
    pub fn label(&self, note_number: u32) -> (r: DataPointLabel)
        ensures
            r.labels(self.parameters, note_number),
    {
        DataPointLabel::new(&self.parameters, note_number)
    }
}

impl DataPointLabel {
    /// Whether the label is that of the parameters, for a base frequency
    /// whose note number is `note_number`.
    pub open spec fn labels(&self, params: DataPointParameters, note_number: u32) -> bool {
        &&& self.sample_rate == params.sample_rate
        &&& self.base_frequency == Some(params.base_frequency)
        &&& self.frequencies matches Some(frequencies) && frequencies@ == params.frequencies@
        &&& self.note == Some(pitch_class(note_number))
        &&& self.chord_type == params.chord_type
        &&& self.num_samples == params.num_samples
    }

    /// The label of the parameters. `note_number` is the note number of
    /// the base frequency, a single-precision bit pattern.
    pub fn new(params: &DataPointParameters, note_number: u32) -> (r: Self)
        ensures
            r.labels(*params, note_number),
    {
        let mut frequencies: Vec<u32> = Vec::new();
        let mut i: usize = 0;
        while i < params.frequencies.len()
            invariant
                i <= params.frequencies.len(),
                frequencies@ == params.frequencies@.take(i as int),
            decreases params.frequencies.len() - i,
        {
            frequencies.push(params.frequencies[i]);
            assert(frequencies@ =~= params.frequencies@.take(i + 1));
            i = i + 1;
        }
        assert(params.frequencies@.take(params.frequencies.len() as int)
            =~= params.frequencies@);
        DataPointLabel {
            sample_rate: params.sample_rate,
            base_frequency: Some(params.base_frequency),
            frequencies: Some(frequencies),
            note: Some(note_number_to_note(note_number)),
            chord_type: params.chord_type,
            num_samples: params.num_samples,
        }
    }

    pub fn sample_rate(&self) -> (r: u32)
        ensures
            r == self.sample_rate,
    {
        self.sample_rate
    }

    pub fn base_frequency(&self) -> (r: Option<u32>)
        ensures
            r == self.base_frequency,
    {
        self.base_frequency
    }

    pub fn frequencies(&self) -> (r: Option<&Vec<u32>>)
        ensures
            match (r, self.frequencies) {
                (Some(a), Some(b)) => *a == b,
                (None, None) => true,
                _ => false,
            },
    {
        self.frequencies.as_ref()
    }

    pub fn note(&self) -> (r: Option<u32>)
        ensures
            r == self.note,
    {
        self.note
    }

    pub fn chord_type(&self) -> (r: u32)
        ensures
            r == self.chord_type,
    {
        self.chord_type
    }

    pub fn num_samples(&self) -> (r: u64)
        ensures
            r == self.num_samples,
    {
        self.num_samples
    }

    /// What keeps the label from belonging to an audio buffer, if anything:
    /// another sample rate, or else another number of samples.
    pub open spec fn mismatch(&self, audio: Audio) -> Option<LabelMismatch> {
        if audio.sample_rate != self.sample_rate {
            Some(LabelMismatch::SampleRate)
        } else if audio.samples@.len() != self.num_samples {
            Some(LabelMismatch::NumSamples)
        } else {
            None
        }
    }

    /// Checks that the label records the sample rate and the number of
    /// samples that the audio has.
    pub fn check(&self, audio: &Audio) -> (r: Result<(), LabelMismatch>)
        ensures
            match r {
                Ok(_) => self.mismatch(*audio) is None,
                Err(e) => self.mismatch(*audio) == Some(e),
            },
    {
        if audio.sample_rate != self.sample_rate {
            Err(LabelMismatch::SampleRate)
        } else if audio.num_samples() as u64 != self.num_samples {
            Err(LabelMismatch::NumSamples)
        } else {
            Ok(())
        }
    }
}

} // verus!
