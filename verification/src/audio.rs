//! Rendered audio: a buffer of samples with its sample rate, and the checks
//! that admit one.

use crate::arithmetic::difference;
use crate::arithmetic::divided_signed;
use crate::arithmetic::floor;
use crate::arithmetic::floored;
use crate::arithmetic::from_integer;
use crate::arithmetic::integer;
use crate::arithmetic::minus;
use crate::arithmetic::product;
use crate::arithmetic::signed_quotient;
use crate::arithmetic::times;
use crate::arithmetic::truncate;
use crate::arithmetic::truncated;
use crate::ieee::abs;
use crate::ieee::is_less;
use crate::ieee::less;
use crate::ieee::magnitude;
use crate::ieee::ONE;
use vstd::prelude::*;

verus! {

/// A buffer of samples, each a single-precision bit pattern, and the number
/// of samples per second.
#[derive(Clone, Debug)]
pub struct Audio {
    pub samples: Vec<u32>,
    pub sample_rate: u32,
}

/// Why rendering gave no audio.
#[derive(Clone, Copy, Debug, PartialEq, Eq, Structural)]
pub enum AudioGenerationError {
    /// The sample at this index is the first beyond full scale.
    Clipping(u64),
}

/// How the samples of a WAV file are encoded.
#[derive(Clone, Copy, Debug, PartialEq, Eq, Structural)]
pub enum WavSampleFormat {
    Float,
    Int,
}

/// What about a WAV file keeps it from being read: only mono files of 32-bit
/// floating-point samples are.
#[derive(Clone, Copy, Debug, PartialEq, Eq, Structural)]
pub enum UnsupportedWavSpec {
    Channels(u16),
    BitDepth(u16),
    SampleFormat(WavSampleFormat),
}

/// Whether a sample is beyond full scale: its absolute value is above 1. A
/// NaN is not.
pub open spec fn clips(sample: u32) -> bool {
    less(ONE, magnitude(sample) as u32)
}

/// Whether the sample at `index` clips and none before it does.
pub open spec fn is_first_clipping(samples: Seq<u32>, index: int) -> bool {
    &&& 0 <= index < samples.len()
    &&& clips(samples[index])
    &&& forall|i: int| 0 <= i < index ==> !clips(#[trigger] samples[i])
}

/// Whether no sample clips.
pub open spec fn never_clips(samples: Seq<u32>) -> bool {
    forall|i: int| 0 <= i < samples.len() ==> !clips(#[trigger] samples[i])
}

/// What a WAV header with these values is refused for, if it is: the first
/// of channel count, bit depth and sample format that is not as needed.
pub open spec fn wav_fault(
    channels: u16,
    bits_per_sample: u16,
    sample_format: WavSampleFormat,
) -> Option<UnsupportedWavSpec> {
    if channels != 1 {
        Some(UnsupportedWavSpec::Channels(channels))
    } else if bits_per_sample != 32 {
        Some(UnsupportedWavSpec::BitDepth(bits_per_sample))
    } else if sample_format != WavSampleFormat::Float {
        Some(UnsupportedWavSpec::SampleFormat(sample_format))
    } else {
        None
    }
}

/// The number of samples in `duration` seconds of audio at `sample_rate`:
/// the whole seconds times the sample rate, and the samples of the rest of
/// a second, cut to a whole number. There is none for a negative duration,
/// nor where the number does not fit into 64 bits; a NaN holds no sample.
pub open spec fn samples_in(sample_rate: u32, duration: u32) -> Option<u64> {
    if crate::ieee::magnitude(duration) == 0 || crate::ieee::is_nan(duration) {
        Some(0u64)
    } else if duration >= 0x8000_0000 {
        None
    } else {
        let rest = if duration == 0x7f80_0000 {
            0u64
        } else {
            truncated(
                product(difference(duration, floored(duration)), integer(sample_rate as u64)),
            )
        };
        if rest + truncated(duration) * sample_rate > u64::MAX {
            None
        } else {
            Some((rest + truncated(duration) * sample_rate) as u64)
        }
    }
}

/// The samples that the real parts of an inverse transform stand for: each
/// real part divided by the number of bins.
pub open spec fn samples_of_spectrum(transformed: Seq<(u32, u32)>) -> Seq<u32> {
    Seq::new(
        transformed.len(),
        |i: int| signed_quotient(transformed[i].0, integer(transformed.len() as u64)),
    )
}

/// Whether every real part is a finite number.
pub open spec fn all_real_parts_finite(transformed: Seq<(u32, u32)>) -> bool {
    forall|i: int|
        0 <= i < transformed.len() ==> crate::ieee::magnitude((#[trigger] transformed[i]).0)
            < 0x7f80_0000
}

/// Whether a sample is beyond full scale.
pub fn is_clipping(sample: u32) -> (r: bool)
    ensures
        r == clips(sample),
{
    is_less(ONE, abs(sample))
}

/// The index of the first sample that clips, if one does.
pub fn first_clipping(samples: &Vec<u32>) -> (r: Option<u64>)
    ensures
        match r {
            Some(index) => is_first_clipping(samples@, index as int),
            None => never_clips(samples@),
        },
{
    let mut i: usize = 0;
    while i < samples.len()
        invariant
            i <= samples.len(),
            forall|j: int| 0 <= j < i ==> !clips(#[trigger] samples[j]),
        decreases samples.len() - i,
    {
        if is_clipping(samples[i]) {
            return Some(i as u64);
        }
        i = i + 1;
    }
    None
}

impl Audio {
    pub fn from_samples(samples: Vec<u32>, sample_rate: u32) -> (r: Self)
        ensures
            r.samples@ == samples@,
            r.sample_rate == sample_rate,
    {
        Audio { samples, sample_rate }
    }

    /// Admits the samples that a module rendered, or reports the first that
    /// clips.
    pub fn samples_from_module(rendered: Vec<u32>, sample_rate: u32) -> (r: Result<
        Self,
        AudioGenerationError,
    >)
        requires
            sample_rate != 0,
        ensures
            match r {
                Ok(audio) => {
                    &&& never_clips(rendered@)
                    &&& audio.samples@ == rendered@
                    &&& audio.sample_rate == sample_rate
                },
                Err(AudioGenerationError::Clipping(index)) => is_first_clipping(
                    rendered@,
                    index as int,
                ),
            },
    {
        match first_clipping(&rendered) {
            Some(index) => Err(AudioGenerationError::Clipping(index)),
            None => Ok(Audio { samples: rendered, sample_rate }),
        }
    }

    /// The number of samples that a module is to render for `duration`
    /// seconds of audio at `sample_rate`.
    pub fn from_module(sample_rate: u32, duration: u32) -> (r: Option<u64>)
        ensures
            r == samples_in(sample_rate, duration),
    {
        if duration % 0x8000_0000 == 0 || duration % 0x8000_0000 > 0x7f80_0000 {
            return Some(0);
        }
        if duration >= 0x8000_0000 {
            return None;
        }
        let rest: u64 = if duration == 0x7f80_0000 {
            0
        } else {
            let whole = floor(duration);
            truncate(times(minus(duration, whole), from_integer(sample_rate as u64)))
        };
        let whole = truncate(duration);
        assert(whole * sample_rate <= 0xffff_ffff_ffff_ffff * 0xffff_ffff) by (nonlinear_arith)
            requires
                0 <= whole <= 0xffff_ffff_ffff_ffff,
                0 <= sample_rate <= 0xffff_ffff,
        ;
        let total: u128 = rest as u128 + whole as u128 * sample_rate as u128;
        if total > u64::MAX as u128 {
            None
        } else {
            Some(total as u64)
        }
    }

    /// The audio that an inverse transform stands for: the real part of
    /// each of its values, divided by their number. There is none where a
    /// real part is infinite or a NaN.
    pub fn from_spectrum(transformed: &Vec<(u32, u32)>, sample_rate: u32) -> (r: Option<Self>)
        ensures
            match r {
                Some(audio) => {
                    &&& all_real_parts_finite(transformed@)
                    &&& audio.samples@ == samples_of_spectrum(transformed@)
                    &&& audio.sample_rate == sample_rate
                },
                None => !all_real_parts_finite(transformed@),
            },
    {
        let mut samples: Vec<u32> = Vec::new();
        if transformed.len() == 0 {
            assert(samples@ =~= samples_of_spectrum(transformed@));
            return Some(Audio { samples, sample_rate });
        }
        let count = from_integer(transformed.len() as u64);
        proof {
            crate::arithmetic::lemma_integer_positive(transformed.len() as u64);
        }
        let mut i: usize = 0;
        while i < transformed.len()
            invariant
                i <= transformed.len(),
                samples.len() == i,
                0 < count < 0x7f80_0000,
                count == integer(transformed.len() as u64),
                forall|j: int|
                    0 <= j < i ==> crate::ieee::magnitude((#[trigger] transformed[j]).0)
                        < 0x7f80_0000,
                forall|j: int|
                    0 <= j < i ==> #[trigger] samples[j] == signed_quotient(transformed[j].0, count),
            decreases transformed.len() - i,
        {
            let part = transformed[i].0;
            if part % 0x8000_0000 >= 0x7f80_0000 {
                assert(!(crate::ieee::magnitude((transformed[i as int]).0) < 0x7f80_0000));
                return None;
            }
            samples.push(divided_signed(part, count));
            i = i + 1;
        }
        assert(samples@ =~= samples_of_spectrum(transformed@));
        Some(Audio { samples, sample_rate })
    }

    pub fn num_samples(&self) -> (r: usize)
        ensures
            r == self.samples@.len(),
    {
        self.samples.len()
    }

    /// The audio of a WAV file, from the values of its header and its
    /// samples; or what about the header is not supported.
    pub fn from_wav(
        channels: u16,
        bits_per_sample: u16,
        sample_format: WavSampleFormat,
        sample_rate: u32,
        samples: Vec<u32>,
    ) -> (r: Result<Self, UnsupportedWavSpec>)
        ensures
            match r {
                Ok(audio) => {
                    &&& wav_fault(channels, bits_per_sample, sample_format) is None
                    &&& audio.samples@ == samples@
                    &&& audio.sample_rate == sample_rate
                },
                Err(e) => wav_fault(channels, bits_per_sample, sample_format) == Some(e),
            },
    {
        if channels != 1 {
            Err(UnsupportedWavSpec::Channels(channels))
        } else if bits_per_sample != 32 {
            Err(UnsupportedWavSpec::BitDepth(bits_per_sample))
        } else if sample_format != WavSampleFormat::Float {
            Err(UnsupportedWavSpec::SampleFormat(sample_format))
        } else {
            Ok(Audio { samples, sample_rate })
        }
    }
}

} // verus!
