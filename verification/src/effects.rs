//! Effects on the spectrum of a buffer.

use crate::arithmetic::divided;
use crate::arithmetic::from_integer;
use crate::arithmetic::integer;
use crate::arithmetic::lemma_integer_positive;
use crate::arithmetic::product;
use crate::arithmetic::quotient;
use crate::arithmetic::times;
use crate::arithmetic::truncate;
use crate::arithmetic::truncated;
use crate::ieee::INFINITY;
use crate::ieee::ZERO;
use vstd::prelude::*;

verus! {

/// The spectrum without what lies at or above the cutoff: every bin from
/// `cutoff_index` on is set to zero, every bin before it is kept. A bin is a
/// complex number, its real and imaginary part as single-precision bit
/// patterns.
pub open spec fn low_passed(spectrum: Seq<(u32, u32)>, cutoff_index: int) -> Seq<(u32, u32)> {
    Seq::new(
        spectrum.len(),
        |i: int|
            if i < cutoff_index {
                spectrum[i]
            } else {
                (ZERO, ZERO)
            },
    )
}

/// The share of the sample rate at which the cutoff lies: the cutoff
/// frequency divided by the sample rate. A positive frequency over a sample
/// rate of zero is infinitely far up; zero over zero is nowhere, which the
/// result `None` says.
pub open spec fn cutoff_share(cutoff_freq: u32, sample_rate: u32) -> Option<u32> {
    if sample_rate == 0 {
        if cutoff_freq == 0 {
            None
        } else {
            Some(0x7f80_0000u32)
        }
    } else if cutoff_freq == 0x7f80_0000 {
        Some(0x7f80_0000u32)
    } else {
        Some(quotient(cutoff_freq, integer(sample_rate as u64)))
    }
}

/// The first bin that a low-pass removes from a spectrum of `bins` bins:
/// the cutoff frequency divided by the sample rate, times the number of
/// bins, cut to a whole number. A cutoff that is negative or a NaN removes
/// every bin. The number is as large as a `u64` can be where the cutoff lies
/// beyond.
pub open spec fn cutoff_bin(cutoff_freq: u32, sample_rate: u32, bins: u64) -> u64 {
    if cutoff_freq >= 0x8000_0000 || cutoff_freq > 0x7f80_0000 {
        0
    } else {
        match cutoff_share(cutoff_freq, sample_rate) {
            None => 0,
            Some(share) => if share == 0x7f80_0000 {
                if bins == 0 {
                    0
                } else {
                    u64::MAX
                }
            } else {
                truncated(product(share, integer(bins)))
            },
        }
    }
}

/// The first bin that a low-pass at `cutoff_freq` removes from a spectrum
/// of `bins` bins of audio at `sample_rate`.
pub fn cutoff_index(cutoff_freq: u32, sample_rate: u32, bins: usize) -> (r: usize)
    ensures
        r == if cutoff_bin(cutoff_freq, sample_rate, bins as u64) > usize::MAX {
            usize::MAX as int
        } else {
            cutoff_bin(cutoff_freq, sample_rate, bins as u64) as int
        },
{
    if cutoff_freq >= 0x8000_0000 || cutoff_freq > INFINITY {
        return 0;
    }
    let share = if sample_rate == 0 {
        if cutoff_freq == 0 {
            return 0;
        }
        INFINITY
    } else if cutoff_freq == INFINITY {
        INFINITY
    } else {
        let rate = from_integer(sample_rate as u64);
        proof {
            lemma_integer_positive(sample_rate as u64);
        }
        divided(cutoff_freq, rate)
    };
    let bin: u64 = if share == INFINITY {
        if bins == 0 {
            0
        } else {
            u64::MAX
        }
    } else {
        truncate(times(share, from_integer(bins as u64)))
    };
    if bin > usize::MAX as u64 {
        usize::MAX
    } else {
        bin as usize
    }
}

/// Removes from a spectrum what lies at or above the bin `cutoff_index`.
pub fn low_pass_from(spectrum: Vec<(u32, u32)>, cutoff_index: usize) -> (r: Vec<(u32, u32)>)
    ensures
        r@ == low_passed(spectrum@, cutoff_index as int),
{
    let mut filtered = spectrum;
    let mut i: usize = cutoff_index;
    while i < filtered.len()
        invariant
            filtered.len() == spectrum.len(),
            cutoff_index <= i,
            forall|j: int| 0 <= j < filtered.len() && j < cutoff_index ==> filtered[j] == spectrum[j],
            forall|j: int|
                cutoff_index <= j < i && j < filtered.len() ==> filtered[j] == (ZERO, ZERO),
            forall|j: int| i <= j < filtered.len() ==> filtered[j] == spectrum[j],
        decreases filtered.len() - i,
    {
        filtered.set(i, (ZERO, ZERO));
        i = i + 1;
    }
    assert(filtered@ =~= low_passed(spectrum@, cutoff_index as int));
    filtered
}

/// Removes from the spectrum of audio at `sample_rate` what lies at or
/// above `cutoff_freq`.
pub fn low_pass(spectrum: Vec<(u32, u32)>, sample_rate: u32, cutoff_freq: u32) -> (r: Vec<
    (u32, u32),
>)
    ensures
        r@ == low_passed(
            spectrum@,
            cutoff_bin(cutoff_freq, sample_rate, spectrum.len() as u64) as int,
        ),
{
    let index = cutoff_index(cutoff_freq, sample_rate, spectrum.len());
    let filtered = low_pass_from(spectrum, index);
    assert(filtered@ =~= low_passed(
        spectrum@,
        cutoff_bin(cutoff_freq, sample_rate, spectrum.len() as u64) as int,
    ));
    filtered
}

} // verus!
