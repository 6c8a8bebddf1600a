//! A range of positive numbers that a coordinate in [-1, 1] is mapped onto
//! along a logarithmic scale.

use crate::error::ParameterError;
use crate::ieee::at_most;
use crate::ieee::is_at_most;
use crate::ieee::is_less;
use crate::ieee::is_same;
use crate::ieee::less;
use crate::ieee::MILLIONTH;
use crate::ieee::same;
use crate::ieee::ZERO;
use vstd::prelude::*;

verus! {

/// The domain of a log-uniform distribution, both ends as single-precision
/// bit patterns.
#[derive(Clone, Copy, Debug)]
pub struct LogUniform {
    min: u32,
    max: u32,
}

/// The lower end that a range is given: a zero is raised to a millionth, so
/// that its logarithm exists.
pub open spec fn raised_minimum(min: u32) -> u32 {
    if same(min, ZERO) {
        MILLIONTH
    } else {
        min
    }
}

/// The upper end that a range is given: where the lower end was raised
/// above it, the upper end is raised with it.
pub open spec fn raised_maximum(min: u32, max: u32) -> u32 {
    if less(max, raised_minimum(min)) {
        raised_minimum(min)
    } else {
        max
    }
}

/// What building a distribution from `range` gives. The range is judged as
/// it is given: its lower end must not be negative, and its upper end not
/// below the lower one. Then a lower end of zero is raised.
pub open spec fn checked_range(range: (u32, u32)) -> Result<(u32, u32), ParameterError> {
    if !at_most(ZERO, range.0) {
        Err(ParameterError::NegativeMinimum)
    } else if !at_most(range.0, range.1) {
        Err(ParameterError::EmptyRange)
    } else {
        Ok((raised_minimum(range.0), raised_maximum(range.0, range.1)))
    }
}

impl LogUniform {
    pub closed spec fn spec_min(&self) -> u32 {
        self.min
    }

    pub closed spec fn spec_max(&self) -> u32 {
        self.max
    }

    /// The lower end is positive and the upper end is not below it.
    pub open spec fn wf(&self) -> bool {
        &&& less(ZERO, self.spec_min())
        &&& at_most(self.spec_min(), self.spec_max())
    }

    /// Builds the distribution over `range`, lower end first. A negative
    /// lower end is refused, and so is an upper end below the lower end. A
    /// lower end of zero is raised to a millionth, and an upper end below a
    /// millionth with it.
    pub fn from_tuple(range: (u32, u32)) -> (r: Result<Self, ParameterError>)
        ensures
            match (r, checked_range(range)) {
                (Ok(d), Ok(ends)) => d.spec_min() == ends.0 && d.spec_max() == ends.1 && d.wf(),
                (Err(e), Err(f)) => e == f,
                _ => false,
            },
    {
        if !is_at_most(ZERO, range.0) {
            return Err(ParameterError::NegativeMinimum);
        }
        if !is_at_most(range.0, range.1) {
            return Err(ParameterError::EmptyRange);
        }
        let min = if is_same(range.0, ZERO) {
            MILLIONTH
        } else {
            range.0
        };
        let max = if is_less(range.1, min) {
            min
        } else {
            range.1
        };
        Ok(LogUniform { min, max })
    }

    pub fn max(&self) -> (r: u32)
        ensures
            r == self.spec_max(),
    {
        self.max
    }

    pub fn min(&self) -> (r: u32)
        ensures
            r == self.spec_min(),
    {
        self.min
    }

    /// Whether the domain is a single number, onto which every coordinate is
    /// mapped and from which no coordinate can be recovered.
    pub fn is_degenerate(&self) -> (r: bool)
        ensures
            r == same(self.spec_min(), self.spec_max()),
    {
        is_same(self.min, self.max)
    }
}

} // verus!
