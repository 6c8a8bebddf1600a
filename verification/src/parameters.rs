//! The parameter space of a dataset and the parameters of one datapoint.

pub mod data;
pub mod effects;
pub mod oscillators;
