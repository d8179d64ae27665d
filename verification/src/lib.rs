use vstd::prelude::*;

pub mod admin;
pub mod assessment;
pub mod attempt;
pub mod auth;
pub mod code;
pub mod config;
pub mod error;
pub mod exam;
pub mod grading;
pub mod groups;
pub mod net;
pub mod qcm;
pub mod results;
pub mod school_year;
pub mod subjects;
pub mod text;
pub mod throttle;

verus! {
} // verus!
