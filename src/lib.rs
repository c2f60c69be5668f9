//! Language identification by compression distance.
//!
//! A sample is compressed together with each reference document of a
//! [`store::Detector`]; languages whose references share the most redundancy
//! with the sample are ranked first ([`engine::rank`]), and a stream of
//! samples can be filtered down to one language ([`engine::accept`]).
//!
//! Confidences are exact: integers in millionths, truncated toward zero.
//! The module [`matcha`] matches text against segment patterns, and
//! [`keyval`] holds values behind a validity check.
use vstd::prelude::*;

pub mod arith;
pub mod compressor;
pub mod engine;
pub mod error;
pub mod keyval;
pub mod matcha;
pub mod order;
pub mod score;
pub mod store;

verus! {

} // verus!
