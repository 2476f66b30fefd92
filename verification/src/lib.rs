//! Verified request logic of a Christmas code-hunt web service.
//!
//! Each module holds the computations behind one group of endpoints; the
//! HTTP plumbing lives outside this library.

pub mod error;
pub mod text;
pub mod numbers;
pub mod patterns;
pub mod day15;
pub mod day1;
pub mod day19;
pub mod day7;
pub mod day12;
pub mod day20;
pub mod day6;
pub mod day4;
pub mod day11;
pub mod day14;
pub mod day21;
pub mod day18;
