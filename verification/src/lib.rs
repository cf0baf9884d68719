use vstd::prelude::*;

pub mod algorithm;
pub mod classes;
pub mod formats_repo;
pub mod match_fund;
pub mod normalization;
pub mod page;
pub mod parallelism;
pub mod pipeline;
pub mod promisable;
pub mod promise;
pub mod promise_resolution;
pub mod schedule;
pub mod text;
pub mod tracing_setup;

verus! {
} // verus!
