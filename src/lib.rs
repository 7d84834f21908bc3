//! Benchmarking core for ranking points by distance: three merge-sort
//! variants that differ in how they allocate, a sweep controller that grows
//! the input size and rotates the variant, and a profiler that averages the
//! timings and renders them as CSV text.

mod clock;
pub mod experiment;
pub mod profiler;
pub mod ranking;
