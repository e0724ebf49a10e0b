//! Resumable, single-step sorting engines.
//!
//! Each algorithm (bubble sort, quick sort) is reshaped into a state machine
//! that performs one primitive operation — one comparison, one swap, one pivot
//! placement — per call to `step`, so a host can advance it at a controlled
//! cadence and render its progress.  The working array is a permutation of the
//! initial input at every point in time, and once a run completes the array is
//! sorted and further steps are no-ops.

pub mod algorithms;
pub mod host;
