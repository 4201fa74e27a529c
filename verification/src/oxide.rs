//! A `cuda_device`-shaped surface, so a kernel written for cuda-oxide can be
//! checked without being rewritten.
//!
//! In cuda-oxide's Tier 1 the inputs are slices nothing writes during a
//! launch, and the single write path hands each thread a distinct index.
//! Races are therefore ruled out by construction. The value is in Tier 2,
//! where the guarantee is a claim rather than a proof: an unchecked access
//! asserts that the caller's index is unique to it, and nothing verifies that
//! on hardware. Here the access is instrumented like any other, so two threads
//! claiming the same element is an ordinary data race with both source lines
//! named.

pub mod slice;
pub mod thread;
pub mod warp;

pub use crate::sync::AtomicOrdering;
