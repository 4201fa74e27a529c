//! A Miri-style undefined-behaviour detector for GPU kernels written in Rust.
//!
//! Every GPU thread becomes a simulated thread, a seeded scheduler interleaves
//! them one instrumented operation at a time, and every access is checked
//! against a happens-before model:
//!
//! ```text
//! kernel -> simulated threads -> seeded scheduler -> shadow memory -> findings
//! ```
//!
//! This crate is everything in that picture that decides something. It never
//! blocks and starts no threads: an operation of a simulated thread is a call
//! that says whether the thread may go on, has to wait for the turn, or has to
//! unwind. Whoever drives it parks and wakes.
//!
//! - [`launch`] and [`state`] start a launch and take it through its waves;
//!   [`launch_laws`] is what holds of a launch from its start to its report.
//! - [`sched`] hands out the turn; [`machine`] is what it does as mathematics,
//!   and [`machine_laws`] and [`schedule_laws`] what follows from that.
//! - [`shadow`], [`sync`] and [`mem`] are the happens-before model and the
//!   memory checked against it; [`memory_laws`] and [`access_laws`] are what
//!   follows for one operation and for two, and [`race_laws`],
//!   [`launch_races`] and [`launch_order`] are why no race of a launch goes
//!   unreported.
//! - [`diag`] is what is found and how it is worded; [`finding_laws`] is which
//!   findings are the same and which are kept.
//! - [`warp`] is the collectives, with convergence checking.
//! - [`explore`] searches across schedules and shrinks a failing one.
//! - [`oxide`] is the surface a cuda-oxide kernel is written against.
//! - [`mir`] interprets scalar MIR bodies.

pub mod access_laws;
pub mod ctx;
pub mod diag;
pub mod dim;
pub mod explore;
pub mod finding_laws;
pub mod geometry;
pub mod lanes;
pub mod launch;
pub mod launch_laws;
pub mod launch_order;
pub mod launch_races;
pub mod location;
pub mod machine;
pub mod machine_laws;
pub mod mem;
pub mod memory_laws;
pub mod mir;
pub mod oxide;
pub mod race_laws;
pub mod sched;
pub mod schedule_laws;
pub mod search;
pub mod shadow;
pub mod shared;
pub mod state;
pub mod sync;
pub mod text;
pub mod warp;

pub use crate::ctx::ThreadCtx;
pub use crate::diag::{Access, AccessKind, Diagnostic, LaneProblem, MemSpace, Report};
pub use crate::dim::Dim3;
pub use crate::explore::{replay, Exploration, Explore, Failure, Schedule, Shrink};
pub use crate::launch::{LaunchConfig, MAX_THREADS};
pub use crate::location::Location;
pub use crate::mem::{GlobalBuf, SharedArray};
pub use crate::sync::AtomicOrdering;
