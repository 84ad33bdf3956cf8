//! A hierarchical timing wheel over a slab of timer records.
//!
//! Timers are stored in a [`slab::Slab`] and addressed by small integer
//! [`slab::Handle`]s. The [`wheel::TimingWheel`] links them into 4 levels of
//! 64 buckets and reports, tick by tick, the ones whose deadline has come.
use vstd::prelude::*;

pub mod slab;
pub mod wheel;

pub use slab::{Handle, Slab, TimerEntry};
pub use wheel::TimingWheel;
