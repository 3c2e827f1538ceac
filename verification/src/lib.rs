//! Core state engine for a personal time tracker: a three-level work-item
//! tree (project / sub-project / subject) with a parallel todo tree, a
//! session state machine that accrues wall-clock time against the selected
//! subject, an append-only history ledger with day-bucketed reporting, and
//! the bookkeeping that decides when the state must be persisted.
//!
//! All wall-clock instants are plain `u64` values: seconds of local wall
//! time, with calendar days starting at multiples of [`time::SECS_PER_DAY`].
//! The caller reads the clock and passes the instant in, so every rule in
//! here is checked for every possible clock value.

use vstd::prelude::*;

pub mod backend;
pub mod container;
pub mod history;
pub mod ids;
pub mod sort;
pub mod time;

verus! {

/// Saturating addition on `u64`: the accrual operations never panic, they
/// stick at the maximum on (astronomically remote) overflow.
pub open spec fn sat_add_spec(a: u64, b: u64) -> u64 {
    if a + b <= u64::MAX {
        (a + b) as u64
    } else {
        u64::MAX
    }
}

/// Exec counterpart of [`sat_add_spec`].
pub fn sat_add(a: u64, b: u64) -> (r: u64)
    ensures
        r == sat_add_spec(a, b),
{
    if a <= u64::MAX - b {
        a + b
    } else {
        u64::MAX
    }
}

} // verus!
