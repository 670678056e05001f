use vstd::prelude::*;

verus! {

/// Micro-units in one whole unit (one USDC, one share).
pub const MICROS: u64 = 1_000_000;

/// Default order size increment: 0.01 share.
pub const DEFAULT_TICK: u64 = 10_000;

/// Basis points in one whole.
pub const BPS_ONE: u64 = 10_000;

} // verus!
