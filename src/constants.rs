use vstd::prelude::*;

verus! {

/// Number of fan-out rounds a dispatch runs before it drops what is still pending.
pub const MAX_ROUNDS: usize = 5;

/// Share of the stake that a winning lay bet keeps after the exchange's
/// commission, in thousandths (0.975).
pub const BETFAIR_PERMILLE: i64 = 975;

/// Smallest field size that is settled.
pub const MIN_FIELD: usize = 5;

/// Largest field size that is settled.
pub const MAX_FIELD: usize = 6;

/// Upper bound on how many requests a single test run may build.
pub const MAX_REQUEST_DEFENCE: usize = 500;

} // verus!

verus! {

/// Most answers one settlement run takes: every counter of the run then stays
/// within `i32`.
pub const MAX_SETTLED_ANSWERS: usize = 1_000_000_000;

} // verus!
