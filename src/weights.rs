//! Execution weights of the session-key calls.

use vstd::prelude::*;

verus! {

/// Sum of two counters, stopping at the largest value.
pub open spec fn sat_add(a: u64, b: u64) -> u64 {
    if a + b > u64::MAX {
        u64::MAX
    } else {
        (a + b) as u64
    }
}

/// Product of two counters, stopping at the largest value.
pub open spec fn sat_mul(a: u64, b: u64) -> u64 {
    if a * b > u64::MAX {
        u64::MAX
    } else {
        (a * b) as u64
    }
}

/// Execution cost in two dimensions: computation time in picoseconds and
/// the size of the storage proof in bytes.
#[derive(Clone, Copy, Debug, PartialEq, Eq)]
pub struct Weight {
    pub ref_time: u64,
    pub proof_size: u64,
}

impl Weight {
    pub fn from_parts(ref_time: u64, proof_size: u64) -> (r: Weight)
        ensures
            r.ref_time == ref_time,
            r.proof_size == proof_size,
    {
        Weight { ref_time, proof_size }
    }

    /// Component-wise saturating sum.
    pub fn saturating_add(self, rhs: Weight) -> (r: Weight)
        ensures
            r.ref_time == sat_add(self.ref_time, rhs.ref_time),
            r.proof_size == sat_add(self.proof_size, rhs.proof_size),
    {
        Weight {
            ref_time: self.ref_time.saturating_add(rhs.ref_time),
            proof_size: self.proof_size.saturating_add(rhs.proof_size),
        }
    }
}

fn saturating_mul(a: u64, b: u64) -> (r: u64)
    ensures
        r == sat_mul(a, b),
{
    match a.checked_mul(b) {
        Some(x) => x,
        None => u64::MAX,
    }
}

/// The cost of one storage read and of one storage write.
#[derive(Clone, Copy, Debug, PartialEq, Eq)]
pub struct RuntimeDbWeight {
    pub read: u64,
    pub write: u64,
}

impl RuntimeDbWeight {
    /// Cost of `r` reads; reads add no proof size of their own.
    pub fn reads(self, r: u64) -> (w: Weight)
        ensures
            w.ref_time == sat_mul(self.read, r),
            w.proof_size == 0,
    {
        Weight::from_parts(saturating_mul(self.read, r), 0)
    }

    /// Cost of `n` writes.
    pub fn writes(self, n: u64) -> (w: Weight)
        ensures
            w.ref_time == sat_mul(self.write, n),
            w.proof_size == 0,
    {
        Weight::from_parts(saturating_mul(self.write, n), 0)
    }
}

/// Measured costs of the session-key calls.
pub struct WeightInfo;

/// Base cost of a call, its proof size, and how many reads and writes it
/// makes, summed with saturation.
pub open spec fn call_weight(db: RuntimeDbWeight, base: u64, proof: u64, reads: u64, writes: u64) -> Weight {
    Weight {
        ref_time: sat_add(sat_add(sat_add(base, 0), sat_mul(db.read, reads)), sat_mul(db.write, writes)),
        proof_size: sat_add(sat_add(sat_add(0, proof), 0), 0),
    }
}

impl WeightInfo {
    /// Setting session keys: two reads and two writes.
    pub fn set_keys(db: RuntimeDbWeight) -> (w: Weight)
        ensures
            w == call_weight(db, 24_827_000, 3800, 2, 2),
    {
        Weight::from_parts(24_827_000, 0)
            .saturating_add(Weight::from_parts(0, 3800))
            .saturating_add(db.reads(2))
            .saturating_add(db.writes(2))
    }

    /// Purging session keys: one read and two writes.
    pub fn purge_keys(db: RuntimeDbWeight) -> (w: Weight)
        ensures
            w == call_weight(db, 17_663_000, 3782, 1, 2),
    {
        Weight::from_parts(17_663_000, 0)
            .saturating_add(Weight::from_parts(0, 3782))
            .saturating_add(db.reads(1))
            .saturating_add(db.writes(2))
    }
}

} // verus!
