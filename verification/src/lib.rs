//! Substring search over a Burrows-Wheeler transformed corpus stored as a
//! run-length-encoded byte stream (the RLB), following the FM-index scheme:
//! a `C` table plus checkpointed rank (`occ`) queries answer backward search,
//! and LF-mapping walks reconstruct matched records.

use vstd::prelude::*;

pub mod index;
pub mod model;
pub mod search;

use crate::index::{cp_pos, gen_c_table, wf_index};
use crate::model::{c_val, wf_rlb};
use crate::search::Cache;

verus! {

/// Width in bytes of the little-endian integers in the index file.
pub const I32_SIZE: usize = 4;

/// Number of distinct bytes the stream may carry.
pub const ALPHABETS: usize = 98;

/// Size in bytes of one per-checkpoint occurrence table in the index file.
pub const OOC_TABLE_SIZE: usize = ALPHABETS * I32_SIZE;

/// Bytes of RLB covered by one checkpoint; equal to one index entry,
/// so the index file is as large as the RLB it covers.
pub const CHUNK_SIZE: usize = OOC_TABLE_SIZE + I32_SIZE;

/// Upper bound on cached run records.
pub const MAX_CACHE: usize = 250000;

/// Per-query state: the RLB bytes, the optional side-car index bytes, the
/// `C` table, the checkpoint positions, the record metadata found by
/// calibration, and the positional cache.
pub struct Context {
    pub rlb: Vec<u8>,
    pub index: Option<Vec<u8>>,
    pub cps: usize,
    pub c_table: Vec<i32>,
    pub positions: Vec<i32>,
    pub min_id: i32,
    pub recs: i32,
    pub cache: Cache,
}

impl Context {
    /// Well-formedness: the stream is valid, the checkpoint positions and
    /// index bytes are the ones the stream determines, the `C` table holds
    /// the per-symbol prefix sums, and every cache entry is a true run.
    pub open spec fn wf(&self) -> bool {
        &&& wf_rlb(self.rlb@)
        &&& self.cps == self.rlb@.len() as int / 396
        &&& self.positions@.len() == self.cps + 1
        &&& forall|i: int|
            0 <= i <= self.cps ==> #[trigger] self.positions@[i] as int == cp_pos(self.rlb@, i)
        &&& match self.index {
            Some(idx) => self.cps > 0 && wf_index(self.rlb@, idx@),
            None => self.cps == 0,
        }
        &&& self.c_table@.len() == 99
        &&& forall|a: int|
            0 <= a <= 98 ==> #[trigger] self.c_table@[a] as int == c_val(self.rlb@, a)
        &&& self.cache.wf(self.rlb@)
    }

    /// Assemble the query state; the `C` table is derived on the spot.
    pub fn new(rlb: Vec<u8>, index: Option<Vec<u8>>, cps: usize, positions: Vec<i32>) -> (r:
        Context)
        requires
            wf_rlb(rlb@),
            cps == rlb@.len() as int / 396,
            positions@.len() == cps + 1,
            forall|i: int| 0 <= i <= cps ==> #[trigger] positions@[i] as int == cp_pos(rlb@, i),
            match index {
                Some(idx) => cps > 0 && wf_index(rlb@, idx@),
                None => cps == 0,
            },
        ensures
            r.wf(),
            r.rlb@ == rlb@,
            r.cps == cps,
            r.min_id == 0,
            r.recs == 0,
            r.cache.entries@.len() == 0,
    {
        let c_table = match &index {
            Some(idx) => gen_c_table(&rlb, Some(idx), cps),
            None => gen_c_table(&rlb, None, cps),
        };
        Context {
            rlb,
            index,
            cps,
            c_table,
            positions,
            recs: 0,
            min_id: 0,
            cache: Cache::new(),
        }
    }

    /// How many runs the positional cache currently holds.
    pub fn summary(&self) -> (r: usize)
        ensures
            r == self.cache.entries@.len(),
    {
        self.cache.entries.len()
    }
}

} // verus!
