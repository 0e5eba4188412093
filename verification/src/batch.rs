//! The core's model of a columnar batch, and the row-gather compactor.
//!
//! A batch carries its shape tag and one `u64` hash key per row: the only
//! values this core reads. Column payloads live with the upstream columnar
//! runtime and travel alongside, outside this core. Resident memory is
//! accounted at a fixed `ROW_MEM_BYTES` per row.

use vstd::prelude::*;

verus! {

/// Bytes of resident array memory accounted per buffered row.
pub const ROW_MEM_BYTES: usize = 8;

/// A columnar batch, reduced to what the shuffle reads: a shape tag and
/// one hash key per row.
pub struct Batch {
    pub schema: u32,
    pub rows: Vec<u64>,
}

impl View for Batch {
    type V = Seq<u64>;

    open spec fn view(&self) -> Seq<u64> {
        self.rows@
    }
}

impl Batch {
    pub fn new(schema: u32, rows: Vec<u64>) -> (r: Batch)
        ensures
            r.schema == schema,
            r@ == rows@,
    {
        Batch { schema, rows }
    }

    pub fn num_rows(&self) -> (r: usize)
        ensures
            r == self@.len(),
    {
        self.rows.len()
    }

    /// Resident array memory of this batch, in bytes.
    pub open spec fn mem_size_spec(&self) -> int {
        ROW_MEM_BYTES * self@.len()
    }

    pub fn get_array_mem_size(&self) -> (r: usize)
        requires
            self.mem_size_spec() <= usize::MAX,
        ensures
            r == self.mem_size_spec(),
    {
        ROW_MEM_BYTES * self.rows.len()
    }
}

/// The row sequences of a sequence of batches.
pub open spec fn batch_views(batches: Seq<Batch>) -> Seq<Seq<u64>> {
    batches.map_values(|b: Batch| b@)
}

/// Every buffered row of `batches`, batch by batch, row by row.
pub open spec fn all_rows(batches: Seq<Batch>) -> Seq<u64> {
    batch_views(batches).flatten()
}

/// The rows selected by `indices` out of `batches`, in selection order.
pub open spec fn gathered(batches: Seq<Batch>, indices: Seq<(usize, usize)>) -> Seq<u64> {
    indices.map_values(|pr: (usize, usize)| batches[pr.0 as int]@[pr.1 as int])
}

/// Every index pair points at a row of `batches`.
pub open spec fn indices_in_bounds(batches: Seq<Batch>, indices: Seq<(usize, usize)>) -> bool {
    forall|k: int|
        0 <= k < indices.len() ==> indices[k].0 < batches.len() && indices[k].1 < batches[
            indices[k].0 as int
        ]@.len()
}

/// The batch compactor: gathers the selected `(batch, row)` pairs into one
/// new contiguous batch of the given shape, losing no row.
pub fn interleave_batches(schema: u32, batches: &Vec<Batch>, indices: &Vec<(usize, usize)>) -> (r:
    Batch)
    requires
        indices_in_bounds(batches@, indices@),
    ensures
        r.schema == schema,
        r@ == gathered(batches@, indices@),
        r@.len() == indices@.len(),
{
    let mut rows: Vec<u64> = Vec::new();
    let mut k: usize = 0;
    while k < indices.len()
        invariant
            k <= indices.len(),
            indices_in_bounds(batches@, indices@),
            rows@ == gathered(batches@, indices@.take(k as int)),
        decreases indices.len() - k,
    {
        let (bi, ri) = indices[k];
        rows.push(batches[bi].rows[ri]);
        k = k + 1;
        proof {
            assert(indices@.take(k as int) =~= indices@.take(k - 1).push(indices@[k - 1]));
            assert(gathered(batches@, indices@.take(k as int)) =~= gathered(
                batches@,
                indices@.take(k - 1),
            ).push(batches@[indices@[k - 1].0 as int]@[indices@[k - 1].1 as int]));
        }
    }
    proof {
        assert(indices@.take(indices@.len() as int) =~= indices@);
    }
    Batch { schema, rows }
}

} // verus!
