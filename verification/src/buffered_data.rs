//! The shuffle-write buffer: accumulates batches, partially sorts them
//! into runs under a memory budget, and writes the partition-grouped
//! output with per-partition offsets.

use vstd::prelude::*;

use crate::batch::{all_rows, batch_views, Batch, ROW_MEM_BYTES};
use crate::codec::{encode_rows, lemma_encode_len, write_batch};
use crate::merge::{merge_sorted_runs, rows_with_id, runs_wf};
use crate::partition::{is_part, part_rows, parts_prefix, Partitioning, ShuffleError};
use crate::partition::{lemma_parts_prefix_congruence, lemma_row_conservation};
use crate::seq_helpers::lemma_filter_none;
use crate::sort::sort_batches_by_partition_id;

verus! {

/// Bytes of memory accounted per row of a sorted run: the compacted row
/// itself plus its four-byte partition id.
pub const SORTED_ROW_MEM_BYTES: usize = 12;

/// Whether some payload in the list is addressed to partition `p`.
pub open spec fn contains_part(parts: Seq<(u32, Vec<u8>)>, p: u64) -> bool {
    exists|k: int| 0 <= k < parts.len() && (#[trigger] parts[k]).0 as u64 == p
}

/// The shuffle-write buffer for one shuffle write instance. Batches are
/// added until writing begins; writing consumes the buffer.
pub struct BufferedData {
    pub staging_batches: Vec<Batch>,
    pub sorted_batches: Vec<Batch>,
    pub sorted_partition_indices: Vec<Vec<u32>>,
    pub num_rows: usize,
    pub staging_mem_used: usize,
    pub sorted_mem_used: usize,
}

impl BufferedData {
    /// All staged rows, in arrival order.
    pub open spec fn staging_rows(self) -> Seq<u64> {
        all_rows(self.staging_batches@)
    }

    /// All rows already moved into sorted runs, run by run.
    pub open spec fn sorted_rows(self) -> Seq<u64> {
        all_rows(self.sorted_batches@)
    }

    /// Every buffered row: the sorted runs first, then the staging area.
    pub open spec fn buffered_rows(self) -> Seq<u64> {
        self.sorted_rows() + self.staging_rows()
    }

    /// The buffer's invariant: one id array per run coupled row by row,
    /// ids grouped within each run, and the three counters exact.
    pub open spec fn wf(self, partition_count: usize) -> bool {
        &&& runs_wf(
            self.sorted_batches@,
            self.sorted_partition_indices@.map_values(|v: Vec<u32>| v@),
            partition_count,
        )
        &&& self.num_rows == self.buffered_rows().len()
        &&& self.staging_mem_used == ROW_MEM_BYTES * self.staging_rows().len()
        &&& self.sorted_mem_used == SORTED_ROW_MEM_BYTES * self.sorted_rows().len()
        &&& SORTED_ROW_MEM_BYTES * self.num_rows <= usize::MAX
    }

    /// Every staged batch has the shape the partitioning scheme hashes.
    pub open spec fn staging_schemas_ok(self, partitioning: Partitioning) -> bool {
        forall|i: int|
            0 <= i < self.staging_batches@.len() ==> (#[trigger] self.staging_batches@[i]).schema
                == partitioning.schema
    }

    /// Resident memory of everything buffered, staged and sorted.
    pub fn mem_used(&self) -> (r: usize)
        requires
            self.staging_mem_used + self.sorted_mem_used <= usize::MAX,
        ensures
            r == self.staging_mem_used + self.sorted_mem_used,
    {
        self.staging_mem_used + self.sorted_mem_used
    }

    /// Takes every staged batch, sorts its rows by partition id into one
    /// compacted run, and appends the run. Fails, leaving the buffer
    /// unchanged, exactly when some staged batch's shape defeats the hash
    /// evaluator.
    #[verifier::spinoff_prover]
    fn flush_staging_batches(&mut self, partitioning: &Partitioning) -> (r: Result<
        (),
        ShuffleError,
    >)
        requires
            old(self).wf(partitioning.partition_count),
            partitioning.wf(),
            old(self).staging_batches@.len() >= 1,
        ensures
            final(self).wf(partitioning.partition_count),
            old(self).staging_schemas_ok(*partitioning) <==> r is Ok,
            r matches Err(e) ==> *final(self) == *old(self) && exists|i: int|
                0 <= i < old(self).staging_batches@.len()
                    && (#[trigger] old(self).staging_batches@[i]).schema != partitioning.schema
                    && e == (ShuffleError::HashEvaluation {
                    expected_schema: partitioning.schema,
                    batch_schema: old(self).staging_batches@[i].schema,
                }),
            r is Ok ==> {
                &&& final(self).staging_batches@.len() == 0
                &&& final(self).sorted_batches@.len() == old(self).sorted_batches@.len() + 1
                &&& final(self).num_rows == old(self).num_rows
                &&& final(self).staging_mem_used == 0
                &&& forall|p: u64|
                    p < partitioning.partition_count ==> part_rows(
                        final(self).buffered_rows(),
                        partitioning.partition_count,
                        p,
                    ) == part_rows(
                        old(self).buffered_rows(),
                        partitioning.partition_count,
                        p,
                    )
            },
    {
        let pc = partitioning.partition_count;
        let (partition_indices, sorted_batch) = match sort_batches_by_partition_id(
            &self.staging_batches,
            partitioning,
        ) {
            Ok(x) => x,
            Err(e) => {
                return Err(e);
            },
        };
        proof {
            assert(sorted_batch@.len() <= self.num_rows);
        }
        self.sorted_mem_used = self.sorted_mem_used + sorted_batch.get_array_mem_size() + 4
            * partition_indices.len();
        let ghost pre_runs = self.sorted_batches@;
        let ghost pre_ids = self.sorted_partition_indices@;
        let ghost staged = self.staging_batches@;
        self.sorted_batches.push(sorted_batch);
        self.sorted_partition_indices.push(partition_indices);
        self.staging_batches = Vec::new();
        self.staging_mem_used = 0;
        proof {
            let ids = self.sorted_partition_indices@.map_values(|v: Vec<u32>| v@);
            let pre_ids_v = pre_ids.map_values(|v: Vec<u32>| v@);
            assert(ids =~= pre_ids_v.push(partition_indices@));
            assert(runs_wf(self.sorted_batches@, ids, pc));
            assert(batch_views(self.sorted_batches@) =~= batch_views(pre_runs).push(
                sorted_batch@,
            ));
            batch_views(pre_runs).lemma_flatten_push(sorted_batch@);
            assert(self.sorted_rows() == all_rows(pre_runs) + sorted_batch@);
            assert(batch_views(self.staging_batches@) =~= Seq::<Seq<u64>>::empty());
            assert(self.staging_rows() =~= Seq::<u64>::empty());
            assert(self.buffered_rows() =~= self.sorted_rows());
            assert forall|p: u64| p < pc implies part_rows(self.buffered_rows(), pc, p)
                == part_rows(old(self).buffered_rows(), pc, p) by {
                Seq::<u64>::filter_distributes_over_add(
                    all_rows(pre_runs),
                    sorted_batch@,
                    is_part(pc, p),
                );
                Seq::<u64>::filter_distributes_over_add(
                    all_rows(pre_runs),
                    all_rows(staged),
                    is_part(pc, p),
                );
                assert(part_rows(sorted_batch@, pc, p) == part_rows(all_rows(staged), pc, p));
            }
        }
        Ok(())
    }

    /// Appends a batch to the staging area, counting its rows and memory.
    /// When staged memory reaches `staging_mem_threshold` the staged
    /// batches are flushed, synchronously, into one new sorted run; the
    /// threshold is the caller's configured staging budget.
    #[verifier::spinoff_prover]
    pub fn add_batch(
        &mut self,
        batch: Batch,
        partitioning: &Partitioning,
        staging_mem_threshold: usize,
    ) -> (r: Result<(), ShuffleError>)
        requires
            old(self).wf(partitioning.partition_count),
            partitioning.wf(),
            SORTED_ROW_MEM_BYTES * (old(self).num_rows + batch@.len()) <= usize::MAX,
        ensures
            final(self).wf(partitioning.partition_count),
            final(self).num_rows == old(self).num_rows + batch@.len(),
            forall|p: u64|
                p < partitioning.partition_count ==> part_rows(
                    final(self).buffered_rows(),
                    partitioning.partition_count,
                    p,
                ) == part_rows(old(self).buffered_rows(), partitioning.partition_count, p)
                    + part_rows(batch@, partitioning.partition_count, p),
            r is Ok <==> (old(self).staging_mem_used + ROW_MEM_BYTES * batch@.len()
                < staging_mem_threshold || {
                &&& old(self).staging_schemas_ok(*partitioning)
                &&& batch.schema == partitioning.schema
            }),
            old(self).staging_mem_used + ROW_MEM_BYTES * batch@.len() < staging_mem_threshold
                ==> final(self).staging_batches@ == old(self).staging_batches@.push(batch)
                && final(self).sorted_batches@ == old(self).sorted_batches@,
            (old(self).staging_mem_used + ROW_MEM_BYTES * batch@.len() >= staging_mem_threshold
                && r is Ok) ==> final(self).staging_batches@.len() == 0
                && final(self).sorted_batches@.len() == old(self).sorted_batches@.len() + 1,
            r matches Err(e) ==> final(self).staging_batches@ == old(self).staging_batches@.push(
                batch,
            ) && (exists|i: int|
                0 <= i < final(self).staging_batches@.len()
                    && (#[trigger] final(self).staging_batches@[i]).schema != partitioning.schema
                    && e == (ShuffleError::HashEvaluation {
                    expected_schema: partitioning.schema,
                    batch_schema: final(self).staging_batches@[i].schema,
                })),
    {
        let pc = partitioning.partition_count;
        let ghost pre_staging = self.staging_batches@;
        self.num_rows = self.num_rows + batch.num_rows();
        self.staging_mem_used = self.staging_mem_used + batch.get_array_mem_size();
        let ghost row_view = batch@;
        let ghost batch_g = batch;
        self.staging_batches.push(batch);
        proof {
            assert(batch_views(self.staging_batches@) =~= batch_views(pre_staging).push(row_view));
            batch_views(pre_staging).lemma_flatten_push(row_view);
            assert(self.staging_rows() == all_rows(pre_staging) + row_view);
            assert(self.buffered_rows() =~= old(self).buffered_rows() + row_view);
            assert forall|p: u64| p < pc implies part_rows(self.buffered_rows(), pc, p)
                == part_rows(old(self).buffered_rows(), pc, p) + part_rows(row_view, pc, p) by {
                Seq::<u64>::filter_distributes_over_add(
                    old(self).buffered_rows(),
                    row_view,
                    is_part(pc, p),
                );
            }
            assert(self.wf(pc));
        }
        if self.staging_mem_used >= staging_mem_threshold {
            let ghost staged = self.staging_batches@;
            match self.flush_staging_batches(partitioning) {
                Ok(()) => {
                    proof {
                        assert(staged == pre_staging.push(batch_g));
                        assert forall|i: int| 0 <= i < pre_staging.len() implies (
                        #[trigger] pre_staging[i]).schema == partitioning.schema by {
                            assert(staged[i].schema == partitioning.schema);
                        }
                        assert(staged[pre_staging.len() as int] == batch_g);
                    }
                },
                Err(e) => {
                    return Err(e);
                },
            }
        } else {
            proof {
                assert(self.staging_batches@ == pre_staging.push(batch_g));
            }
        }
        Ok(())
    }
    /// Writes the buffer, consumed, as one partition-grouped stream
    /// appended to `w`: a final flush, then partition 0's rows, partition
    /// 1's, and so on. Returns the total uncompressed byte size and the
    /// offsets table: entry `p` is the byte offset, within the appended
    /// stream, at which partition `p`'s segment begins; the last entry is
    /// the stream's total size. `batch_size` is the caller's suggested
    /// output chunk row count.
    #[verifier::spinoff_prover]
    #[verifier::loop_isolation(false)]
    #[verifier::rlimit(100)]
    pub fn write(self, w: &mut Vec<u8>, partitioning: &Partitioning, batch_size: usize) -> (r:
        Result<(usize, Vec<u64>), ShuffleError>)
        requires
            self.wf(partitioning.partition_count),
            partitioning.wf(),
            batch_size >= 1,
            old(w)@.len() + ROW_MEM_BYTES * self.num_rows <= usize::MAX,
        ensures
            r is Ok <==> (self.num_rows == 0 || self.staging_batches@.len() == 0
                || self.staging_schemas_ok(*partitioning)),
            r matches Err(e) ==> final(w)@ == old(w)@ && exists|i: int|
                0 <= i < self.staging_batches@.len()
                    && (#[trigger] self.staging_batches@[i]).schema != partitioning.schema && e
                    == (ShuffleError::HashEvaluation {
                    expected_schema: partitioning.schema,
                    batch_schema: self.staging_batches@[i].schema,
                }),
            r matches Ok(pr) ==> {
                let pc = partitioning.partition_count;
                let rows = self.buffered_rows();
                &&& pr.1@.len() == pc + 1
                &&& pr.1@[0] == 0
                &&& forall|q: int|
                    0 <= q <= pc ==> (#[trigger] pr.1@[q]) as int == 8 * parts_prefix(
                        rows,
                        pc,
                        q,
                    ).len()
                &&& forall|i: int, j: int| 0 <= i <= j <= pc ==> pr.1@[i] <= pr.1@[j]
                &&& final(w)@ == old(w)@ + encode_rows(parts_prefix(rows, pc, pc as int))
                &&& pr.1@[pc as int] as int == 8 * rows.len()
                &&& pr.0 == 8 * rows.len()
                &&& forall|q: int|
                    #![trigger pr.1@[q]]
                    0 <= q < pc ==> final(w)@.subrange(
                        old(w)@.len() + pr.1@[q] as int,
                        old(w)@.len() + pr.1@[q + 1] as int,
                    ) == encode_rows(part_rows(rows, pc, q as u64))
                &&& forall|q: int|
                    #![trigger pr.1@[q]]
                    0 <= q < pc && part_rows(rows, pc, q as u64).len() == 0 ==> pr.1@[q + 1]
                        == pr.1@[q]
                &&& (rows.len() == 0 ==> pr.0 == 0 && final(w)@ == old(w)@)
            },
    {
        let mut this = self;
        let pc = partitioning.partition_count;
        let ghost entry_rows = this.buffered_rows();

        // zero-row short-circuit: no writer, an all-zero offsets table
        if this.num_rows == 0 {
            let mut offsets: Vec<u64> = Vec::new();
            while offsets.len() <= pc
                invariant
                    offsets@.len() <= pc + 1,
                    forall|q: int| 0 <= q < offsets@.len() ==> (#[trigger] offsets@[q]) == 0,
                decreases pc + 1 - offsets@.len(),
            {
                offsets.push(0u64);
            }
            proof {
                crate::grouping::lemma_write_empty(entry_rows, pc, offsets@, w@);
            }
            return Ok((0, offsets));
        }

        // a final flush so every row lives in a sorted run
        if this.staging_batches.len() > 0 {
            match this.flush_staging_batches(partitioning) {
                Ok(()) => {},
                Err(e) => {
                    return Err(e);
                },
            }
        }
        proof {
            assert(batch_views(this.staging_batches@) =~= Seq::<Seq<u64>>::empty());
            assert(this.staging_rows() =~= Seq::<u64>::empty());
            assert(this.buffered_rows() =~= this.sorted_rows());
        }
        let ghost runs_rows = all_rows(this.sorted_batches@);
        proof {
            assert forall|p: u64| p < pc implies part_rows(runs_rows, pc, p) == part_rows(
                entry_rows,
                pc,
                p,
            ) by {}
            assert(runs_rows.len() == this.num_rows);
        }

        let merged = merge_sorted_runs(
            &this.sorted_batches,
            &this.sorted_partition_indices,
            pc,
            batch_size,
            partitioning.schema,
        );

        let mut offsets: Vec<u64> = Vec::new();
        offsets.push(0u64);
        let mut total: usize = 0;
        let mut i: usize = 0;
        let mut p: usize = 0;
        proof {
            assert(parts_prefix(runs_rows, pc, 0) =~= Seq::<u64>::empty());
            assert(encode_rows(parts_prefix(runs_rows, pc, 0)) =~= Seq::<u8>::empty());
            assert(w@ =~= old(w)@ + encode_rows(parts_prefix(runs_rows, pc, 0)));
        }
        while p < pc
            invariant
                p <= pc,
                i <= merged@.len(),
                offsets@.len() == p + 1,
                forall|q: int|
                    0 <= q <= p ==> (#[trigger] offsets@[q]) as int == 8 * parts_prefix(
                        runs_rows,
                        pc,
                        q,
                    ).len(),
                total == 8 * parts_prefix(runs_rows, pc, p as int).len(),
                total <= 8 * runs_rows.len(),
                w@.len() == old(w)@.len() + total,
                w@ == old(w)@ + encode_rows(parts_prefix(runs_rows, pc, p as int)),
                forall|j: int| 0 <= j < i ==> (#[trigger] merged@[j]).0 < p,
                forall|j: int| i <= j < merged@.len() ==> (#[trigger] merged@[j]).0 >= p,
            decreases pc - p,
        {
            let ghost i0 = i as int;
            proof {
                assert forall|j: int| 0 <= j < merged@.take(i as int).len() implies (
                #[trigger] merged@.take(i as int)[j]).0 != p as u32 by {
                    assert(merged@.take(i as int)[j] == merged@[j]);
                }
                crate::merge::lemma_rows_with_id_none(merged@.take(i as int), p as u32);
            }
            while i < merged.len() && merged[i].0 == p as u32
                invariant
                    i0 <= i <= merged@.len(),
                    forall|j: int| i0 <= j < i ==> (#[trigger] merged@[j]).0 == p as u32,
                    forall|j: int| i <= j < merged@.len() ==> (#[trigger] merged@[j]).0 >= p,
                    w@ == old(w)@ + encode_rows(
                        parts_prefix(runs_rows, pc, p as int) + rows_with_id(
                            merged@.take(i as int),
                            p as u32,
                        ),
                    ),
                    total == 8 * (parts_prefix(runs_rows, pc, p as int).len() + rows_with_id(
                        merged@.take(i as int),
                        p as u32,
                    ).len()),
                    w@.len() == old(w)@.len() + total,
                    parts_prefix(runs_rows, pc, p as int).len() + rows_with_id(
                        merged@.take(i as int),
                        p as u32,
                    ).len() <= runs_rows.len(),
                decreases merged@.len() - i,
            {
                proof {
                    crate::grouping::lemma_chunk_step(merged@, i as int, p as u64, runs_rows, pc);
                }
                let n = write_batch(w, &merged[i].1);
                total = total + n;
                i = i + 1;
                proof {
                    lemma_encode_len(merged@[i - 1].1@);
                    crate::codec::lemma_encode_concat(
                        parts_prefix(runs_rows, pc, p as int) + rows_with_id(
                            merged@.take(i - 1),
                            p as u32,
                        ),
                        merged@[i - 1].1@,
                    );
                    assert((parts_prefix(runs_rows, pc, p as int) + rows_with_id(
                        merged@.take(i - 1),
                        p as u32,
                    )) + merged@[i - 1].1@ =~= parts_prefix(runs_rows, pc, p as int)
                        + rows_with_id(merged@.take(i as int), p as u32));
                }
            }
            proof {
                crate::grouping::lemma_block_end(merged@, i as int, p as u64, runs_rows, pc);
            }
            offsets.push(total as u64);
            p = p + 1;
        }
        proof {
            crate::grouping::lemma_write_grouped(runs_rows, entry_rows, pc, old(w)@, w@, offsets@);
            assert(entry_rows.len() == self.num_rows);
        }
        Ok((total, offsets))
    }

    /// Writes the buffer, consumed, for the remote shuffle service: one
    /// byte payload per non-empty partition, in ascending partition id
    /// order, each the segment the partition-addressed remote writer is
    /// to receive (the caller sends each payload, then flushes the remote
    /// writer once). Returns the total uncompressed byte size alongside.
    /// `batch_size` is the caller's suggested output chunk row count.
    #[verifier::spinoff_prover]
    #[verifier::loop_isolation(false)]
    #[verifier::rlimit(100)]
    pub fn write_rss(self, partitioning: &Partitioning, batch_size: usize) -> (r: Result<
        (usize, Vec<(u32, Vec<u8>)>),
        ShuffleError,
    >)
        requires
            self.wf(partitioning.partition_count),
            partitioning.wf(),
            batch_size >= 1,
        ensures
            r is Ok <==> (self.num_rows == 0 || self.staging_batches@.len() == 0
                || self.staging_schemas_ok(*partitioning)),
            r matches Err(e) ==> exists|i: int|
                0 <= i < self.staging_batches@.len()
                    && (#[trigger] self.staging_batches@[i]).schema != partitioning.schema && e
                    == (ShuffleError::HashEvaluation {
                    expected_schema: partitioning.schema,
                    batch_schema: self.staging_batches@[i].schema,
                }),
            r matches Ok(pr) ==> {
                let pc = partitioning.partition_count;
                let rows = self.buffered_rows();
                &&& pr.0 == 8 * rows.len()
                &&& forall|k: int| 0 <= k < pr.1@.len() ==> (#[trigger] pr.1@[k]).0 < pc
                &&& forall|k: int, l: int| 0 <= k < l < pr.1@.len() ==> pr.1@[k].0 < pr.1@[l].0
                &&& forall|k: int|
                    0 <= k < pr.1@.len() ==> (#[trigger] pr.1@[k]).1@ == encode_rows(
                        part_rows(rows, pc, pr.1@[k].0 as u64),
                    ) && pr.1@[k].1@.len() > 0
                &&& forall|p: u64|
                    p < pc && #[trigger] part_rows(rows, pc, p).len() > 0 ==> contains_part(
                        pr.1@,
                        p,
                    )
                &&& (rows.len() == 0 ==> pr.0 == 0 && pr.1@.len() == 0)
            },
    {
        let mut this = self;
        let pc = partitioning.partition_count;
        let ghost entry_rows = this.buffered_rows();

        // zero-row short-circuit: nothing is sent
        if this.num_rows == 0 {
            proof {
                assert(entry_rows =~= Seq::<u64>::empty());
                assert forall|p: u64| p < pc implies part_rows(entry_rows, pc, p).len() == 0 by {
                    lemma_filter_none(entry_rows, is_part(pc, p));
                }
            }
            return Ok((0, Vec::new()));
        }

        // a final flush so every row lives in a sorted run
        if this.staging_batches.len() > 0 {
            match this.flush_staging_batches(partitioning) {
                Ok(()) => {},
                Err(e) => {
                    return Err(e);
                },
            }
        }
        proof {
            assert(batch_views(this.staging_batches@) =~= Seq::<Seq<u64>>::empty());
            assert(this.staging_rows() =~= Seq::<u64>::empty());
            assert(this.buffered_rows() =~= this.sorted_rows());
        }
        let ghost runs_rows = all_rows(this.sorted_batches@);
        proof {
            assert forall|p: u64| p < pc implies part_rows(runs_rows, pc, p) == part_rows(
                entry_rows,
                pc,
                p,
            ) by {}
            assert(runs_rows.len() == this.num_rows);
        }

        let merged = merge_sorted_runs(
            &this.sorted_batches,
            &this.sorted_partition_indices,
            pc,
            batch_size,
            partitioning.schema,
        );

        let mut parts: Vec<(u32, Vec<u8>)> = Vec::new();
        let mut total: usize = 0;
        let mut i: usize = 0;
        let mut p: usize = 0;
        proof {
            assert(parts_prefix(runs_rows, pc, 0) =~= Seq::<u64>::empty());
        }
        while p < pc
            invariant
                p <= pc,
                i <= merged@.len(),
                total == 8 * parts_prefix(runs_rows, pc, p as int).len(),
                total <= 8 * runs_rows.len(),
                forall|j: int| 0 <= j < i ==> (#[trigger] merged@[j]).0 < p,
                forall|j: int| i <= j < merged@.len() ==> (#[trigger] merged@[j]).0 >= p,
                forall|k: int| 0 <= k < parts@.len() ==> (#[trigger] parts@[k]).0 < p,
                forall|k: int, l: int| 0 <= k < l < parts@.len() ==> parts@[k].0 < parts@[l].0,
                forall|k: int|
                    0 <= k < parts@.len() ==> (#[trigger] parts@[k]).1@ == encode_rows(
                        part_rows(runs_rows, pc, parts@[k].0 as u64),
                    ) && parts@[k].1@.len() > 0,
                forall|q: u64|
                    q < p && #[trigger] part_rows(runs_rows, pc, q).len() > 0 ==> contains_part(
                        parts@,
                        q,
                    ),
            decreases pc - p,
        {
            proof {
                assert forall|j: int| 0 <= j < merged@.take(i as int).len() implies (
                #[trigger] merged@.take(i as int)[j]).0 != p as u32 by {
                    assert(merged@.take(i as int)[j] == merged@[j]);
                }
                crate::merge::lemma_rows_with_id_none(merged@.take(i as int), p as u32);
            }
            let ghost i0 = i as int;
            let mut seg: Vec<u8> = Vec::new();
            proof {
                assert(seg@ =~= encode_rows(rows_with_id(merged@.take(i as int), p as u32)));
            }
            while i < merged.len() && merged[i].0 == p as u32
                invariant
                    i0 <= i <= merged@.len(),
                    forall|j: int| i0 <= j < i ==> (#[trigger] merged@[j]).0 == p as u32,
                    forall|j: int| i <= j < merged@.len() ==> (#[trigger] merged@[j]).0 >= p,
                    seg@ == encode_rows(rows_with_id(merged@.take(i as int), p as u32)),
                    seg@.len() == 8 * rows_with_id(merged@.take(i as int), p as u32).len(),
                    total + seg@.len() == 8 * (parts_prefix(runs_rows, pc, p as int).len()
                        + rows_with_id(merged@.take(i as int), p as u32).len()),
                    parts_prefix(runs_rows, pc, p as int).len() + rows_with_id(
                        merged@.take(i as int),
                        p as u32,
                    ).len() <= runs_rows.len(),
                decreases merged@.len() - i,
            {
                proof {
                    crate::grouping::lemma_chunk_step(merged@, i as int, p as u64, runs_rows, pc);
                    lemma_encode_len(rows_with_id(merged@.take(i as int), p as u32));
                }
                let n = write_batch(&mut seg, &merged[i].1);
                i = i + 1;
                proof {
                    lemma_encode_len(merged@[i - 1].1@);
                    lemma_encode_len(rows_with_id(merged@.take(i as int), p as u32));
                    crate::codec::lemma_encode_concat(
                        rows_with_id(merged@.take(i - 1), p as u32),
                        merged@[i - 1].1@,
                    );
                }
            }
            proof {
                crate::grouping::lemma_block_end(merged@, i as int, p as u64, runs_rows, pc);
                lemma_encode_len(part_rows(runs_rows, pc, p as u64));
            }
            let ghost pre_parts = parts@;
            let seg_len = seg.len();
            if seg_len > 0 {
                parts.push((p as u32, seg));
                proof {
                    assert(parts@ == pre_parts.push((p as u32, parts@[parts@.len() - 1].1)));
                }
            }
            total = total + seg_len;
            p = p + 1;
            proof {
                assert forall|q: u64|
                    q < p && #[trigger] part_rows(runs_rows, pc, q).len() > 0 implies contains_part(
                    parts@,
                    q,
                ) by {
                    if q == p - 1 {
                        assert(parts@[parts@.len() - 1].0 as u64 == q);
                    } else {
                        assert(contains_part(pre_parts, q));
                        let k = choose|k: int|
                            0 <= k < pre_parts.len() && (#[trigger] pre_parts[k]).0 as u64 == q;
                        assert(parts@[k].0 as u64 == q);
                    }
                }
            }
        }
        proof {
            lemma_row_conservation(runs_rows, pc);
            lemma_row_conservation(entry_rows, pc);
            lemma_parts_prefix_congruence(runs_rows, entry_rows, pc, pc as int);
            assert(entry_rows.len() == self.num_rows);
            assert forall|k: int| 0 <= k < parts@.len() implies (#[trigger] parts@[k]).1@
                == encode_rows(part_rows(entry_rows, pc, parts@[k].0 as u64)) by {
                assert(part_rows(runs_rows, pc, parts@[k].0 as u64) == part_rows(
                    entry_rows,
                    pc,
                    parts@[k].0 as u64,
                ));
            }
            assert forall|q: u64|
                q < pc && #[trigger] part_rows(entry_rows, pc, q).len() > 0 implies contains_part(
                parts@,
                q,
            ) by {
                assert(part_rows(runs_rows, pc, q) == part_rows(entry_rows, pc, q));
                assert(part_rows(runs_rows, pc, q).len() > 0);
            }
        }
        Ok((total, parts))
    }
}

impl Default for BufferedData {
    /// The empty buffer: no batches, no rows, no memory accounted.
    fn default() -> (r: BufferedData)
        ensures
            r.staging_batches@.len() == 0,
            r.sorted_batches@.len() == 0,
            r.num_rows == 0,
            r.buffered_rows() == Seq::<u64>::empty(),
            forall|partition_count: usize| #[trigger] r.wf(partition_count),
    {
        let r = BufferedData {
            staging_batches: Vec::new(),
            sorted_batches: Vec::new(),
            sorted_partition_indices: Vec::new(),
            num_rows: 0,
            staging_mem_used: 0,
            sorted_mem_used: 0,
        };
        proof {
            assert(batch_views(r.staging_batches@) =~= Seq::<Seq<u64>>::empty());
            assert(batch_views(r.sorted_batches@) =~= Seq::<Seq<u64>>::empty());
            assert(r.staging_rows() =~= Seq::<u64>::empty());
            assert(r.sorted_rows() =~= Seq::<u64>::empty());
            assert(r.buffered_rows() =~= Seq::<u64>::empty());
            assert forall|partition_count: usize| #[trigger] r.wf(partition_count) by {
                assert(r.sorted_partition_indices@.map_values(|v: Vec<u32>| v@) =~= Seq::<
                    Seq<u32>,
                >::empty());
            }
        }
        r
    }
}


} // verus!
