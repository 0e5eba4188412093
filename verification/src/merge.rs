//! The merge stage: a bounded-key k-way merge of the sorted runs.
//!
//! Keys are partition ids in `[0, partition_count)`, so instead of a
//! generic comparison heap the merge walks the bounded id domain in
//! ascending order, draining every run's block of the current id before
//! moving on — the same selection a radix tournament makes, with the same
//! output contract. The drained rows are re-chunked into output batches
//! of at most `batch_size` rows, each carrying a single partition id.

use vstd::prelude::*;

use crate::batch::{all_rows, batch_views, gathered, indices_in_bounds, interleave_batches, Batch};
use crate::partition::{is_part, part_id_of, part_rows};
use crate::seq_helpers::{lemma_filter_block, lemma_filter_none, lemma_filter_push};

verus! {

broadcast use vstd::seq_lib::group_filter_ensures;

/// The sorted runs are well formed: one id array per run, one id per row,
/// every id the one its row hashes to, non-decreasing within each run.
pub open spec fn runs_wf(
    runs: Seq<Batch>,
    run_ids: Seq<Seq<u32>>,
    partition_count: usize,
) -> bool {
    &&& run_ids.len() == runs.len()
    &&& forall|r: int| 0 <= r < runs.len() ==> (#[trigger] run_ids[r]).len() == runs[r]@.len()
    &&& forall|r: int, j: int|
        0 <= r < runs.len() && 0 <= j < run_ids[r].len() ==> (#[trigger] run_ids[r][j]) < partition_count
            && run_ids[r][j] as u64 == part_id_of(runs[r]@[j], partition_count)
    &&& forall|r: int, i: int, j: int|
        0 <= r < runs.len() && 0 <= i <= j < run_ids[r].len() ==> (#[trigger] run_ids[r][i])
            <= (#[trigger] run_ids[r][j])
}

/// Selects the emitted chunks that carry partition id `p`.
pub open spec fn chunk_has_pid(p: u32) -> spec_fn((u32, Batch)) -> bool {
    |e: (u32, Batch)| e.0 == p
}

/// All rows the merge output carries for partition id `p`, in emission order.
pub open spec fn rows_with_id(out: Seq<(u32, Batch)>, p: u32) -> Seq<u64> {
    out.filter(chunk_has_pid(p)).map_values(|e: (u32, Batch)| e.1@).flatten()
}

/// The rows of partition `p` among the first `r` runs, run by run.
pub open spec fn runs_part_prefix(runs: Seq<Batch>, partition_count: usize, p: u64, r: int) -> Seq<
    u64,
>
    decreases r,
{
    if r <= 0 {
        Seq::empty()
    } else {
        runs_part_prefix(runs, partition_count, p, r - 1) + part_rows(
            runs[r - 1]@,
            partition_count,
            p,
        )
    }
}

/// Partitioning the concatenation of the runs is partitioning them one by one.
proof fn lemma_part_rows_flatten(runs: Seq<Batch>, partition_count: usize, p: u64, r: int)
    requires
        0 <= r <= runs.len(),
    ensures
        part_rows(all_rows(runs.take(r)), partition_count, p) == runs_part_prefix(
            runs,
            partition_count,
            p,
            r,
        ),
    decreases r,
{
    if r == 0 {
        assert(batch_views(runs.take(0)) =~= Seq::<Seq<u64>>::empty());
        reveal(Seq::filter);
        assert(part_rows(all_rows(runs.take(0)), partition_count, p) =~= Seq::<u64>::empty());
    } else {
        lemma_part_rows_flatten(runs, partition_count, p, r - 1);
        assert(batch_views(runs.take(r)) =~= batch_views(runs.take(r - 1)).push(runs[r - 1]@));
        batch_views(runs.take(r - 1)).lemma_flatten_push(runs[r - 1]@);
        Seq::<u64>::filter_distributes_over_add(
            all_rows(runs.take(r - 1)),
            runs[r - 1]@,
            is_part(partition_count, p),
        );
    }
}

/// Splitting the output splits each id's rows.
pub proof fn lemma_rows_with_id_concat(a: Seq<(u32, Batch)>, b: Seq<(u32, Batch)>, q: u32)
    ensures
        rows_with_id(a + b, q) == rows_with_id(a, q) + rows_with_id(b, q),
{
    Seq::<(u32, Batch)>::filter_distributes_over_add(a, b, chunk_has_pid(q));
    let f = |e: (u32, Batch)| e.1@;
    let fa = a.filter(chunk_has_pid(q));
    let fb = b.filter(chunk_has_pid(q));
    assert((fa + fb).map_values(f) =~= fa.map_values(f) + fb.map_values(f));
    vstd::seq_lib::lemma_flatten_concat(fa.map_values(f), fb.map_values(f));
    assert(rows_with_id(a + b, q) =~= rows_with_id(a, q) + rows_with_id(b, q));
}

/// Appending one chunk extends exactly its own id's rows.
pub proof fn lemma_rows_with_id_push(out: Seq<(u32, Batch)>, e: (u32, Batch), q: u32)
    ensures
        rows_with_id(out.push(e), q) == if e.0 == q {
            rows_with_id(out, q) + e.1@
        } else {
            rows_with_id(out, q)
        },
{
    lemma_filter_push(out, chunk_has_pid(q), e);
    if e.0 == q {
        let f = |e: (u32, Batch)| e.1@;
        assert(out.filter(chunk_has_pid(q)).push(e).map_values(f) =~= out.filter(
            chunk_has_pid(q),
        ).map_values(f).push(e.1@));
        out.filter(chunk_has_pid(q)).map_values(f).lemma_flatten_push(e.1@);
    }
}

pub proof fn lemma_rows_with_id_none(out: Seq<(u32, Batch)>, q: u32)
    requires
        forall|i: int| 0 <= i < out.len() ==> (#[trigger] out[i]).0 != q,
    ensures
        rows_with_id(out, q) == Seq::<u64>::empty(),
{
    assert forall|i: int| 0 <= i < out.len() implies !chunk_has_pid(q)(#[trigger] out[i]) by {}
    lemma_filter_none(out, chunk_has_pid(q));
    assert(out.filter(chunk_has_pid(q)).map_values(|e: (u32, Batch)| e.1@) =~= Seq::<
        Seq<u64>,
    >::empty());
    assert(rows_with_id(out, q) =~= Seq::<u64>::empty());
}

/// Merges the sorted runs into one sequence of `(partition id, batch)`
/// chunks, grouped by non-decreasing id, covering every buffered row of
/// every run exactly once, re-chunked to at most `batch_size` rows each.
#[verifier::loop_isolation(false)]
pub fn merge_sorted_runs(
    sorted_batches: &Vec<Batch>,
    sorted_partition_indices: &Vec<Vec<u32>>,
    partition_count: usize,
    batch_size: usize,
    schema: u32,
) -> (out: Vec<(u32, Batch)>)
    requires
        1 <= partition_count <= u32::MAX,
        batch_size >= 1,
        runs_wf(sorted_batches@, sorted_partition_indices@.map_values(|v: Vec<u32>| v@), partition_count),
    ensures
        forall|i: int|
            0 <= i < out@.len() ==> (#[trigger] out@[i]).0 < partition_count,
        forall|i: int, j: int| 0 <= i <= j < out@.len() ==> out@[i].0 <= out@[j].0,
        forall|i: int|
            0 <= i < out@.len() ==> 1 <= (#[trigger] out@[i]).1@.len() <= batch_size,
        forall|i: int| 0 <= i < out@.len() ==> (#[trigger] out@[i]).1.schema == schema,
        forall|i: int, kk: int|
            0 <= i < out@.len() && 0 <= kk < out@[i].1@.len() ==> part_id_of(
                #[trigger] out@[i].1@[kk],
                partition_count,
            ) == out@[i].0 as u64,
        forall|p: u64|
            p < partition_count ==> rows_with_id(out@, p as u32) == part_rows(
                all_rows(sorted_batches@),
                partition_count,
                p,
            ),
{
    let pc = partition_count;
    let k = sorted_batches.len();
    let ghost run_ids = sorted_partition_indices@.map_values(|v: Vec<u32>| v@);

    let mut cursors: Vec<usize> = Vec::new();
    while cursors.len() < k
        invariant
            cursors@.len() <= k,
            forall|r: int| 0 <= r < cursors@.len() ==> (#[trigger] cursors@[r]) == 0,
        decreases k - cursors@.len(),
    {
        cursors.push(0);
    }

    let mut out: Vec<(u32, Batch)> = Vec::new();
    let mut p: usize = 0;
    while p < pc
        invariant
            p <= pc,
            cursors@.len() == k,
            forall|r: int| 0 <= r < k ==> (#[trigger] cursors@[r]) <= run_ids[r].len(),
            forall|r: int, j: int|
                0 <= r < k && 0 <= j < cursors@[r] ==> (#[trigger] run_ids[r][j]) < p,
            forall|r: int, j: int|
                0 <= r < k && cursors@[r] <= j < run_ids[r].len() ==> (#[trigger] run_ids[r][j])
                    >= p,
            forall|i: int| 0 <= i < out@.len() ==> (#[trigger] out@[i]).0 < p,
            forall|i: int, j: int| 0 <= i <= j < out@.len() ==> out@[i].0 <= out@[j].0,
            forall|i: int|
                0 <= i < out@.len() ==> 1 <= (#[trigger] out@[i]).1@.len() <= batch_size,
            forall|i: int| 0 <= i < out@.len() ==> (#[trigger] out@[i]).1.schema == schema,
            forall|i: int, kk: int|
                0 <= i < out@.len() && 0 <= kk < out@[i].1@.len() ==> part_id_of(
                    #[trigger] out@[i].1@[kk],
                    pc,
                ) == out@[i].0 as u64,
            forall|q: u64|
                q < p ==> rows_with_id(out@, q as u32) == part_rows(
                    all_rows(sorted_batches@),
                    pc,
                    q,
                ),
        decreases pc - p,
    {
        // drain every run's block of id p, collecting row references
        let mut pairs_p: Vec<(usize, usize)> = Vec::new();
        let mut r: usize = 0;
        proof {
            assert(gathered(sorted_batches@, pairs_p@) =~= runs_part_prefix(
                sorted_batches@,
                pc,
                p as u64,
                0,
            ));
        }
        while r < k
            invariant
                r <= k,
                cursors@.len() == k,
                forall|rr: int| 0 <= rr < k ==> (#[trigger] cursors@[rr]) <= run_ids[rr].len(),
                forall|rr: int, j: int|
                    0 <= rr < r && 0 <= j < cursors@[rr] ==> (#[trigger] run_ids[rr][j]) <= p,
                forall|rr: int, j: int|
                    0 <= rr < r && cursors@[rr] <= j < run_ids[rr].len() ==> (
                    #[trigger] run_ids[rr][j]) > p,
                forall|rr: int, j: int|
                    r <= rr < k && 0 <= j < cursors@[rr] ==> (#[trigger] run_ids[rr][j]) < p,
                forall|rr: int, j: int|
                    r <= rr < k && cursors@[rr] <= j < run_ids[rr].len() ==> (
                    #[trigger] run_ids[rr][j]) >= p,
                gathered(sorted_batches@, pairs_p@) == runs_part_prefix(
                    sorted_batches@,
                    pc,
                    p as u64,
                    r as int,
                ),
                forall|m: int|
                    0 <= m < pairs_p@.len() ==> (#[trigger] pairs_p@[m]).0 < k && pairs_p@[m].1
                        < sorted_batches@[pairs_p@[m].0 as int]@.len(),
                forall|m: int|
                    0 <= m < pairs_p@.len() ==> part_id_of(
                        #[trigger] gathered(sorted_batches@, pairs_p@)[m],
                        pc,
                    ) == p as u64,
            decreases k - r,
        {
            let ghost c0 = cursors@[r as int] as int;
            while cursors[r] < sorted_partition_indices[r].len() && sorted_partition_indices[r][
                cursors[r]
            ] == p as u32
                invariant
                    r < k,
                    cursors@.len() == k,
                    forall|rr: int| 0 <= rr < k ==> (#[trigger] cursors@[rr]) <= run_ids[rr].len(),
                    c0 <= cursors@[r as int] <= run_ids[r as int].len(),
                    forall|j: int|
                        c0 <= j < cursors@[r as int] ==> (#[trigger] run_ids[r as int][j]) == p
                            as u32,
                    forall|rr: int, j: int|
                        0 <= rr < r && 0 <= j < cursors@[rr] ==> (#[trigger] run_ids[rr][j]) <= p,
                    forall|rr: int, j: int|
                        0 <= rr < r && cursors@[rr] <= j < run_ids[rr].len() ==> (
                        #[trigger] run_ids[rr][j]) > p,
                    forall|rr: int, j: int|
                        r < rr < k && 0 <= j < cursors@[rr] ==> (#[trigger] run_ids[rr][j]) < p,
                    forall|rr: int, j: int|
                        r < rr < k && cursors@[rr] <= j < run_ids[rr].len() ==> (
                        #[trigger] run_ids[rr][j]) >= p,
                    forall|j: int| 0 <= j < c0 ==> (#[trigger] run_ids[r as int][j]) < p,
                    forall|j: int|
                        cursors@[r as int] <= j < run_ids[r as int].len() ==> (
                        #[trigger] run_ids[r as int][j]) >= p,
                    gathered(sorted_batches@, pairs_p@) == runs_part_prefix(
                        sorted_batches@,
                        pc,
                        p as u64,
                        r as int,
                    ) + sorted_batches@[r as int]@.subrange(c0, cursors@[r as int] as int),
                    forall|m: int|
                        0 <= m < pairs_p@.len() ==> (#[trigger] pairs_p@[m]).0 < k && pairs_p@[m].1
                            < sorted_batches@[pairs_p@[m].0 as int]@.len(),
                    forall|m: int|
                        0 <= m < pairs_p@.len() ==> part_id_of(
                            #[trigger] gathered(sorted_batches@, pairs_p@)[m],
                            pc,
                        ) == p as u64,
                decreases run_ids[r as int].len() - cursors@[r as int],
            {
                let c = cursors[r];
                let ghost pre = pairs_p@;
                pairs_p.push((r, c));
                cursors[r] = c + 1;
                proof {
                    assert(run_ids[r as int][c as int] == p as u32);
                    assert(part_id_of(sorted_batches@[r as int]@[c as int], pc) == p as u64);
                    assert(pairs_p@ == pre.push((r, c)));
                    assert(gathered(sorted_batches@, pairs_p@) =~= gathered(
                        sorted_batches@,
                        pre,
                    ).push(sorted_batches@[r as int]@[c as int]));
                    assert(sorted_batches@[r as int]@.subrange(c0, c + 1) =~= sorted_batches@[
                        r as int
                    ]@.subrange(c0, c as int).push(sorted_batches@[r as int]@[c as int]));
                    assert(gathered(sorted_batches@, pairs_p@) =~= runs_part_prefix(
                        sorted_batches@,
                        pc,
                        p as u64,
                        r as int,
                    ) + sorted_batches@[r as int]@.subrange(c0, c + 1));
                }
            }
            proof {
                let c1 = cursors@[r as int] as int;
                let run = sorted_batches@[r as int]@;
                assert forall|j: int| 0 <= j < c0 implies !is_part(pc, p as u64)(run[j]) by {
                    assert(run_ids[r as int][j] < p);
                }
                assert forall|j: int| c0 <= j < c1 implies is_part(pc, p as u64)(run[j]) by {
                    assert(run_ids[r as int][j] == p as u32);
                }
                assert forall|j: int| c1 <= j < run.len() implies !is_part(pc, p as u64)(
                    run[j],
                ) by {
                    if c1 < run.len() {
                        assert(run_ids[r as int][c1] >= p);
                        assert(run_ids[r as int][c1] != p as u32);
                        assert(run_ids[r as int][j] >= run_ids[r as int][c1]);
                    }
                }
                lemma_filter_block(run, is_part(pc, p as u64), c0, c1);
                assert(part_rows(run, pc, p as u64) == run.subrange(c0, c1));
            }
            r = r + 1;
        }
        proof {
            assert(sorted_batches@.take(k as int) =~= sorted_batches@);
            lemma_part_rows_flatten(sorted_batches@, pc, p as u64, k as int);
            assert(gathered(sorted_batches@, pairs_p@) == part_rows(
                all_rows(sorted_batches@),
                pc,
                p as u64,
            ));
            lemma_rows_with_id_none(out@, p as u32);
            assert(pairs_p@.take(0) =~= Seq::<(usize, usize)>::empty());
            assert(gathered(sorted_batches@, pairs_p@.take(0)) =~= Seq::<u64>::empty());
        }

        // re-chunk the drained rows into output batches of one id each
        let mut idx: usize = 0;
        while idx < pairs_p.len()
            invariant
                idx <= pairs_p@.len(),
                forall|m: int|
                    0 <= m < pairs_p@.len() ==> (#[trigger] pairs_p@[m]).0 < k && pairs_p@[m].1
                        < sorted_batches@[pairs_p@[m].0 as int]@.len(),
                forall|m: int|
                    0 <= m < pairs_p@.len() ==> part_id_of(
                        #[trigger] gathered(sorted_batches@, pairs_p@)[m],
                        pc,
                    ) == p as u64,
                rows_with_id(out@, p as u32) == gathered(
                    sorted_batches@,
                    pairs_p@.take(idx as int),
                ),
                forall|i: int| 0 <= i < out@.len() ==> (#[trigger] out@[i]).0 <= p,
                forall|i: int, j: int| 0 <= i <= j < out@.len() ==> out@[i].0 <= out@[j].0,
                forall|i: int|
                    0 <= i < out@.len() ==> 1 <= (#[trigger] out@[i]).1@.len() <= batch_size,
                forall|i: int| 0 <= i < out@.len() ==> (#[trigger] out@[i]).1.schema == schema,
                forall|i: int, kk: int|
                    0 <= i < out@.len() && 0 <= kk < out@[i].1@.len() ==> part_id_of(
                        #[trigger] out@[i].1@[kk],
                        pc,
                    ) == out@[i].0 as u64,
                forall|q: u64|
                    q < p ==> rows_with_id(out@, q as u32) == part_rows(
                        all_rows(sorted_batches@),
                        pc,
                        q,
                    ),
            decreases pairs_p@.len() - idx,
        {
            let ghost g0 = idx as int;
            let mut chunk: Vec<(usize, usize)> = Vec::new();
            proof {
                assert(chunk@ =~= pairs_p@.subrange(g0, idx as int));
            }
            while chunk.len() < batch_size && idx < pairs_p.len()
                invariant
                    g0 <= idx <= pairs_p@.len(),
                    chunk@ == pairs_p@.subrange(g0, idx as int),
                    chunk@.len() == idx - g0,
                    chunk@.len() <= batch_size,
                decreases pairs_p@.len() - idx,
            {
                chunk.push(pairs_p[idx]);
                idx = idx + 1;
                proof {
                    assert(pairs_p@.subrange(g0, idx as int) =~= pairs_p@.subrange(g0, idx - 1)
                        .push(pairs_p@[idx - 1]));
                }
            }
            proof {
                assert(indices_in_bounds(sorted_batches@, chunk@));
                assert(chunk@.len() >= 1);
            }
            let chunk_batch = interleave_batches(schema, sorted_batches, &chunk);
            let ghost pre_out = out@;
            out.push((p as u32, chunk_batch));
            proof {
                assert(out@ == pre_out.push((p as u32, chunk_batch)));
                assert forall|q: u32| true implies rows_with_id(out@, q) == (if q == p as u32 {
                    rows_with_id(pre_out, q) + chunk_batch@
                } else {
                    rows_with_id(pre_out, q)
                }) by {
                    lemma_rows_with_id_push(pre_out, (p as u32, chunk_batch), q);
                }
                assert(chunk_batch@ =~= gathered(sorted_batches@, pairs_p@.subrange(g0, idx as int)));
                assert(gathered(sorted_batches@, pairs_p@.take(idx as int)) =~= gathered(
                    sorted_batches@,
                    pairs_p@.take(g0),
                ) + gathered(sorted_batches@, pairs_p@.subrange(g0, idx as int)));
                assert forall|kk: int| 0 <= kk < chunk_batch@.len() implies part_id_of(
                    chunk_batch@[kk],
                    pc,
                ) == p as u64 by {
                    assert(chunk_batch@[kk] == gathered(sorted_batches@, pairs_p@)[g0 + kk]);
                }
            }
        }
        p = p + 1;
        proof {
            assert(pairs_p@.take(pairs_p@.len() as int) =~= pairs_p@);
            assert forall|q: u64| q < p implies rows_with_id(out@, q as u32) == part_rows(
                all_rows(sorted_batches@),
                pc,
                q,
            ) by {
            }
        }
    }
    out
}

} // verus!
