//! The partial-sort stage: assigns a partition id to every staged row and
//! compacts the staged batches into one run grouped by partition id.
//!
//! Ids lie in `[0, partition_count)`, so the sort is a bucket sort keyed
//! directly on the id, the same bounded-key strategy as a radix sort; a
//! generic comparison sort would carry the same contract at a performance
//! cost. No relative row order within one partition id is promised.

use vstd::prelude::*;

use crate::batch::{all_rows, batch_views, indices_in_bounds, interleave_batches, Batch};
use crate::partition::{is_part, part_id_of, part_rows, Partitioning, ShuffleError};
use crate::partition::{evaluate_hashes, evaluate_partition_ids};
use crate::seq_helpers::{lemma_filter_all, lemma_filter_none, lemma_filter_push};
use crate::seq_helpers::{lemma_filter_in_orig, lemma_map_filter_commute};

verus! {

broadcast use vstd::seq_lib::group_filter_ensures;

/// A row reference produced while sorting: its partition id, the staged
/// batch it came from, and its row index there.
pub type RowRef = (u32, usize, usize);

/// The row a reference points at.
pub open spec fn ref_row(batches: Seq<Batch>, t: RowRef) -> u64 {
    batches[t.1 as int]@[t.2 as int]
}

/// A reference is in bounds and carries the id its row hashes to.
pub open spec fn ref_valid(batches: Seq<Batch>, partition_count: usize, t: RowRef) -> bool {
    &&& t.1 < batches.len()
    &&& t.2 < batches[t.1 as int]@.len()
    &&& t.0 < partition_count
    &&& t.0 as u64 == part_id_of(ref_row(batches, t), partition_count)
}

/// Selects the references with partition id `p`.
pub open spec fn has_pid(p: u32) -> spec_fn(RowRef) -> bool {
    |t: RowRef| t.0 == p
}

/// The references of `t`, regrouped: all of id 0 first, then id 1, and so
/// on up to id `n - 1`, keeping the original order within one id.
pub open spec fn cat_filters(t: Seq<RowRef>, n: int) -> Seq<RowRef>
    decreases n,
{
    if n <= 0 {
        Seq::empty()
    } else {
        cat_filters(t, n - 1) + t.filter(has_pid((n - 1) as u32))
    }
}

/// Regrouping changes no partition's own subsequence.
proof fn lemma_cat_filters_filter(t: Seq<RowRef>, n: int, p: u32)
    requires
        0 <= n <= u32::MAX + 1,
    ensures
        p < n ==> cat_filters(t, n).filter(has_pid(p)) == t.filter(has_pid(p)),
        p >= n ==> cat_filters(t, n).filter(has_pid(p)) == Seq::<RowRef>::empty(),
    decreases n,
{
    if n == 0 {
        assert(cat_filters(t, 0).filter(has_pid(p)) =~= Seq::<RowRef>::empty());
    } else {
        lemma_cat_filters_filter(t, n - 1, p);
        let block = t.filter(has_pid((n - 1) as u32));
        Seq::<RowRef>::filter_distributes_over_add(cat_filters(t, n - 1), block, has_pid(p));
        if p == n - 1 {
            assert forall|i: int| 0 <= i < block.len() implies has_pid(p)(block[i]) by {
                assert(has_pid((n - 1) as u32)(block[i]));
            }
            lemma_filter_all(block, has_pid(p));
        } else {
            assert forall|i: int| 0 <= i < block.len() implies !has_pid(p)(block[i]) by {
                assert(has_pid((n - 1) as u32)(block[i]));
            }
            lemma_filter_none(block, has_pid(p));
        }
        if p < n - 1 {
            assert(cat_filters(t, n).filter(has_pid(p)) =~= t.filter(has_pid(p)));
        } else if p >= n {
            assert(cat_filters(t, n).filter(has_pid(p)) =~= Seq::<RowRef>::empty());
        }
    }
}

proof fn lemma_cat_filters_empty(n: int)
    ensures
        cat_filters(Seq::empty(), n) == Seq::<RowRef>::empty(),
    decreases n,
{
    if n > 0 {
        lemma_cat_filters_empty(n - 1);
        reveal(Seq::filter);
        assert(cat_filters(Seq::empty(), n) =~= Seq::<RowRef>::empty());
    }
}

proof fn lemma_cat_filters_len_push(t: Seq<RowRef>, x: RowRef, n: int)
    requires
        0 <= n <= u32::MAX + 1,
    ensures
        cat_filters(t.push(x), n).len() == cat_filters(t, n).len() + if (x.0 as int) < n {
            1int
        } else {
            0int
        },
    decreases n,
{
    if n > 0 {
        lemma_cat_filters_len_push(t, x, n - 1);
        lemma_filter_push(t, has_pid((n - 1) as u32), x);
    }
}

/// Regrouping by id keeps every reference: bucketing loses no row.
proof fn lemma_cat_filters_len(t: Seq<RowRef>, n: int)
    requires
        0 <= n <= u32::MAX + 1,
        forall|i: int| 0 <= i < t.len() ==> (#[trigger] t[i]).0 < n,
    ensures
        cat_filters(t, n).len() == t.len(),
    decreases t.len(),
{
    if t.len() == 0 {
        assert(t =~= Seq::<RowRef>::empty());
        lemma_cat_filters_empty(n);
    } else {
        let dl = t.drop_last();
        assert(t =~= dl.push(t.last()));
        lemma_cat_filters_len(dl, n);
        lemma_cat_filters_len_push(dl, t.last(), n);
    }
}

/// Assigns every staged row its partition id, sorts the row references by
/// id alone, and compacts them into one run: the run's rows paired with
/// its parallel id array. Fails, and leaves nothing half-sorted, exactly
/// when some staged batch's shape defeats the hash evaluator.
#[verifier::loop_isolation(false)]
pub fn sort_batches_by_partition_id(batches: &Vec<Batch>, partitioning: &Partitioning) -> (r:
    Result<(Vec<u32>, Batch), ShuffleError>)
    requires
        batches@.len() >= 1,
        partitioning.wf(),
    ensures
        (forall|i: int|
            0 <= i < batches@.len() ==> (#[trigger] batches@[i]).schema == partitioning.schema)
            <==> r is Ok,
        r matches Err(e) ==> exists|i: int|
            0 <= i < batches@.len() && (#[trigger] batches@[i]).schema != partitioning.schema && e
                == (ShuffleError::HashEvaluation {
                expected_schema: partitioning.schema,
                batch_schema: batches@[i].schema,
            }),
        r matches Ok(pr) ==> {
            &&& pr.0@.len() == pr.1@.len()
            &&& pr.1@.len() == all_rows(batches@).len()
            &&& pr.1.schema == batches@[0].schema
            &&& forall|i: int|
                0 <= i < pr.0@.len() ==> (#[trigger] pr.0@[i]) < partitioning.partition_count
                    && pr.0@[i] as u64 == part_id_of(pr.1@[i], partitioning.partition_count)
            &&& forall|i: int, j: int| 0 <= i <= j < pr.0@.len() ==> pr.0@[i] <= pr.0@[j]
            &&& forall|p: u64|
                p < partitioning.partition_count ==> part_rows(
                    pr.1@,
                    partitioning.partition_count,
                    p,
                ) == part_rows(all_rows(batches@), partitioning.partition_count, p)
        },
{
    let pc = partitioning.partition_count;
    let ghost row_of = |t: RowRef| ref_row(batches@, t);

    // one (partition_id, batch_idx, row_idx) reference per staged row
    let mut triples: Vec<RowRef> = Vec::new();
    let mut bi: usize = 0;
    proof {
        assert(batch_views(batches@.take(0)) =~= Seq::<Seq<u64>>::empty());
        assert(triples@.map_values(row_of) =~= all_rows(batches@.take(0)));
    }
    while bi < batches.len()
        invariant
            bi <= batches@.len(),
            forall|k: int|
                0 <= k < triples@.len() ==> ref_valid(batches@, pc, #[trigger] triples@[k]),
            triples@.map_values(row_of) == all_rows(batches@.take(bi as int)),
            forall|j: int| 0 <= j < bi ==> (#[trigger] batches@[j]).schema == partitioning.schema,
        decreases batches@.len() - bi,
    {
        let hashes = match evaluate_hashes(partitioning, &batches[bi]) {
            Ok(h) => h,
            Err(e) => {
                return Err(e);
            },
        };
        let ids = evaluate_partition_ids(&hashes, pc);
        let mut ri: usize = 0;
        proof {
            assert(triples@.map_values(row_of) =~= all_rows(batches@.take(bi as int))
                + batches@[bi as int]@.take(0));
        }
        while ri < ids.len()
            invariant
                ri <= ids@.len(),
                forall|k: int|
                    0 <= k < triples@.len() ==> ref_valid(batches@, pc, #[trigger] triples@[k]),
                triples@.map_values(row_of) == all_rows(batches@.take(bi as int))
                    + batches@[bi as int]@.take(ri as int),
            decreases ids@.len() - ri,
        {
            let t: RowRef = (ids[ri], bi, ri);
            proof {
                assert(ref_row(batches@, t) == hashes@[ri as int]);
                assert(part_id_of(hashes@[ri as int], pc) < pc as u64);
            }
            let ghost pre = triples@;
            triples.push(t);
            ri = ri + 1;
            proof {
                assert(triples@ == pre.push(t));
                assert(triples@.map_values(row_of) =~= pre.map_values(row_of).push(row_of(t)));
                assert(batches@[bi as int]@.take(ri as int) =~= batches@[bi as int]@.take(ri - 1)
                    .push(batches@[bi as int]@[ri - 1]));
                assert(triples@.map_values(row_of) =~= all_rows(batches@.take(bi as int))
                    + batches@[bi as int]@.take(ri as int));
            }
        }
        bi = bi + 1;
        proof {
            assert(batches@[bi - 1]@.take(ids@.len() as int) =~= batches@[bi - 1]@);
            assert(batch_views(batches@.take(bi as int)) =~= batch_views(batches@.take(bi - 1))
                .push(batches@[bi - 1]@));
            batch_views(batches@.take(bi - 1)).lemma_flatten_push(batches@[bi - 1]@);
        }
    }
    proof {
        assert(batches@.take(batches@.len() as int) =~= batches@);
    }

    // bucket sort: scatter each reference to its id's bucket
    let mut buckets: Vec<Vec<RowRef>> = Vec::new();
    while buckets.len() < pc
        invariant
            buckets@.len() <= pc,
            forall|p: int| 0 <= p < buckets@.len() ==> (#[trigger] buckets@[p])@.len() == 0,
        decreases pc - buckets@.len(),
    {
        buckets.push(Vec::new());
    }
    proof {
        assert forall|p: int| 0 <= p < pc implies (#[trigger] buckets@[p])@ == triples@.take(
            0,
        ).filter(has_pid(p as u32)) by {
            assert(triples@.take(0).filter(has_pid(p as u32)) =~= Seq::<RowRef>::empty());
            assert(buckets@[p]@ =~= Seq::<RowRef>::empty());
        }
    }
    let mut k: usize = 0;
    while k < triples.len()
        invariant
            k <= triples@.len(),
            buckets@.len() == pc,
            forall|p: int|
                0 <= p < pc ==> (#[trigger] buckets@[p])@ == triples@.take(k as int).filter(
                    has_pid(p as u32),
                ),
        decreases triples@.len() - k,
    {
        let t = triples[k];
        proof {
            assert(ref_valid(batches@, pc, triples@[k as int]));
        }
        let p = t.0 as usize;
        buckets[p].push(t);
        k = k + 1;
        proof {
            assert(triples@.take(k as int) =~= triples@.take(k - 1).push(triples@[k - 1]));
            assert forall|q: int| 0 <= q < pc implies (#[trigger] buckets@[q])@ == triples@.take(
                k as int,
            ).filter(has_pid(q as u32)) by {
                lemma_filter_push(triples@.take(k - 1), has_pid(q as u32), triples@[k - 1]);
            }
        }
    }
    proof {
        assert(triples@.take(triples@.len() as int) =~= triples@);
    }

    // gather the buckets in id order: the sorted id array and row references
    let mut ids_out: Vec<u32> = Vec::new();
    let mut pairs: Vec<(usize, usize)> = Vec::new();
    let ghost mut s_acc: Seq<RowRef> = Seq::empty();
    let mut p: usize = 0;
    proof {
        assert(s_acc =~= cat_filters(triples@, 0));
        assert(ids_out@ =~= s_acc.map_values(|t: RowRef| t.0));
        assert(pairs@ =~= s_acc.map_values(|t: RowRef| (t.1, t.2)));
    }
    while p < pc
        invariant
            p <= pc,
            s_acc == cat_filters(triples@, p as int),
            ids_out@ == s_acc.map_values(|t: RowRef| t.0),
            pairs@ == s_acc.map_values(|t: RowRef| (t.1, t.2)),
            forall|i: int| 0 <= i < s_acc.len() ==> (#[trigger] s_acc[i]).0 < p,
            forall|i: int| 0 <= i < s_acc.len() ==> ref_valid(batches@, pc, #[trigger] s_acc[i]),
            forall|i: int, j: int| 0 <= i <= j < s_acc.len() ==> s_acc[i].0 <= s_acc[j].0,
        decreases pc - p,
    {
        let mut m: usize = 0;
        proof {
            assert(s_acc + buckets@[p as int]@.take(0) =~= s_acc);
        }
        while m < buckets[p].len()
            invariant
                m <= buckets@[p as int]@.len(),
                s_acc == cat_filters(triples@, p as int) + buckets@[p as int]@.take(m as int),
                ids_out@ == s_acc.map_values(|t: RowRef| t.0),
                pairs@ == s_acc.map_values(|t: RowRef| (t.1, t.2)),
                forall|i: int| 0 <= i < s_acc.len() ==> (#[trigger] s_acc[i]).0 <= p,
                forall|i: int|
                    0 <= i < s_acc.len() ==> ref_valid(batches@, pc, #[trigger] s_acc[i]),
                forall|i: int, j: int| 0 <= i <= j < s_acc.len() ==> s_acc[i].0 <= s_acc[j].0,
            decreases buckets@[p as int]@.len() - m,
        {
            let t = buckets[p][m];
            proof {
                let bucket = buckets@[p as int]@;
                assert(bucket == triples@.filter(has_pid(p as u32)));
                assert(has_pid(p as u32)(bucket[m as int]));
                assert(t.0 == p as u32);
                lemma_filter_in_orig(triples@, has_pid(p as u32));
                assert(triples@.contains(bucket[m as int]));
                let w = choose|w: int| 0 <= w < triples@.len() && triples@[w] == t;
                assert(ref_valid(batches@, pc, triples@[w]));
            }
            ids_out.push(t.0);
            pairs.push((t.1, t.2));
            proof {
                s_acc = s_acc.push(t);
            }
            m = m + 1;
            proof {
                assert(buckets@[p as int]@.take(m as int) =~= buckets@[p as int]@.take(m - 1).push(
                    buckets@[p as int]@[m - 1],
                ));
                assert(s_acc =~= cat_filters(triples@, p as int) + buckets@[p as int]@.take(
                    m as int,
                ));
                assert(ids_out@ =~= s_acc.map_values(|t: RowRef| t.0));
                assert(pairs@ =~= s_acc.map_values(|t: RowRef| (t.1, t.2)));
            }
        }
        p = p + 1;
        proof {
            assert(buckets@[p - 1]@.take(buckets@[p - 1]@.len() as int) =~= buckets@[p - 1]@);
            assert(s_acc =~= cat_filters(triples@, p as int));
        }
    }

    // compact the referenced rows into one batch via the row gather
    proof {
        assert(indices_in_bounds(batches@, pairs@));
    }
    let sorted_batch = interleave_batches(batches[0].schema, batches, &pairs);

    proof {
        assert(sorted_batch@ =~= s_acc.map_values(row_of));
        assert(triples@.map_values(row_of) == all_rows(batches@));
        assert forall|i: int| 0 <= i < triples@.len() implies (#[trigger] triples@[i]).0 < pc by {
            assert(ref_valid(batches@, pc, triples@[i]));
        }
        lemma_cat_filters_len(triples@, pc as int);
        assert(sorted_batch@.len() == all_rows(batches@).len());
        assert forall|pp: u64| pp < pc implies part_rows(sorted_batch@, pc, pp) == part_rows(
            all_rows(batches@),
            pc,
            pp,
        ) by {
            let pa = has_pid(pp as u32);
            let pb = is_part(pc, pp);
            assert forall|i: int| 0 <= i < s_acc.len() implies (pa(#[trigger] s_acc[i]) <==> pb(
                row_of(s_acc[i]),
            )) by {
                assert(ref_valid(batches@, pc, s_acc[i]));
            }
            lemma_map_filter_commute(s_acc, row_of, pa, pb);
            lemma_cat_filters_filter(triples@, pc as int, pp as u32);
            assert forall|i: int| 0 <= i < triples@.len() implies (pa(#[trigger] triples@[i]) <==> pb(
                row_of(triples@[i]),
            )) by {
                assert(ref_valid(batches@, pc, triples@[i]));
            }
            lemma_map_filter_commute(triples@, row_of, pa, pb);
        }
        assert forall|i: int| 0 <= i < ids_out@.len() implies (#[trigger] ids_out@[i]) < pc
            && ids_out@[i] as u64 == part_id_of(sorted_batch@[i], pc) by {
            assert(ref_valid(batches@, pc, s_acc[i]));
        }
    }
    Ok((ids_out, sorted_batch))
}

} // verus!
