//! The partitioning scheme and per-row partition-id assignment.
//!
//! Column hashing itself is an upstream concern: a row enters this core
//! already reduced to the single `u64` hash key that the shuffle reads.
//! The scheme maps a key to a partition id in `[0, partition_count)` by
//! reducing the key modulo the partition count.

use vstd::prelude::*;

use crate::batch::Batch;

verus! {

/// A shuffle partitioning scheme: `partition_count` output partitions over
/// rows drawn from batches of shape `schema`.
pub struct Partitioning {
    pub partition_count: usize,
    pub schema: u32,
}

impl Partitioning {
    /// At least one partition; ids must fit in the `u32` id arrays.
    pub open spec fn wf(self) -> bool {
        1 <= self.partition_count <= u32::MAX
    }

    pub fn new(partition_count: usize, schema: u32) -> (r: Partitioning)
        requires
            1 <= partition_count <= u32::MAX,
        ensures
            r.partition_count == partition_count,
            r.schema == schema,
            r.wf(),
    {
        Partitioning { partition_count, schema }
    }
}

/// The partition id assigned to a row with hash key `hash`.
pub open spec fn part_id_of(hash: u64, partition_count: usize) -> u64
    recommends
        partition_count >= 1,
{
    hash % (partition_count as u64)
}

/// Predicate selecting the rows of partition `p`.
pub open spec fn is_part(partition_count: usize, p: u64) -> spec_fn(u64) -> bool {
    |hash: u64| part_id_of(hash, partition_count) == p
}

/// The subsequence of `rows` that belongs to partition `p`, in order.
pub open spec fn part_rows(rows: Seq<u64>, partition_count: usize, p: u64) -> Seq<u64> {
    rows.filter(is_part(partition_count, p))
}

/// The rows of partitions `0 .. p` of `rows`, partition by partition.
pub open spec fn parts_prefix(rows: Seq<u64>, partition_count: usize, p: int) -> Seq<u64>
    decreases p,
{
    if p <= 0 {
        Seq::empty()
    } else {
        parts_prefix(rows, partition_count, p - 1) + part_rows(
            rows,
            partition_count,
            (p - 1) as u64,
        )
    }
}

proof fn lemma_parts_prefix_len_push(rows: Seq<u64>, partition_count: usize, x: u64, p: int)
    requires
        0 <= p <= u32::MAX + 1,
        partition_count <= u32::MAX,
    ensures
        parts_prefix(rows.push(x), partition_count, p).len() == parts_prefix(
            rows,
            partition_count,
            p,
        ).len() + if (part_id_of(x, partition_count) as int) < p {
            1int
        } else {
            0int
        },
    decreases p,
{
    if p > 0 {
        lemma_parts_prefix_len_push(rows, partition_count, x, p - 1);
        crate::seq_helpers::lemma_filter_push(rows, is_part(partition_count, (p - 1) as u64), x);
    }
}

pub proof fn lemma_parts_prefix_empty(partition_count: usize, p: int)
    ensures
        parts_prefix(Seq::empty(), partition_count, p) == Seq::<u64>::empty(),
    decreases p,
{
    if p > 0 {
        lemma_parts_prefix_empty(partition_count, p - 1);
        reveal(Seq::filter);
        assert(parts_prefix(Seq::empty(), partition_count, p) =~= Seq::<u64>::empty());
    }
}

/// Law of row conservation: every row lands in exactly one partition, so
/// regrouping the rows by partition id keeps their number: the rows of
/// partitions `0 .. partition_count` together are exactly as many as were
/// put in.
pub proof fn lemma_row_conservation(rows: Seq<u64>, partition_count: usize)
    requires
        1 <= partition_count <= u32::MAX,
    ensures
        parts_prefix(rows, partition_count, partition_count as int).len() == rows.len(),
    decreases rows.len(),
{
    if rows.len() == 0 {
        assert(rows =~= Seq::<u64>::empty());
        lemma_parts_prefix_empty(partition_count, partition_count as int);
    } else {
        let dl = rows.drop_last();
        assert(rows =~= dl.push(rows.last()));
        lemma_row_conservation(dl, partition_count);
        lemma_parts_prefix_len_push(dl, partition_count, rows.last(), partition_count as int);
        assert(part_id_of(rows.last(), partition_count) < partition_count as u64);
    }
}

/// Earlier partition groups are a prefix of later ones.
pub proof fn lemma_parts_prefix_extends(rows: Seq<u64>, partition_count: usize, p1: int, p2: int)
    requires
        0 <= p1 <= p2,
    ensures
        parts_prefix(rows, partition_count, p2).take(
            parts_prefix(rows, partition_count, p1).len() as int,
        ) == parts_prefix(rows, partition_count, p1),
        parts_prefix(rows, partition_count, p1).len() <= parts_prefix(
            rows,
            partition_count,
            p2,
        ).len(),
    decreases p2,
{
    if p2 > p1 {
        lemma_parts_prefix_extends(rows, partition_count, p1, p2 - 1);
        assert(parts_prefix(rows, partition_count, p2).take(
            parts_prefix(rows, partition_count, p1).len() as int,
        ) =~= parts_prefix(rows, partition_count, p1));
    } else {
        assert(parts_prefix(rows, partition_count, p2).take(
            parts_prefix(rows, partition_count, p1).len() as int,
        ) =~= parts_prefix(rows, partition_count, p1));
    }
}

/// Two row sequences with the same per-partition groups group identically.
pub proof fn lemma_parts_prefix_congruence(
    a: Seq<u64>,
    b: Seq<u64>,
    partition_count: usize,
    p: int,
)
    requires
        forall|q: u64|
            (q as int) < p ==> part_rows(a, partition_count, q) == part_rows(
                b,
                partition_count,
                q,
            ),
    ensures
        parts_prefix(a, partition_count, p) == parts_prefix(b, partition_count, p),
    decreases p,
{
    if p > 0 {
        lemma_parts_prefix_congruence(a, b, partition_count, p - 1);
    }
}

/// A failure of this core, propagated unchanged to the caller.
#[derive(Debug, Clone, Copy, PartialEq, Eq, Structural)]
pub enum ShuffleError {
    /// The partitioning scheme cannot produce hashes for a batch of this
    /// shape; carries the scheme's expected shape and the batch's shape
    /// for diagnosis.
    HashEvaluation { expected_schema: u32, batch_schema: u32 },
}

/// Per-row hash evaluation. Fails, with both shapes for diagnosis, exactly
/// when the batch's shape does not match the scheme's.
pub fn evaluate_hashes(partitioning: &Partitioning, batch: &Batch) -> (r: Result<
    Vec<u64>,
    ShuffleError,
>)
    ensures
        batch.schema == partitioning.schema <==> r is Ok,
        r matches Ok(hashes) ==> hashes@ == batch@,
        r matches Err(e) ==> e == (ShuffleError::HashEvaluation {
            expected_schema: partitioning.schema,
            batch_schema: batch.schema,
        }),
{
    if batch.schema != partitioning.schema {
        return Err(
            ShuffleError::HashEvaluation {
                expected_schema: partitioning.schema,
                batch_schema: batch.schema,
            },
        );
    }
    let mut hashes: Vec<u64> = Vec::new();
    let mut i: usize = 0;
    while i < batch.rows.len()
        invariant
            i <= batch.rows.len(),
            hashes@ == batch@.take(i as int),
        decreases batch.rows.len() - i,
    {
        hashes.push(batch.rows[i]);
        i = i + 1;
        proof {
            assert(batch@.take(i as int) =~= batch@.take(i - 1).push(batch@[i - 1]));
        }
    }
    proof {
        assert(batch@.take(batch.rows.len() as int) =~= batch@);
    }
    Ok(hashes)
}

/// Maps every hash to its partition id in `[0, partition_count)`.
pub fn evaluate_partition_ids(hashes: &Vec<u64>, partition_count: usize) -> (ids: Vec<u32>)
    requires
        1 <= partition_count <= u32::MAX,
    ensures
        ids@.len() == hashes@.len(),
        forall|i: int|
            0 <= i < hashes@.len() ==> ids@[i] == part_id_of(hashes@[i], partition_count),
{
    let mut ids: Vec<u32> = Vec::new();
    let mut i: usize = 0;
    while i < hashes.len()
        invariant
            1 <= partition_count <= u32::MAX,
            i <= hashes.len(),
            ids@.len() == i,
            forall|j: int| 0 <= j < i ==> ids@[j] == part_id_of(hashes@[j], partition_count),
        decreases hashes.len() - i,
    {
        let id: u64 = hashes[i] % (partition_count as u64);
        assert(id < partition_count as u64);
        ids.push(id as u32);
        i = i + 1;
    }
    ids
}

} // verus!
