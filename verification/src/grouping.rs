//! Lemmas about the grouped output stream: how per-partition segments,
//! offsets and totals follow from the partition grouping of the rows.

use vstd::prelude::*;

use crate::batch::Batch;
use crate::codec::{encode_rows, lemma_encode_len, lemma_encode_prefix_segment};
use crate::merge::rows_with_id;
use crate::partition::{is_part, part_rows, parts_prefix};
use crate::partition::{
    lemma_parts_prefix_congruence, lemma_parts_prefix_extends, lemma_row_conservation,
};
use crate::seq_helpers::lemma_filter_none;

verus! {

/// The short-circuit shape of an empty write: zero offsets, empty segments.
pub proof fn lemma_write_empty(rows: Seq<u64>, pc: usize, offs: Seq<u64>, wv: Seq<u8>)
    requires
        rows.len() == 0,
        1 <= pc <= u32::MAX,
        offs.len() == pc + 1,
        forall|q: int| 0 <= q < offs.len() ==> (#[trigger] offs[q]) == 0,
    ensures
        forall|q: int|
            0 <= q <= pc ==> (#[trigger] offs[q]) as int == 8 * parts_prefix(rows, pc, q).len(),
        wv == wv + encode_rows(parts_prefix(rows, pc, pc as int)),
        forall|q: int|
            #![trigger offs[q]]
            0 <= q < pc ==> wv.subrange(wv.len() + offs[q] as int, wv.len() + offs[q + 1] as int)
                == encode_rows(part_rows(rows, pc, q as u64)),
        forall|i: int, j: int| 0 <= i <= j <= pc ==> offs[i] <= offs[j],
{
    assert(rows =~= Seq::<u64>::empty());
    assert forall|q: int| 0 <= q <= pc implies (#[trigger] offs[q]) as int == 8 * parts_prefix(
        rows,
        pc,
        q,
    ).len() by {
        crate::partition::lemma_parts_prefix_empty(pc, q);
    }
    assert forall|q: int| #![trigger offs[q]] 0 <= q < pc implies wv.subrange(
        wv.len() + offs[q] as int,
        wv.len() + offs[q + 1] as int,
    ) == encode_rows(part_rows(rows, pc, q as u64)) by {
        lemma_filter_none(rows, is_part(pc, q as u64));
        assert(encode_rows(part_rows(rows, pc, q as u64)) =~= Seq::<u8>::empty());
        assert(wv.subrange(wv.len() + offs[q] as int, wv.len() + offs[q + 1] as int) =~= Seq::<
            u8,
        >::empty());
    }
    crate::partition::lemma_parts_prefix_empty(pc, pc as int);
    assert(wv =~= wv + encode_rows(parts_prefix(rows, pc, pc as int)));
}
/// One merge chunk of partition `p` extends that partition's written rows
/// and stays within the buffered row total.
#[verifier::spinoff_prover]
pub proof fn lemma_chunk_step(
    merged: Seq<(u32, Batch)>,
    i: int,
    p: u64,
    runs_rows: Seq<u64>,
    partition_count: usize,
)
    requires
        1 <= partition_count <= u32::MAX,
        p < partition_count,
        0 <= i < merged.len(),
        merged[i].0 == p as u32,
        rows_with_id(merged, p as u32) == part_rows(runs_rows, partition_count, p),
    ensures
        rows_with_id(merged.take(i + 1), p as u32) == rows_with_id(merged.take(i), p as u32)
            + merged[i].1@,
        parts_prefix(runs_rows, partition_count, p as int).len() + rows_with_id(
            merged.take(i + 1),
            p as u32,
        ).len() <= runs_rows.len(),
{
    let pc = partition_count;
    assert(merged.take(i + 1) =~= merged.take(i).push(merged[i]));
    crate::merge::lemma_rows_with_id_push(merged.take(i), merged[i], p as u32);
    assert(merged =~= merged.take(i + 1) + merged.skip(i + 1));
    crate::merge::lemma_rows_with_id_concat(merged.take(i + 1), merged.skip(i + 1), p as u32);
    assert(parts_prefix(runs_rows, pc, p as int + 1) == parts_prefix(runs_rows, pc, p as int)
        + part_rows(runs_rows, pc, p));
    lemma_parts_prefix_extends(runs_rows, pc, p as int + 1, pc as int);
    lemma_row_conservation(runs_rows, pc);
}

/// At the end of partition `p`'s block, the written rows are exactly that
/// partition's rows.
#[verifier::spinoff_prover]
pub proof fn lemma_block_end(
    merged: Seq<(u32, Batch)>,
    i: int,
    p: u64,
    runs_rows: Seq<u64>,
    partition_count: usize,
)
    requires
        1 <= partition_count <= u32::MAX,
        p < partition_count,
        0 <= i <= merged.len(),
        forall|j: int| i <= j < merged.len() ==> (#[trigger] merged[j]).0 >= p,
        i < merged.len() ==> merged[i].0 != p as u32,
        forall|i2: int, j2: int| 0 <= i2 <= j2 < merged.len() ==> merged[i2].0 <= merged[j2].0,
        rows_with_id(merged, p as u32) == part_rows(runs_rows, partition_count, p),
    ensures
        rows_with_id(merged.take(i), p as u32) == part_rows(runs_rows, partition_count, p),
        parts_prefix(runs_rows, partition_count, p as int + 1) == parts_prefix(
            runs_rows,
            partition_count,
            p as int,
        ) + part_rows(runs_rows, partition_count, p),
        parts_prefix(runs_rows, partition_count, p as int + 1).len() <= runs_rows.len(),
{
    let pc = partition_count;
    assert(merged =~= merged.take(i) + merged.skip(i));
    crate::merge::lemma_rows_with_id_concat(merged.take(i), merged.skip(i), p as u32);
    assert forall|j: int| 0 <= j < merged.skip(i).len() implies (#[trigger] merged.skip(i)[j]).0
        != p as u32 by {
        assert(merged.skip(i)[j] == merged[i + j]);
        if i < merged.len() {
            assert(merged[i].0 >= p);
            assert(merged[i].0 <= merged[i + j].0);
        }
    }
    crate::merge::lemma_rows_with_id_none(merged.skip(i), p as u32);
    assert(rows_with_id(merged.take(i), p as u32) =~= rows_with_id(merged, p as u32));
    lemma_parts_prefix_extends(runs_rows, pc, p as int + 1, pc as int);
    lemma_row_conservation(runs_rows, pc);
}

/// Assembles the written stream's contract: offsets and segments restated
/// over the rows as they were added, offsets monotone, total size exact.
#[verifier::spinoff_prover]
pub proof fn lemma_write_grouped(
    runs_rows: Seq<u64>,
    entry_rows: Seq<u64>,
    pc: usize,
    base: Seq<u8>,
    wv: Seq<u8>,
    offs: Seq<u64>,
)
    requires
        1 <= pc <= u32::MAX,
        forall|p: u64| p < pc ==> part_rows(runs_rows, pc, p) == part_rows(entry_rows, pc, p),
        offs.len() == pc + 1,
        forall|q: int|
            0 <= q <= pc ==> (#[trigger] offs[q]) as int == 8 * parts_prefix(runs_rows, pc, q).len(),
        wv == base + encode_rows(parts_prefix(runs_rows, pc, pc as int)),
    ensures
        forall|q: int|
            0 <= q <= pc ==> (#[trigger] offs[q]) as int == 8 * parts_prefix(entry_rows, pc, q).len(),
        wv == base + encode_rows(parts_prefix(entry_rows, pc, pc as int)),
        forall|q: int|
            #![trigger offs[q]]
            0 <= q < pc ==> wv.subrange(base.len() + offs[q] as int, base.len() + offs[q + 1] as int)
                == encode_rows(part_rows(entry_rows, pc, q as u64)),
        forall|i: int, j: int| 0 <= i <= j <= pc ==> offs[i] <= offs[j],
        forall|q: int|
            #![trigger offs[q]]
            0 <= q < pc && part_rows(entry_rows, pc, q as u64).len() == 0 ==> offs[q + 1] == offs[q],
        offs[pc as int] as int == 8 * entry_rows.len(),
        entry_rows.len() == runs_rows.len(),
{
    assert forall|q: int| 0 <= q <= pc implies parts_prefix(runs_rows, pc, q) == parts_prefix(
        entry_rows,
        pc,
        q,
    ) by {
        lemma_parts_prefix_congruence(runs_rows, entry_rows, pc, q);
    }
    assert forall|q: int| #![trigger offs[q]] 0 <= q < pc implies wv.subrange(
        base.len() + offs[q] as int,
        base.len() + offs[q + 1] as int,
    ) == encode_rows(part_rows(entry_rows, pc, q as u64)) by {
        lemma_encode_prefix_segment(runs_rows, pc, q);
        lemma_encode_len(parts_prefix(runs_rows, pc, q));
        lemma_encode_len(parts_prefix(runs_rows, pc, q + 1));
        lemma_encode_len(parts_prefix(runs_rows, pc, pc as int));
        lemma_parts_prefix_extends(runs_rows, pc, q + 1, pc as int);
        assert(parts_prefix(runs_rows, pc, q + 1) == parts_prefix(runs_rows, pc, q) + part_rows(
            runs_rows,
            pc,
            q as u64,
        ));
        assert(wv.subrange(base.len() + offs[q] as int, base.len() + offs[q + 1] as int)
            =~= encode_rows(parts_prefix(runs_rows, pc, pc as int)).subrange(
            offs[q] as int,
            offs[q + 1] as int,
        ));
        assert(part_rows(runs_rows, pc, q as u64) == part_rows(entry_rows, pc, q as u64));
    }
    assert forall|i: int, j: int| 0 <= i <= j <= pc implies offs[i] <= offs[j] by {
        lemma_parts_prefix_extends(runs_rows, pc, i, j);
    }
    assert forall|q: int|
        #![trigger offs[q]]
        0 <= q < pc && part_rows(entry_rows, pc, q as u64).len() == 0 implies offs[q + 1]
        == offs[q] by {
        assert(parts_prefix(runs_rows, pc, q + 1) == parts_prefix(runs_rows, pc, q) + part_rows(
            runs_rows,
            pc,
            q as u64,
        ));
    }
    lemma_row_conservation(runs_rows, pc);
    lemma_row_conservation(entry_rows, pc);
    lemma_parts_prefix_congruence(runs_rows, entry_rows, pc, pc as int);
}

} // verus!
