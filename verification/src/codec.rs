//! The wire codec for the partition-grouped output stream.
//!
//! The surrounding runtime's compression codec is outside this core; the
//! stream written here is the codec's uncompressed payload, a fixed eight
//! little-endian bytes per row, so a partition's segment is a pure function
//! of its rows and can be decoded back.

use vstd::bytes::*;
use vstd::prelude::*;

use crate::batch::Batch;
use crate::partition::{lemma_parts_prefix_extends, part_rows, parts_prefix};

verus! {

/// The byte encoding of a row sequence: eight little-endian bytes per row.
pub open spec fn encode_rows(rows: Seq<u64>) -> Seq<u8>
    decreases rows.len(),
{
    if rows.len() == 0 {
        Seq::empty()
    } else {
        spec_u64_to_le_bytes(rows.first()) + encode_rows(rows.drop_first())
    }
}

/// The rows read back from an encoded byte sequence.
pub open spec fn decode_rows(bytes: Seq<u8>) -> Seq<u64>
    decreases bytes.len(),
{
    if bytes.len() < 8 {
        Seq::empty()
    } else {
        seq![spec_u64_from_le_bytes(bytes.take(8))] + decode_rows(bytes.skip(8))
    }
}

pub proof fn lemma_encode_len(rows: Seq<u64>)
    ensures
        encode_rows(rows).len() == 8 * rows.len(),
    decreases rows.len(),
{
    lemma_auto_spec_u64_to_from_le_bytes();
    if rows.len() > 0 {
        lemma_encode_len(rows.drop_first());
    }
}

pub proof fn lemma_encode_concat(a: Seq<u64>, b: Seq<u64>)
    ensures
        encode_rows(a + b) == encode_rows(a) + encode_rows(b),
    decreases a.len(),
{
    if a.len() == 0 {
        assert(a + b =~= b);
        assert(encode_rows(a) + encode_rows(b) =~= encode_rows(b));
    } else {
        assert((a + b).first() == a.first());
        assert((a + b).drop_first() =~= a.drop_first() + b);
        lemma_encode_concat(a.drop_first(), b);
        assert(encode_rows(a + b) =~= encode_rows(a) + encode_rows(b));
    }
}

pub proof fn lemma_encode_push(rows: Seq<u64>, x: u64)
    ensures
        encode_rows(rows.push(x)) == encode_rows(rows) + spec_u64_to_le_bytes(x),
{
    assert(rows.push(x) =~= rows + seq![x]);
    lemma_encode_concat(rows, seq![x]);
    assert(seq![x].drop_first() =~= Seq::<u64>::empty());
    assert(encode_rows(Seq::<u64>::empty()) =~= Seq::<u8>::empty());
    assert(encode_rows(seq![x]) =~= spec_u64_to_le_bytes(x));
}

/// Law: decoding an encoded row sequence returns it unchanged, so a
/// partition's written segment reconstructs exactly its rows.
pub proof fn lemma_decode_encode_round_trip(rows: Seq<u64>)
    ensures
        decode_rows(encode_rows(rows)) == rows,
    decreases rows.len(),
{
    lemma_auto_spec_u64_to_from_le_bytes();
    if rows.len() == 0 {
    } else {
        let head = spec_u64_to_le_bytes(rows.first());
        let rest = encode_rows(rows.drop_first());
        lemma_encode_len(rows.drop_first());
        assert(encode_rows(rows).len() >= 8);
        assert(encode_rows(rows).take(8) =~= head);
        assert(encode_rows(rows).skip(8) =~= rest);
        lemma_decode_encode_round_trip(rows.drop_first());
        assert(decode_rows(encode_rows(rows)) =~= rows);
    }
}

/// One partition's byte segment of the whole partition-grouped stream is
/// the encoding of exactly that partition's rows.
pub proof fn lemma_encode_prefix_segment(rows: Seq<u64>, partition_count: usize, q: int)
    requires
        0 <= q < partition_count,
    ensures
        encode_rows(parts_prefix(rows, partition_count, partition_count as int)).subrange(
            8 * parts_prefix(rows, partition_count, q).len() as int,
            8 * parts_prefix(rows, partition_count, q + 1).len() as int,
        ) == encode_rows(part_rows(rows, partition_count, q as u64)),
{
    let pcc = partition_count as int;
    let full = parts_prefix(rows, partition_count, pcc);
    let pq = parts_prefix(rows, partition_count, q);
    let pq1 = parts_prefix(rows, partition_count, q + 1);
    let block = part_rows(rows, partition_count, q as u64);
    lemma_parts_prefix_extends(rows, partition_count, q + 1, pcc);
    let rest = full.skip(pq1.len() as int);
    assert(full =~= pq1 + rest);
    assert(pq1 == pq + block);
    lemma_encode_concat(pq, block);
    lemma_encode_concat(pq1, rest);
    lemma_encode_len(pq);
    lemma_encode_len(block);
    lemma_encode_len(pq1);
    assert(encode_rows(full).subrange(8 * pq.len() as int, 8 * pq1.len() as int) =~= encode_rows(block));
}

/// Appending one more encoded row decodes to one more row.
proof fn lemma_decode_append(b: Seq<u8>, c: Seq<u8>)
    requires
        b.len() % 8 == 0,
        c.len() == 8,
    ensures
        decode_rows(b + c) == decode_rows(b).push(spec_u64_from_le_bytes(c)),
    decreases b.len(),
{
    if b.len() == 0 {
        assert(b + c =~= c);
        assert(c.take(8) =~= c);
        assert(c.skip(8) =~= Seq::<u8>::empty());
        assert(decode_rows(Seq::<u8>::empty()) =~= Seq::<u64>::empty());
        assert(decode_rows(b + c) =~= decode_rows(b).push(spec_u64_from_le_bytes(c)));
    } else {
        assert((b + c).len() >= 8);
        assert((b + c).take(8) =~= b.take(8));
        assert((b + c).skip(8) =~= b.skip(8) + c);
        lemma_decode_append(b.skip(8), c);
        assert(decode_rows(b + c) =~= decode_rows(b).push(spec_u64_from_le_bytes(c)));
    }
}

/// The compressed-stream writer's one write step: appends the batch's rows
/// to the stream and reports the uncompressed bytes written.
pub fn write_batch(w: &mut Vec<u8>, batch: &Batch) -> (n: usize)
    requires
        old(w)@.len() + 8 * batch@.len() <= usize::MAX,
    ensures
        final(w)@ == old(w)@ + encode_rows(batch@),
        n == 8 * batch@.len(),
{
    let mut i: usize = 0;
    while i < batch.rows.len()
        invariant
            i <= batch.rows.len(),
            old(w)@.len() + 8 * batch@.len() <= usize::MAX,
            w@ == old(w)@ + encode_rows(batch@.take(i as int)),
        decreases batch.rows.len() - i,
    {
        proof {
            lemma_encode_len(batch@.take(i as int));
        }
        let mut bs = u64_to_le_bytes(batch.rows[i]);
        w.append(&mut bs);
        i = i + 1;
        proof {
            assert(batch@.take(i as int) =~= batch@.take(i - 1).push(batch@[i - 1]));
            lemma_encode_push(batch@.take(i - 1), batch@[i - 1]);
        }
    }
    proof {
        assert(batch@.take(batch.rows.len() as int) =~= batch@);
        lemma_encode_len(batch@);
    }
    8 * batch.rows.len()
}

/// Decodes the byte range `[start, end)` of an output stream back into
/// rows; reads back one partition's segment given its two offsets.
pub fn decode_segment(bytes: &Vec<u8>, start: usize, end: usize) -> (r: Vec<u64>)
    requires
        start <= end <= bytes@.len(),
        (end - start) % 8 == 0,
    ensures
        r@ == decode_rows(bytes@.subrange(start as int, end as int)),
{
    let mut r: Vec<u64> = Vec::new();
    let mut i: usize = start;
    proof {
        assert(bytes@.subrange(start as int, start as int) =~= Seq::<u8>::empty());
    }
    while i < end
        invariant
            start <= i <= end <= bytes@.len(),
            (end - start) % 8 == 0,
            (i - start) % 8 == 0,
            r@ == decode_rows(bytes@.subrange(start as int, i as int)),
        decreases end - i,
    {
        let chunk = vstd::slice::slice_subrange(bytes.as_slice(), i, i + 8);
        r.push(u64_from_le_bytes(chunk));
        i = i + 8;
        proof {
            assert(bytes@.subrange(start as int, i as int) =~= bytes@.subrange(
                start as int,
                i - 8,
            ) + bytes@.subrange(i - 8, i as int));
            lemma_decode_append(
                bytes@.subrange(start as int, i - 8),
                bytes@.subrange(i - 8, i as int),
            );
        }
    }
    r
}

} // verus!
