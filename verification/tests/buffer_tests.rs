use shuffle_buffer::batch::Batch;
use shuffle_buffer::buffered_data::BufferedData;
use shuffle_buffer::codec::decode_segment;
use shuffle_buffer::partition::{Partitioning, ShuffleError};

const HIGH: usize = 1 << 40;

fn sorted(mut v: Vec<u64>) -> Vec<u64> {
    v.sort();
    v
}

fn segment(w: &Vec<u8>, offsets: &Vec<u64>, p: usize) -> Vec<u64> {
    decode_segment(w, offsets[p] as usize, offsets[p + 1] as usize)
}

#[test]
fn end_to_end_four_partitions() {
    // three batches whose rows land in partitions [2,0,1,0], [3,1], [0,2,2]
    let partitioning = Partitioning::new(4, 1);
    let mut data = BufferedData::default();
    data.add_batch(Batch::new(1, vec![2, 4, 9, 8]), &partitioning, HIGH)
        .unwrap();
    data.add_batch(Batch::new(1, vec![7, 5]), &partitioning, HIGH).unwrap();
    data.add_batch(Batch::new(1, vec![12, 6, 10]), &partitioning, HIGH)
        .unwrap();

    let mut w: Vec<u8> = Vec::new();
    let (uncompressed, offsets) = data.write(&mut w, &partitioning, 2).unwrap();

    assert_eq!(offsets.len(), 5);
    assert_eq!(offsets[0], 0);
    for p in 0..4 {
        assert!(offsets[p] <= offsets[p + 1]);
    }
    // total bytes written equal the final offset
    assert_eq!(offsets[4] - offsets[0], w.len() as u64);
    assert_eq!(uncompressed, 9 * 8);

    // reading back each partition's segment reconstructs its row multiset
    assert_eq!(sorted(segment(&w, &offsets, 0)), vec![4, 8, 12]);
    assert_eq!(sorted(segment(&w, &offsets, 1)), vec![5, 9]);
    assert_eq!(sorted(segment(&w, &offsets, 2)), vec![2, 6, 10]);
    assert_eq!(sorted(segment(&w, &offsets, 3)), vec![7]);
}

#[test]
fn row_conservation_across_writes() {
    let partitioning = Partitioning::new(3, 0);
    let mut data = BufferedData::default();
    let mut added = 0usize;
    for chunk in [vec![1, 2, 3], vec![4], vec![5, 6, 7, 8, 9]] {
        added += chunk.len();
        data.add_batch(Batch::new(0, chunk), &partitioning, 16).unwrap();
    }
    let mut w: Vec<u8> = Vec::new();
    let (_, offsets) = data.write(&mut w, &partitioning, 4).unwrap();
    let mut read_back = 0usize;
    for p in 0..3 {
        read_back += segment(&w, &offsets, p).len();
    }
    assert_eq!(read_back, added);
}

#[test]
fn zero_row_short_circuit() {
    let partitioning = Partitioning::new(6, 0);
    let data = BufferedData::default();
    let mut w: Vec<u8> = Vec::new();
    let (uncompressed, offsets) = data.write(&mut w, &partitioning, 10).unwrap();
    assert_eq!(uncompressed, 0);
    assert_eq!(offsets, vec![0; 7]);
    assert!(w.is_empty());
}

#[test]
fn empty_partition_filling() {
    // of 8 partitions, 2 and 5 receive no rows
    let partitioning = Partitioning::new(8, 0);
    let mut data = BufferedData::default();
    data.add_batch(Batch::new(0, vec![0, 1, 3, 4, 6, 7, 8, 9]), &partitioning, HIGH)
        .unwrap();
    let mut w: Vec<u8> = Vec::new();
    let (_, offsets) = data.write(&mut w, &partitioning, 3).unwrap();
    assert_eq!(offsets[2], offsets[3]);
    assert_eq!(offsets[5], offsets[6]);
    assert!(offsets[1] > offsets[0]);
}

#[test]
fn threshold_triggers_flush() {
    let partitioning = Partitioning::new(4, 0);

    // a low threshold: every add crosses it and produces a sorted run
    let mut low = BufferedData::default();
    for chunk in [vec![1, 2], vec![3, 4], vec![5, 6]] {
        low.add_batch(Batch::new(0, chunk), &partitioning, 1).unwrap();
    }
    assert_eq!(low.sorted_batches.len(), 3);
    assert_eq!(low.staging_batches.len(), 0);

    // a high threshold: the same input stays staged until write time
    let mut high = BufferedData::default();
    for chunk in [vec![1, 2], vec![3, 4], vec![5, 6]] {
        high.add_batch(Batch::new(0, chunk), &partitioning, HIGH).unwrap();
    }
    assert_eq!(high.sorted_batches.len(), 0);
    assert_eq!(high.staging_batches.len(), 3);

    // both yield the same grouped stream and offsets
    let mut w_low: Vec<u8> = Vec::new();
    let mut w_high: Vec<u8> = Vec::new();
    let (sz_low, off_low) = low.write(&mut w_low, &partitioning, 2).unwrap();
    let (sz_high, off_high) = high.write(&mut w_high, &partitioning, 2).unwrap();
    assert_eq!(sz_low, sz_high);
    assert_eq!(off_low, off_high);
    assert_eq!(w_low, w_high);
}

#[test]
fn hash_evaluation_error_at_flush() {
    let partitioning = Partitioning::new(4, 7);
    let mut data = BufferedData::default();
    // shape 9 does not match the scheme's shape 7; the flush fails
    let err = data
        .add_batch(Batch::new(9, vec![1, 2, 3]), &partitioning, 0)
        .unwrap_err();
    assert_eq!(
        err,
        ShuffleError::HashEvaluation { expected_schema: 7, batch_schema: 9 }
    );
}

#[test]
fn hash_evaluation_error_at_write() {
    let partitioning = Partitioning::new(4, 7);
    let mut data = BufferedData::default();
    // with a high threshold the mismatch surfaces only at the final flush
    data.add_batch(Batch::new(9, vec![1, 2, 3]), &partitioning, HIGH).unwrap();
    let mut w: Vec<u8> = Vec::new();
    let err = data.write(&mut w, &partitioning, 2).unwrap_err();
    assert_eq!(
        err,
        ShuffleError::HashEvaluation { expected_schema: 7, batch_schema: 9 }
    );
    assert!(w.is_empty());
}

#[test]
fn mem_used_accounting() {
    let partitioning = Partitioning::new(4, 0);
    let mut data = BufferedData::default();
    data.add_batch(Batch::new(0, vec![1, 2, 3]), &partitioning, HIGH).unwrap();
    // staged rows cost eight bytes each
    assert_eq!(data.mem_used(), 24);
    assert_eq!(data.num_rows, 3);

    // flushed rows cost eight bytes plus a four-byte partition id each
    let mut flushed = BufferedData::default();
    flushed.add_batch(Batch::new(0, vec![1, 2, 3]), &partitioning, 1).unwrap();
    assert_eq!(flushed.mem_used(), 36);
}
