use shuffle_buffer::batch::Batch;
use shuffle_buffer::buffered_data::BufferedData;
use shuffle_buffer::codec::{decode_segment, write_batch};
use shuffle_buffer::partition::{evaluate_partition_ids, Partitioning};

const HIGH: usize = 1 << 40;

#[test]
fn codec_round_trip() {
    let mut w: Vec<u8> = Vec::new();
    let n = write_batch(&mut w, &Batch::new(0, vec![1, u64::MAX, 0, 513]));
    assert_eq!(n, 32);
    assert_eq!(w.len(), 32);
    // little-endian framing: the first row is 1
    assert_eq!(&w[0..8], &[1, 0, 0, 0, 0, 0, 0, 0]);
    let rows = decode_segment(&w, 0, 32);
    assert_eq!(rows, vec![1, u64::MAX, 0, 513]);
}

#[test]
fn partition_id_assignment() {
    let ids = evaluate_partition_ids(&vec![0, 1, 4, 5, 7, 8], 4);
    assert_eq!(ids, vec![0, 1, 0, 1, 3, 0]);
}

#[test]
fn rss_payloads_group_by_partition() {
    // rows for partitions 0, 1 and 3 of 4; partition 2 stays empty
    let partitioning = Partitioning::new(4, 0);
    let mut data = BufferedData::default();
    data.add_batch(Batch::new(0, vec![4, 0, 5, 3]), &partitioning, 1).unwrap();
    data.add_batch(Batch::new(0, vec![8, 7]), &partitioning, 1).unwrap();

    let (uncompressed, parts) = data.write_rss(&partitioning, 2).unwrap();
    assert_eq!(uncompressed, 6 * 8);

    // ascending ids, only non-empty partitions present
    let ids: Vec<u32> = parts.iter().map(|p| p.0).collect();
    assert_eq!(ids, vec![0, 1, 3]);

    let mut by_id = std::collections::HashMap::new();
    for (id, payload) in &parts {
        assert!(!payload.is_empty());
        let mut rows = decode_segment(payload, 0, payload.len());
        rows.sort();
        by_id.insert(*id, rows);
    }
    assert_eq!(by_id[&0], vec![0, 4, 8]);
    assert_eq!(by_id[&1], vec![5]);
    assert_eq!(by_id[&3], vec![3, 7]);
}

#[test]
fn rss_zero_rows() {
    let partitioning = Partitioning::new(4, 0);
    let data = BufferedData::default();
    let (uncompressed, parts) = data.write_rss(&partitioning, 2).unwrap();
    assert_eq!(uncompressed, 0);
    assert!(parts.is_empty());
}

#[test]
fn grouped_stream_is_partition_ordered() {
    // with one row per value the grouped stream is fully determined
    let partitioning = Partitioning::new(3, 0);
    let mut data = BufferedData::default();
    data.add_batch(Batch::new(0, vec![2, 1, 0]), &partitioning, HIGH).unwrap();
    let mut w: Vec<u8> = Vec::new();
    let (_, offsets) = data.write(&mut w, &partitioning, 8).unwrap();
    assert_eq!(decode_segment(&w, 0, w.len()), vec![0, 1, 2]);
    assert_eq!(offsets, vec![0, 8, 16, 24]);
}
