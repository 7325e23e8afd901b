use kmer_colors::colormap::{
    color_groups, decode_counter_entry, encode_color_ranges, group_queries, query_bucket,
    resolve_bucket, resolve_color_group, sort_by_color, sort_queries, split_by_bucket,
    write_query_colored_counters, CounterEntry, QueryColorDesc,
};
use kmer_colors::varint::{decode_varint, encode_varint};

fn q(query_index: u64, count: u32) -> QueryColorDesc {
    QueryColorDesc { query_index, count }
}

fn entry(query_index: u64, counter: u32, color: u32) -> (CounterEntry, u32) {
    (CounterEntry { query_index, counter }, color)
}

fn ranges(colors: &[u32]) -> Vec<u8> {
    let mut out = Vec::new();
    encode_color_ranges(&colors.to_vec(), &mut out);
    out
}

#[test]
fn varint_exact_bytes() {
    let mut out = Vec::new();
    encode_varint(300, &mut out);
    assert_eq!(out, vec![0xac, 0x02]);
    encode_varint(5, &mut out);
    assert_eq!(out, vec![0xac, 0x02, 5]);
    assert_eq!(decode_varint(&out, 0), Some((300, 2)));
    assert_eq!(decode_varint(&out, 2), Some((5, 3)));
    assert_eq!(decode_varint(&vec![0x80, 0x80], 0), None);
    let mut max = Vec::new();
    encode_varint(u64::MAX, &mut max);
    assert_eq!(max.len(), 10);
    assert_eq!(decode_varint(&max, 0), Some((u64::MAX, 10)));
}

#[test]
fn range_encoding_is_minimal() {
    assert_eq!(ranges(&[1, 2, 3, 5, 7, 8]), vec![1, 3, 5, 1, 7, 2]);
    assert_eq!(ranges(&[10, 11, 12, 20]), vec![10, 3, 20, 1]);
    assert_eq!(ranges(&[0]), vec![0, 1]);
    assert_eq!(ranges(&[200]), vec![0xc8, 0x01, 1]);
}

#[test]
fn range_encoding_of_empty_set() {
    assert_eq!(ranges(&[]), vec![0xff, 0xff, 0xff, 0xff, 0x0f, 0]);
}

#[test]
fn query_bucket_formula() {
    assert_eq!(query_bucket(0, 1000, 2), 0);
    assert_eq!(query_bucket(499, 1000, 2), 0);
    assert_eq!(query_bucket(500, 1000, 2), 1);
    assert_eq!(query_bucket(999, 1000, 2), 1);
    assert_eq!(query_bucket(100, 2000, 2), 0);
    assert_eq!(query_bucket(1500, 2000, 2), 1);
    // rounding up: 1001 queries count as 2000
    assert_eq!(query_bucket(999, 1001, 2), 0);
    // clamped to the last bucket
    assert_eq!(query_bucket(5000, 1000, 3), 2);
}

#[test]
fn scenario_single_color() {
    let r = resolve_color_group(vec![q(0, 5), q(1, 3)], &vec![10, 11, 12, 20], 1000, 2);
    assert_eq!(r.colors, vec![10, 3, 20, 1]);
    assert_eq!(r.records, vec![(0, vec![q(0, 5), q(1, 3)])]);
}

#[test]
fn scenario_bucket_split() {
    let r = resolve_color_group(vec![q(1500, 2), q(100, 1)], &vec![0], 2000, 2);
    assert_eq!(r.colors, vec![0, 1]);
    assert_eq!(r.records, vec![(0, vec![q(100, 1)]), (1, vec![q(1500, 2)])]);
}

#[test]
fn scenario_color_grouping() {
    let sorted = sort_by_color(vec![entry(0, 1, 2), entry(1, 1, 1), entry(2, 1, 2)]);
    assert_eq!(sorted[0], entry(1, 1, 1));
    let groups = color_groups(&sorted);
    assert_eq!(groups, vec![(1, 0, 1), (2, 1, 3)]);
    let second = group_queries(&sorted, 1, 3);
    let r = resolve_color_group(second, &vec![8, 9], 1000, 1);
    assert_eq!(r.records, vec![(0, vec![q(0, 1), q(2, 1)])]);
    assert_eq!(r.colors, vec![8, 2]);
    let first = group_queries(&sorted, 0, 1);
    let r = resolve_color_group(first, &vec![5], 1000, 1);
    assert_eq!(r.records, vec![(0, vec![q(1, 1)])]);
    assert_eq!(r.colors, vec![5, 1]);
}

#[test]
fn queries_sorted_within_records() {
    let sorted = sort_queries(vec![q(9, 1), q(3, 4), q(7, 2), q(3, 1)]);
    assert_eq!(sorted, vec![q(3, 1), q(3, 4), q(7, 2), q(9, 1)]);
    let records = split_by_bucket(&vec![q(1, 1), q(2, 1), q(600, 1), q(700, 1)], 1000, 2);
    assert_eq!(records, vec![(0, vec![q(1, 1), q(2, 1)]), (1, vec![q(600, 1), q(700, 1)])]);
    assert!(split_by_bucket(&vec![], 1000, 2).is_empty());
}

#[test]
fn output_record_bytes() {
    let mut out = vec![9];
    write_query_colored_counters(&vec![q(0, 5), q(300, 3)], &vec![10, 3, 20, 1], &mut out);
    assert_eq!(out, vec![9, 2, 0, 5, 0xac, 0x02, 3, 4, 10, 3, 20, 1]);
}

#[test]
fn counter_entry_records() {
    let data = vec![0xac, 0x02, 7, 0x78, 0x56, 0x34, 0x12, 1, 2, 9, 0, 0, 0];
    let first = decode_counter_entry(&data, 0);
    assert_eq!(first, Some((CounterEntry { query_index: 300, counter: 7 }, 0x1234_5678, 7)));
    let second = decode_counter_entry(&data, 7);
    assert_eq!(second, Some((CounterEntry { query_index: 1, counter: 2 }, 9, 13)));
    assert_eq!(decode_counter_entry(&data, 13), None);
    assert_eq!(decode_counter_entry(&data[..12].to_vec(), 7), None);
}

#[test]
fn whole_bucket_resolution() {
    let sorted = sort_by_color(vec![entry(0, 4, 2), entry(1, 6, 1), entry(2, 8, 2), entry(1500, 1, 2)]);
    let groups = color_groups(&sorted);
    assert_eq!(groups, vec![(1, 0, 1), (2, 1, 4)]);
    let color_sets = vec![vec![5], vec![8, 9]];
    let resolved = resolve_bucket(&sorted, &groups, &color_sets, 2000, 2);
    assert_eq!(resolved.len(), 2);
    assert_eq!(resolved[0].colors, vec![5, 1]);
    assert_eq!(resolved[0].records, vec![(0, vec![q(1, 6)])]);
    assert_eq!(resolved[1].colors, vec![8, 2]);
    assert_eq!(resolved[1].records, vec![(0, vec![q(0, 4), q(2, 8)]), (1, vec![q(1500, 1)])]);
}
