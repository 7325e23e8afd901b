use kmer_colors::codec::{read_from, CodecConfig, CompressedRead, CompressedReadsBucketHelper};

#[test]
fn scenario_two_flag_bits_with_second_bucket() {
    let config = CodecConfig { flags_count: 2, with_second_bucket: true, reset_buffer: true };
    let helper = CompressedReadsBucketHelper::new(b"ACGTACGT".to_vec(), 0b11, 42);
    let mut bucket = Vec::new();
    helper.write_to(config, &mut bucket, &Vec::new());
    assert_eq!(bucket, vec![42, 0, 200, 180, 180]);
    assert!(bucket.len() <= helper.get_size(config, &Vec::new()));
    let mut buffer = vec![1, 2, 3];
    let (flags, second, extra, read, end) = read_from(config, &bucket, 0, &mut buffer).unwrap();
    assert_eq!(flags, 0b11);
    assert_eq!(second, 42);
    assert!(extra.is_empty());
    assert_eq!(read.bases_count, 8);
    assert_eq!(read.data, vec![180, 180]);
    assert_eq!(end, bucket.len());
    assert_eq!(buffer, vec![180, 180]);
}

#[test]
fn packing_plain_bases() {
    let packed = CompressedRead::from_plain(b"ACGTA");
    assert_eq!(packed.bases_count, 5);
    assert_eq!(packed.data, vec![180, 0]);
}

#[test]
fn round_trip_long_read_with_extra() {
    let config = CodecConfig { flags_count: 7, with_second_bucket: false, reset_buffer: false };
    let bases: Vec<u8> = (0..1000).map(|i| b"TGCA"[i % 4]).collect();
    let helper = CompressedReadsBucketHelper::new(bases.clone(), 100, 0);
    let extra = vec![5, 6, 7];
    let mut bucket = vec![0xee];
    helper.write_to(config, &mut bucket, &extra);
    assert!(bucket.len() - 1 <= helper.get_size(config, &extra));
    let mut buffer = vec![1];
    let (flags, second, got_extra, read, end) = read_from(config, &bucket, 1, &mut buffer).unwrap();
    assert_eq!(flags, 100);
    assert_eq!(second, 0);
    assert_eq!(got_extra, extra);
    assert_eq!(read.bases_count, 1000);
    assert_eq!(read.data, CompressedRead::from_plain(&bases).data);
    assert_eq!(end, bucket.len());
    assert_eq!(buffer.len(), 1 + 250);
    assert_eq!(buffer[0], 1);
}

#[test]
fn round_trip_packed_read() {
    let config = CodecConfig { flags_count: 0, with_second_bucket: false, reset_buffer: true };
    let read = CompressedRead::from_plain(b"GGGTTTAAAC");
    let helper = CompressedReadsBucketHelper::new_packed(read, 0, 0);
    let mut bucket = Vec::new();
    helper.write_to(config, &mut bucket, &Vec::new());
    let mut second = Vec::new();
    CompressedReadsBucketHelper::new(b"C".to_vec(), 0, 0).write_to(config, &mut second, &Vec::new());
    bucket.extend_from_slice(&second);
    let mut buffer = Vec::new();
    let (_, _, _, first, end) = read_from(config, &bucket, 0, &mut buffer).unwrap();
    assert_eq!(first.bases_count, 10);
    assert_eq!(first.data, CompressedRead::from_plain(b"GGGTTTAAAC").data);
    let (_, _, _, next, end2) = read_from(config, &bucket, end, &mut buffer).unwrap();
    assert_eq!(next.bases_count, 1);
    assert_eq!(next.data, vec![1]);
    assert_eq!(end2, bucket.len());
    assert_eq!(buffer, vec![1]);
}

#[test]
fn zero_size_terminates() {
    let config = CodecConfig { flags_count: 0, with_second_bucket: false, reset_buffer: true };
    let mut buffer = Vec::new();
    assert!(read_from(config, &vec![0, 0], 0, &mut buffer).is_none());
    assert!(read_from(config, &vec![0, 8, 1], 0, &mut buffer).is_none());
    assert!(read_from(config, &vec![], 0, &mut buffer).is_none());
}

#[test]
fn size_estimate() {
    let with = CodecConfig { flags_count: 2, with_second_bucket: true, reset_buffer: false };
    let without = CodecConfig { flags_count: 2, with_second_bucket: false, reset_buffer: false };
    let helper = CompressedReadsBucketHelper::new(b"ACGTACGTA".to_vec(), 0, 0);
    assert_eq!(helper.get_size(with, &vec![1, 2]), 3 + 12 + 10 + 1);
    assert_eq!(helper.get_size(without, &Vec::new()), 3 + 10 + 10);
}
