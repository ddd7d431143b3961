//! Byte-exactness of the on-disk format and scanning edge cases.

use nvr::chunk_pool::ChunkPool;
use nvr::codec::{
    encode_pool_header, encode_record, CAMERA_FIELD_SIZE, POOL_HEADER_SIZE, RECORD_HEADER_SIZE,
};

fn none_images(n: usize) -> Vec<Option<Vec<u8>>> {
    (0..n).map(|_| None).collect()
}

#[test]
fn test_record_bytes_exact() {
    let data = vec![0x11u8, 0x22u8];
    let rec = encode_record("cam1", 1, 2, &data);

    let mut expected: Vec<u8> = Vec::new();
    expected.extend_from_slice(b"NREC");
    expected.extend_from_slice(b"cam1");
    expected.extend_from_slice(&[0u8; 12]); // zero padding of the camera field
    expected.extend_from_slice(&1i64.to_le_bytes());
    expected.extend_from_slice(&2i64.to_le_bytes());
    expected.extend_from_slice(&2u32.to_le_bytes());
    expected.extend_from_slice(&data);

    assert_eq!(rec, expected);
    assert_eq!(RECORD_HEADER_SIZE, 40);
    assert_eq!(CAMERA_FIELD_SIZE, 16);
    assert_eq!(rec.len() as u64, RECORD_HEADER_SIZE + 2);
}

#[test]
fn test_pool_header_bytes_exact() {
    let hdr = encode_pool_header(5, 7);
    let mut expected: Vec<u8> = Vec::new();
    expected.extend_from_slice(b"NVRPOOL0");
    expected.extend_from_slice(&5u64.to_le_bytes());
    expected.extend_from_slice(&7i64.to_le_bytes());
    expected.extend_from_slice(&[0u8; 40]);
    assert_eq!(hdr, expected);
    assert_eq!(POOL_HEADER_SIZE, 64);
    assert_eq!(hdr.len() as u64, POOL_HEADER_SIZE);
}

#[test]
fn test_scan_records_roundtrip() {
    // A hand-built pool file image: header, one record, zero fill.
    let mut image = encode_pool_header(3, 0);
    image.extend_from_slice(&encode_record("camA", -10, 20, b"payload"));
    image.resize(64 + 100, 0);

    let recs = ChunkPool::scan_records(&image, 2, 3, 100);
    assert_eq!(recs.len(), 1);
    assert_eq!(recs[0].camera_id, "camA");
    assert_eq!(recs[0].start_ts, -10); // negative timestamps survive the trip
    assert_eq!(recs[0].end_ts, 20);
    assert_eq!(recs[0].pool_idx, 2);
    assert_eq!(recs[0].pool_id, 3);
    assert_eq!(recs[0].record_offset, 64);
    assert_eq!(recs[0].record_size, 47);
}

#[test]
fn test_scan_records_bad_header_yields_nothing() {
    let mut image = vec![0u8; 64 + 100];
    image[..8].copy_from_slice(b"NOTAPOOL");
    let recs = ChunkPool::scan_records(&image, 0, 0, 100);
    assert_eq!(recs.len(), 0);
}

#[test]
fn test_scan_stops_at_torn_record() {
    // One whole record, then a header whose declared payload runs past
    // the pool body: the scan keeps the first and stops cleanly.
    let mut image = encode_pool_header(0, 0);
    image.extend_from_slice(&encode_record("cam1", 1, 2, &[0xEEu8; 10]));
    image.extend_from_slice(b"NREC");
    image.extend_from_slice(&[0u8; 16]);
    image.extend_from_slice(&1i64.to_le_bytes());
    image.extend_from_slice(&2i64.to_le_bytes());
    image.extend_from_slice(&1000u32.to_le_bytes()); // would overflow the body
    image.resize(64 + 200, 0);

    let recs = ChunkPool::scan_records(&image, 0, 0, 200);
    assert_eq!(recs.len(), 1);
    assert_eq!(recs[0].record_size, 50);
}

#[test]
fn test_camera_id_utf8_roundtrip() {
    let mut pool = ChunkPool::open(none_images(1), 1024, 1).expect("open");
    pool.append("k\u{e4}m-1", 1, 2, b"x").expect("append");
    let recs = pool.scan_all_pools();
    assert_eq!(recs.len(), 1);
    assert_eq!(recs[0].camera_id, "k\u{e4}m-1");
}

#[test]
fn test_camera_id_truncated_to_field_width() {
    let mut pool = ChunkPool::open(none_images(1), 1024, 1).expect("open");
    pool.append("0123456789abcdefXYZ", 1, 2, b"x").expect("append");
    let recs = pool.scan_all_pools();
    assert_eq!(recs.len(), 1);
    assert_eq!(recs[0].camera_id, "0123456789abcdef");
}

#[test]
fn test_file_image_reopens_identically() {
    let mut pool = ChunkPool::open(none_images(2), 256, 2).expect("open");
    pool.append("cam1", 10, 20, &[0x42u8; 30]).expect("append");
    let image = pool.file_image(0);
    assert_eq!(image.len(), 64 + 256);
    assert_eq!(&image[..8], b"NVRPOOL0");
    assert_eq!(&image[64..68], b"NREC");

    let reopened = ChunkPool::open(vec![Some(image), None], 256, 2).expect("reopen");
    let recs = reopened.scan_all_pools();
    assert_eq!(recs.len(), 1);
    assert_eq!(recs[0].camera_id, "cam1");
    assert_eq!(recs[0].start_ts, 10);
    assert_eq!(recs[0].end_ts, 20);
    assert_eq!(recs[0].record_size, 70);
}

#[test]
fn test_pool_path_names() {
    let pool = ChunkPool::open(none_images(1001), 0, 1001).expect("open");
    assert_eq!(pool.pool_path(0), "pool_000.bin");
    assert_eq!(pool.pool_path(7), "pool_007.bin");
    assert_eq!(pool.pool_path(42), "pool_042.bin");
    assert_eq!(pool.pool_path(123), "pool_123.bin");
    assert_eq!(pool.pool_path(1000), "pool_1000.bin");
}
