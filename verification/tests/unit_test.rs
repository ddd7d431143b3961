//! Scenario and component tests: exact locations, rotation generations,
//! read guards, configuration, ingestion, and the writer lifecycle.

use nvr::chunk_pool::{ChunkPool, PoolReadCounters};
use nvr::config::{ApiConfig, CameraConfig, Config, StorageConfig};
use nvr::error::NvrError;
use nvr::index::SegmentIndex;
use nvr::ingestion::SegmentAccumulator;
use nvr::playback::export_range;
use nvr::writer::{handle_write_request, recover_index, WriteRequest, WriterEvent, WriterPhase};

fn no_images(n: usize) -> Vec<Option<Vec<u8>>> {
    (0..n).map(|_| None).collect()
}

#[test]
fn test_single_small_segment_location() {
    let mut pool = ChunkPool::open(no_images(3), 1024 * 1024, 3).expect("open");
    let mut index = SegmentIndex::new();

    let data = [0x55u8; 21];
    let loc = pool.append("cam1", 100, 160, &data).expect("append");
    let seg_id = index.insert("cam1", 100, 160, loc);

    assert_eq!(seg_id, 0);
    assert_eq!(loc.pool_idx, 0);
    assert_eq!(loc.record_offset, 64);
    assert_eq!(loc.record_size, 61);

    let back = pool.read_segment_data(&loc).expect("read");
    assert_eq!(back, data.to_vec());
}

#[test]
fn test_rotation_generation_progression() {
    // capacity 512, ring of 2, 100-byte payloads: three records per slot.
    let mut pool = ChunkPool::open(no_images(2), 512, 2).expect("open");
    let payload = [0xCDu8; 100];
    let mut idxs: Vec<usize> = Vec::new();
    let mut gens: Vec<u64> = Vec::new();
    for _ in 0..10 {
        let loc = pool.append("cam1", 1, 2, &payload).expect("append");
        idxs.push(loc.pool_idx);
        gens.push(loc.pool_id);
    }
    assert_eq!(idxs, vec![0, 0, 0, 1, 1, 1, 0, 0, 0, 1]);
    // Each slot's generation grows by the ring length on every rotation
    // into it: slot 0 goes 0 -> 2, slot 1 goes 1 -> 3 -> 5.
    assert_eq!(gens, vec![0, 0, 0, 3, 3, 3, 2, 2, 2, 5]);
}

#[test]
fn test_oversized_append_leaves_state_unchanged() {
    let mut pool = ChunkPool::open(no_images(2), 100, 2).expect("open");
    pool.append("cam1", 1, 2, &[0u8; 10]).expect("small append fits");
    let before = pool.status();
    let err = pool.append("cam1", 1, 2, &[0u8; 200]);
    assert!(matches!(err, Err(NvrError::Storage(_))));
    assert_eq!(pool.status(), before);
}

#[test]
fn test_read_segment_data_rejects_bad_locations() {
    let mut pool = ChunkPool::open(no_images(2), 1024, 2).expect("open");
    let mut loc = pool.append("cam1", 1, 2, &[1u8, 2, 3]).expect("append");
    loc.record_size = 4096; // runs past the used body
    assert!(pool.read_segment_data(&loc).is_err());
    loc.record_size = 43;
    loc.pool_idx = 9; // no such slot
    assert!(pool.read_segment_data(&loc).is_err());
}

#[test]
fn test_read_counters_acquire_release() {
    let mut counters = PoolReadCounters::new(3);
    assert!(!counters.has_readers(1));
    let g1 = counters.acquire(1);
    let g2 = counters.acquire(1);
    assert!(counters.has_readers(1));
    assert!(!counters.has_readers(0));
    counters.release(g1);
    assert!(counters.has_readers(1));
    counters.release(g2);
    assert!(!counters.has_readers(1));
}

#[test]
fn test_writer_evicts_before_rotation() {
    // capacity 64: each 10-byte record takes 50 bytes, one per slot.
    let mut pool = ChunkPool::open(no_images(2), 64, 2).expect("open");
    let mut index = SegmentIndex::new();
    for i in 0..4 {
        let req = WriteRequest {
            camera_id: format!("cam{}", i),
            start_ts: 100 + i,
            end_ts: 101 + i,
            data: vec![0x77u8; 10],
        };
        handle_write_request(&mut pool, &mut index, &req).expect("write");
    }
    // Ring of 2, one record per slot: only the last two survive.
    assert_eq!(index.len(), 2);
    for seg in index.all_segments() {
        assert!(seg.camera_id == "cam2" || seg.camera_id == "cam3");
    }
}

#[test]
fn test_recover_index_matches_appends() {
    let mut pool = ChunkPool::open(no_images(2), 1024, 2).expect("open");
    pool.append("cam0", 10, 20, &[1u8; 5]).expect("a0");
    pool.append("cam1", 20, 30, &[2u8; 6]).expect("a1");
    pool.append("cam0", 30, 40, &[3u8; 7]).expect("a2");

    let mut index = SegmentIndex::new();
    recover_index(&pool, &mut index);
    assert_eq!(index.len(), 3);

    let cam0 = index.segments_for_camera("cam0");
    assert_eq!(cam0.len(), 2);
    assert_eq!(cam0[0].start_ts, 10);
    assert_eq!(cam0[0].segment_id, 0);
    assert_eq!(cam0[1].start_ts, 30);
    assert_eq!(cam0[1].location.record_size, 47);
}

#[test]
fn test_export_range_not_found() {
    let pool = ChunkPool::open(no_images(2), 1024, 2).expect("open");
    let index = SegmentIndex::new();
    let r = export_range(&pool, &index, "cam1", 0, 100);
    assert!(matches!(r, Err(NvrError::Storage(_))));
}

#[test]
fn test_config_validation() {
    let good = Config {
        storage: StorageConfig {
            base_path: "recordings".to_string(),
            chunk_size_mb: 512,
            max_pools: 20,
            segment_duration_secs: 60,
            writer_queue_size: 256,
        },
        cameras: vec![CameraConfig {
            id: "cam1".to_string(),
            name: "Door".to_string(),
            url: "rtsp://example/stream".to_string(),
            max_reconnect_attempts: 0,
        }],
        api: ApiConfig::default(),
    };
    assert!(good.validate().is_ok());

    let mut no_cameras = good.clone();
    no_cameras.cameras.clear();
    assert!(matches!(no_cameras.validate(), Err(NvrError::Config(_))));

    let mut zero_chunk = good.clone();
    zero_chunk.storage.chunk_size_mb = 0;
    assert!(matches!(zero_chunk.validate(), Err(NvrError::Config(_))));

    let mut zero_pools = good.clone();
    zero_pools.storage.max_pools = 0;
    assert!(matches!(zero_pools.validate(), Err(NvrError::Config(_))));

    let mut zero_duration = good.clone();
    zero_duration.storage.segment_duration_secs = 0;
    assert!(matches!(zero_duration.validate(), Err(NvrError::Config(_))));

    let mut zero_queue = good.clone();
    zero_queue.storage.writer_queue_size = 0;
    assert!(matches!(zero_queue.validate(), Err(NvrError::Config(_))));
}

#[test]
fn test_config_defaults() {
    let api = ApiConfig::default();
    assert!(api.enabled);
    assert_eq!(api.port, 8080);
    assert_eq!(nvr::config::default_chunk_size_mb(), 512);
    assert_eq!(nvr::config::default_max_chunks(), 20);
    assert_eq!(nvr::config::default_segment_duration(), 60);
    assert_eq!(nvr::config::default_writer_queue(), 256);
}

#[test]
fn test_accumulator_cuts_segments() {
    let mut acc = SegmentAccumulator::new("cam1".to_string(), 1000);
    assert!(acc.flush(1005).is_none()); // nothing buffered yet

    acc.push_chunk(&[1u8, 2, 3]);
    acc.push_chunk(&[4u8, 5]);
    assert_eq!(acc.buffered(), 5);
    assert!(!acc.segment_due(1059, 60));
    assert!(acc.segment_due(1060, 60));

    let req = acc.flush(1060).expect("cut");
    assert_eq!(req.camera_id, "cam1");
    assert_eq!(req.start_ts, 1000);
    assert_eq!(req.end_ts, 1060);
    assert_eq!(req.data, vec![1u8, 2, 3, 4, 5]);

    assert_eq!(acc.buffered(), 0);
    assert_eq!(acc.segment_start(), 1060);
    assert!(acc.flush(1120).is_none()); // empty again
}

#[test]
fn test_writer_lifecycle() {
    let p = WriterPhase::Init;
    let p = p.advance(WriterEvent::TaskStarted);
    assert_eq!(p, WriterPhase::Recovering);
    // an out-of-order event is ignored in place
    assert_eq!(p.advance(WriterEvent::QueueEmptied), WriterPhase::Recovering);
    let p = p.advance(WriterEvent::RecoveryDone);
    assert_eq!(p, WriterPhase::Running);
    let p = p.advance(WriterEvent::SenderClosed);
    assert_eq!(p, WriterPhase::Draining);
    let p = p.advance(WriterEvent::QueueEmptied);
    assert_eq!(p, WriterPhase::Stopped);
}

#[test]
fn test_open_resumes_at_latest_generation() {
    // Fill two slots so slot 1 carries the greater generation, then
    // reopen from the images: writing must resume in slot 1.
    let mut pool = ChunkPool::open(no_images(2), 512, 2).expect("open");
    for _ in 0..4 {
        pool.append("cam1", 1, 2, &[0u8; 100]).expect("append");
    }
    assert_eq!(pool.status().0, 1);

    let images: Vec<Option<Vec<u8>>> = (0..2).map(|i| Some(pool.file_image(i))).collect();
    let reopened = ChunkPool::open(images, 512, 2).expect("reopen");
    let (idx, used, cap) = reopened.status();
    assert_eq!(idx, 1);
    assert_eq!(used, 140);
    assert_eq!(cap, 512);
}

#[test]
fn test_open_rejects_bad_arguments() {
    assert!(ChunkPool::open(no_images(0), 1024, 0).is_err());
    assert!(ChunkPool::open(no_images(2), 1024, 3).is_err());
}
