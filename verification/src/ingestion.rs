//! Per-camera ingestion: accumulate incoming MPEG-TS byte chunks until the
//! segment duration has elapsed, then cut a write request for the global
//! writer. The embedding program owns the camera connection, the clock and
//! the queue; the accumulator holds the bytes and decides the cut.

use vstd::prelude::*;

use crate::writer::WriteRequest;

verus! {

use vstd::slice::slice_to_vec;

/// The state of one camera's accumulator.
pub struct AccumulatorModel {
    pub camera_id: Seq<char>,
    pub buf: Seq<u8>,
    pub seg_start: i64,
}

/// Accumulates one camera's incoming bytes into the segment being cut.
pub struct SegmentAccumulator {
    camera_id: String,
    buf: Vec<u8>,
    seg_start: i64,
}

impl View for SegmentAccumulator {
    type V = AccumulatorModel;

    closed spec fn view(&self) -> AccumulatorModel {
        AccumulatorModel {
            camera_id: self.camera_id@,
            buf: self.buf@,
            seg_start: self.seg_start,
        }
    }
}

impl SegmentAccumulator {
    /// Start accumulating for `camera_id`; the segment under construction
    /// begins `now`.
    pub fn new(camera_id: String, now: i64) -> (r: Self)
        ensures
            r@.camera_id == camera_id@,
            r@.buf == Seq::<u8>::empty(),
            r@.seg_start == now,
    {
        SegmentAccumulator { camera_id, buf: Vec::new(), seg_start: now }
    }

    /// Take in one chunk of bytes from the camera.
    pub fn push_chunk(&mut self, data: &[u8])
        requires
            old(self)@.buf.len() + data@.len() <= usize::MAX,
        ensures
            final(self)@.camera_id == old(self)@.camera_id,
            final(self)@.seg_start == old(self)@.seg_start,
            final(self)@.buf == old(self)@.buf + data@,
    {
        let mut chunk = slice_to_vec(data);
        self.buf.append(&mut chunk);
    }

    /// How many bytes the segment under construction holds.
    pub fn buffered(&self) -> (r: usize)
        ensures
            r == self@.buf.len(),
    {
        self.buf.len()
    }

    /// When the segment under construction began.
    pub fn segment_start(&self) -> (r: i64)
        ensures
            r == self@.seg_start,
    {
        self.seg_start
    }

    /// Whether the configured segment duration has elapsed, so the
    /// segment is due to be cut.
    pub fn segment_due(&self, now: i64, segment_duration_secs: u64) -> (r: bool)
        requires
            self@.seg_start <= now,
            now - self@.seg_start <= i64::MAX,
        ensures
            r == (now - self@.seg_start >= segment_duration_secs),
    {
        let elapsed = now - self.seg_start;
        elapsed as u64 >= segment_duration_secs
    }

    /// Cut the segment: hand the accumulated bytes to the writer as one
    /// request spanning from the segment's start to `now`, and begin the
    /// next segment at `now`. An empty buffer cuts nothing and changes
    /// nothing.
    pub fn flush(&mut self, now: i64) -> (r: Option<WriteRequest>)
        ensures
            old(self)@.buf.len() == 0 ==> r is None && final(self)@ == old(self)@,
            old(self)@.buf.len() > 0 ==> ({
                &&& r matches Some(req) && req.camera_id@ == old(self)@.camera_id
                    && req.start_ts == old(self)@.seg_start && req.end_ts == now && req.data@
                    == old(self)@.buf
                &&& final(self)@.camera_id == old(self)@.camera_id
                &&& final(self)@.buf == Seq::<u8>::empty()
                &&& final(self)@.seg_start == now
            }),
    {
        if self.buf.is_empty() {
            return None;
        }
        let data = slice_to_vec(self.buf.as_slice());
        self.buf.clear();
        let start_ts = self.seg_start;
        self.seg_start = now;
        Some(
            WriteRequest { camera_id: self.camera_id.clone(), start_ts, end_ts: now, data },
        )
    }
}

} // verus!
