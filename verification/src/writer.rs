//! The single global writer: the one consumer of the bounded queue that
//! all camera accumulators feed.
//!
//! The embedding program runs the loop — it receives queued requests and
//! performs the waiting — while the decisions live here: recover the index
//! from a scan before the first request, and for each request evict the
//! slot the coming rotation would overwrite *before* appending, so that the
//! index never points into a slot whose contents have moved on to a newer
//! generation.

use vstd::prelude::*;

use crate::chunk_pool::{
    spec_append_fails,
    spec_append_loc,
    spec_append_ok,
    spec_append_rotates,
    spec_pool_scanned,
    spec_scanned_le,
    ChunkPool,
    ScannedModel,
    SegmentLocation,
};
use crate::error::NvrError;
use crate::index::{spec_meta_of_scanned, MetaModel, SegmentIndex};

verus! {

/// Payload sent by camera accumulators to the global writer.
#[derive(Debug)]
pub struct WriteRequest {
    pub camera_id: String,
    pub start_ts: i64,
    pub end_ts: i64,
    pub data: Vec<u8>,
}

/// The content a rebuilt index entry keeps of a scanned record.
pub open spec fn spec_meta_content(m: MetaModel) -> ScannedModel {
    ScannedModel {
        camera_id: m.camera_id,
        start_ts: m.start_ts,
        end_ts: m.end_ts,
        pool_idx: m.location.pool_idx,
        pool_id: m.location.pool_id,
        record_offset: m.location.record_offset,
        record_size: m.location.record_size,
    }
}

/// Rebuild the index from a full scan of the pool: afterwards the index
/// holds exactly the metadata of every record in the ring, with fresh ids
/// handed out in `(pool_id, record_offset)` order.
pub fn recover_index(pool: &ChunkPool, index: &mut SegmentIndex)
    requires
        pool@.wf(),
    ensures
        final(index)@.wf(),
        final(index)@.counter == spec_pool_scanned(pool@).len(),
        final(index)@.entries.len() == spec_pool_scanned(pool@).len(),
        forall|k: int|
            0 <= k < final(index)@.entries.len()
                ==> (#[trigger] final(index)@.entries[k]).segment_id == k,
        final(index)@.entries.map_values(|m: MetaModel| spec_meta_content(m)).to_multiset()
            == spec_pool_scanned(pool@).to_multiset(),
        forall|k: int, l: int|
            0 <= k < l < final(index)@.entries.len() ==> spec_scanned_le(
                spec_meta_content(#[trigger] final(index)@.entries[k]),
                spec_meta_content(#[trigger] final(index)@.entries[l]),
            ),
{
    let records = pool.scan_all_pools();
    let ghost rec_views = crate::chunk_pool::spec_scanned_views(records@);
    index.rebuild_from_scanned(records);
    proof {
        let entries = final(index)@.entries;
        assert forall|k: int| 0 <= k < entries.len() implies {
            &&& (#[trigger] entries[k]).segment_id == k
            &&& spec_meta_content(entries[k]) == rec_views[k]
        } by {
            assert(entries[k] == spec_meta_of_scanned(rec_views[k], k as u64));
        }
        assert(entries.map_values(|m: MetaModel| spec_meta_content(m)) =~= rec_views);
    }
}

/// Handle one queued write request, exactly as the writer task does:
/// when the record at hand will not fit the active slot, first evict from
/// the index every entry of the slot the rotation will overwrite; then
/// append, and on success insert the new segment. An append failure
/// leaves the pool untouched and is reported to the caller, who logs it
/// and carries on; an eviction already performed stands, mirroring the
/// writer's order of operations.
pub fn handle_write_request(pool: &mut ChunkPool, index: &mut SegmentIndex, req: &WriteRequest)
    -> (r: Result<(u64, SegmentLocation), NvrError>)
    requires
        old(pool)@.wf(),
        old(index)@.wf(),
        old(index)@.counter < u64::MAX,
    ensures
        final(pool)@.wf(),
        final(index)@.wf(),
        ({
            let m0 = old(pool)@;
            let dl = req.data@.len() as int;
            let evicts = spec_append_rotates(m0, dl);
            let nxt = (((m0.write_idx + 1) % (m0.slots.len() as int))) as usize;
            let evicted = if evicts {
                old(index)@.entries.filter(|m: MetaModel| m.location.pool_idx != nxt)
            } else {
                old(index)@.entries
            };
            &&& (r is Err <==> spec_append_fails(m0, dl))
            &&& (r is Err ==> final(pool)@ == m0 && final(index)@.entries == evicted
                && final(index)@.counter == old(index)@.counter)
            &&& (r matches Ok(out) ==> {
                &&& spec_append_ok(m0, final(pool)@, req.camera_id@, req.start_ts, req.end_ts,
                req.data@)
                &&& out.0 == old(index)@.counter
                &&& out.1 == spec_append_loc(m0, dl)
                &&& final(index)@.counter == old(index)@.counter + 1
                &&& final(index)@.entries == evicted.push(
                    MetaModel {
                        segment_id: old(index)@.counter,
                        camera_id: req.camera_id@,
                        start_ts: req.start_ts,
                        end_ts: req.end_ts,
                        location: spec_append_loc(m0, dl),
                    },
                )
            })
        }),
{
    let st = pool.status();
    let used = st.1;
    let cap = st.2;
    let n = req.data.len();
    proof {
        assert(old(pool)@.slots[old(pool)@.write_idx].body.len() <= old(pool)@.capacity);
        assert(st.0 < old(pool)@.slots.len());
    }
    let evicts = used + 40 > cap || (n as u64) > cap - (used + 40);
    if evicts {
        let count = pool.pool_count();
        proof {
            assert(st.0 < count);
        }
        let nxt = (st.0 + 1) % count;
        index.evict_pool(nxt);
    }
    match pool.append(req.camera_id.as_str(), req.start_ts, req.end_ts, req.data.as_slice()) {
        Ok(loc) => {
            let id = index.insert(req.camera_id.as_str(), req.start_ts, req.end_ts, loc);
            Ok((id, loc))
        },
        Err(e) => Err(e),
    }
}

/// Lifecycle of the writer task. It starts recovering the index from the
/// pool scan, serves requests until the senders hang up, drains what was
/// already queued, and stops.
#[derive(Debug, Clone, Copy, PartialEq, Eq, Structural)]
pub enum WriterPhase {
    Init,
    Recovering,
    Running,
    Draining,
    Stopped,
}

/// What happens to the writer task.
#[derive(Debug, Clone, Copy, PartialEq, Eq, Structural)]
pub enum WriterEvent {
    TaskStarted,
    RecoveryDone,
    SenderClosed,
    QueueEmptied,
}

/// The writer lifecycle steps forward only along
/// `Init → Recovering → Running → Draining → Stopped`; any other event is
/// ignored in place.
pub open spec fn spec_writer_step(p: WriterPhase, ev: WriterEvent) -> WriterPhase {
    match (p, ev) {
        (WriterPhase::Init, WriterEvent::TaskStarted) => WriterPhase::Recovering,
        (WriterPhase::Recovering, WriterEvent::RecoveryDone) => WriterPhase::Running,
        (WriterPhase::Running, WriterEvent::SenderClosed) => WriterPhase::Draining,
        (WriterPhase::Draining, WriterEvent::QueueEmptied) => WriterPhase::Stopped,
        _ => p,
    }
}

impl WriterPhase {
    /// Advance the lifecycle on an event.
    pub fn advance(self, ev: WriterEvent) -> (r: WriterPhase)
        ensures
            r == spec_writer_step(self, ev),
    {
        match (self, ev) {
            (WriterPhase::Init, WriterEvent::TaskStarted) => WriterPhase::Recovering,
            (WriterPhase::Recovering, WriterEvent::RecoveryDone) => WriterPhase::Running,
            (WriterPhase::Running, WriterEvent::SenderClosed) => WriterPhase::Draining,
            (WriterPhase::Draining, WriterEvent::QueueEmptied) => WriterPhase::Stopped,
            (p, _) => p,
        }
    }
}

} // verus!
