//! The segment index: maps `(camera, time range)` to record locations.
//!
//! The index lives in memory during a recording session but survives
//! restarts all the same: on startup the pool files are scanned and the
//! index is rebuilt from the record headers embedded in the data stream,
//! with fresh segment ids. Entries are kept in insertion order; queries
//! return copies ordered by `(start_ts, segment_id)`.

use vstd::prelude::*;

use crate::chunk_pool::{ScannedRecord, SegmentLocation};

verus! {

/// Metadata about a single recorded segment, stored in the index.
#[derive(Debug)]
pub struct SegmentMeta {
    pub segment_id: u64,
    pub camera_id: String,
    pub start_ts: i64,
    pub end_ts: i64,
    pub location: SegmentLocation,
}

/// The mathematical content of a [`SegmentMeta`].
pub struct MetaModel {
    pub segment_id: u64,
    pub camera_id: Seq<char>,
    pub start_ts: i64,
    pub end_ts: i64,
    pub location: SegmentLocation,
}

impl View for SegmentMeta {
    type V = MetaModel;

    open spec fn view(&self) -> MetaModel {
        MetaModel {
            segment_id: self.segment_id,
            camera_id: self.camera_id@,
            start_ts: self.start_ts,
            end_ts: self.end_ts,
            location: self.location,
        }
    }
}

impl Clone for SegmentMeta {
    fn clone(&self) -> (r: Self)
        ensures
            r@ == self@,
    {
        SegmentMeta {
            segment_id: self.segment_id,
            camera_id: self.camera_id.clone(),
            start_ts: self.start_ts,
            end_ts: self.end_ts,
            location: self.location,
        }
    }
}

/// The views of a sequence of index entries.
pub open spec fn spec_meta_views(s: Seq<SegmentMeta>) -> Seq<MetaModel> {
    s.map_values(|m: SegmentMeta| m@)
}

/// Query order: ascending `(start_ts, segment_id)`.
pub open spec fn spec_meta_le(a: MetaModel, b: MetaModel) -> bool {
    a.start_ts < b.start_ts || (a.start_ts == b.start_ts && a.segment_id <= b.segment_id)
}

/// The state of the index: its entries in insertion order and the next
/// segment id.
pub struct IndexModel {
    pub entries: Seq<MetaModel>,
    pub counter: u64,
}

/// In-memory index of all live segments across the global pool.
pub struct SegmentIndex {
    entries: Vec<SegmentMeta>,
    segment_counter: u64,
}

impl View for SegmentIndex {
    type V = IndexModel;

    closed spec fn view(&self) -> IndexModel {
        IndexModel { entries: spec_meta_views(self.entries@), counter: self.segment_counter }
    }
}

impl Default for SegmentIndex {
    fn default() -> (r: Self)
        ensures
            r@.entries == Seq::<MetaModel>::empty(),
            r@.counter == 0,
            r@.wf(),
    {
        SegmentIndex::new()
    }
}

impl IndexModel {
    /// Ids were handed out in insertion order and stay below the counter.
    pub open spec fn wf(self) -> bool {
        &&& forall|k: int| 0 <= k < self.entries.len() ==> (#[trigger] self.entries[k]).segment_id
            < self.counter
        &&& forall|k: int, l: int|
            0 <= k < l < self.entries.len() ==> (#[trigger] self.entries[k]).segment_id < (
            #[trigger] self.entries[l]).segment_id
    }
}

impl SegmentIndex {
    pub fn new() -> (r: Self)
        ensures
            r@.entries == Seq::<MetaModel>::empty(),
            r@.counter == 0,
            r@.wf(),
    {
        let r = SegmentIndex { entries: Vec::new(), segment_counter: 0 };
        proof {
            assert(spec_meta_views(r.entries@) =~= Seq::<MetaModel>::empty());
        }
        r
    }

    /// Insert a new segment and hand out the next id.
    pub fn insert(&mut self, camera_id: &str, start_ts: i64, end_ts: i64, location:
        SegmentLocation) -> (r: u64)
        requires
            old(self)@.wf(),
            old(self)@.counter < u64::MAX,
        ensures
            final(self)@.wf(),
            r == old(self)@.counter,
            final(self)@.counter == old(self)@.counter + 1,
            final(self)@.entries == old(self)@.entries.push(
                MetaModel {
                    segment_id: old(self)@.counter,
                    camera_id: camera_id@,
                    start_ts,
                    end_ts,
                    location,
                },
            ),
    {
        let id = self.segment_counter;
        self.segment_counter = self.segment_counter + 1;
        let meta = SegmentMeta {
            segment_id: id,
            camera_id: camera_id.to_owned(),
            start_ts,
            end_ts,
            location,
        };
        self.entries.push(meta);
        proof {
            let m = MetaModel { segment_id: id, camera_id: camera_id@, start_ts, end_ts, location };
            assert(spec_meta_views(self.entries@) =~= spec_meta_views(old(self).entries@).push(m));
            let olds = old(self)@.entries;
            let news = self@.entries;
            assert forall|k: int| 0 <= k < news.len() implies (#[trigger] news[k]).segment_id
                < self@.counter by {
                if k < olds.len() {
                    assert(news[k] == olds[k]);
                    assert(olds[k].segment_id < old(self)@.counter);
                }
            }
            assert forall|k: int, l: int| 0 <= k < l < news.len() implies (
            #[trigger] news[k]).segment_id < (#[trigger] news[l]).segment_id by {
                if l < olds.len() {
                    assert(news[k] == olds[k] && news[l] == olds[l]);
                } else {
                    assert(news[k] == olds[k]);
                    assert(olds[k].segment_id < old(self)@.counter);
                }
            }
        }
        id
    }

    /// Drop every entry whose record lives in `pool_idx`; called just
    /// before that slot is rotated into and overwritten. Afterwards no
    /// entry points into the slot; all other entries stay, in order.
    pub fn evict_pool(&mut self, pool_idx: usize)
        requires
            old(self)@.wf(),
        ensures
            final(self)@.wf(),
            final(self)@.counter == old(self)@.counter,
            final(self)@.entries == old(self)@.entries.filter(
                |m: MetaModel| m.location.pool_idx != pool_idx,
            ),
            forall|k: int|
                0 <= k < final(self)@.entries.len()
                    ==> (#[trigger] final(self)@.entries[k]).location.pool_idx != pool_idx,
    {
        let mut kept: Vec<SegmentMeta> = Vec::new();
        let mut i: usize = 0;
        proof {
            reveal(Seq::filter);
            assert(spec_meta_views(self.entries@).subrange(0, 0) =~= Seq::<MetaModel>::empty());
            assert(spec_meta_views(kept@) =~= Seq::<MetaModel>::empty());
        }
        while i < self.entries.len()
            invariant
                i <= self.entries@.len(),
                self.entries@ == old(self).entries@,
                self.segment_counter == old(self).segment_counter,
                spec_meta_views(kept@) == spec_meta_views(self.entries@).subrange(
                    0,
                    i as int,
                ).filter(|m: MetaModel| m.location.pool_idx != pool_idx),
            decreases self.entries@.len() - i,
        {
            let ghost views = spec_meta_views(self.entries@);
            let ghost prefix = views.subrange(0, i as int);
            let e = self.entries.get(i).unwrap();
            if e.location.pool_idx != pool_idx {
                kept.push(e.clone());
            }
            proof {
                reveal(Seq::filter);
                let pred = |m: MetaModel| m.location.pool_idx != pool_idx;
                assert(views.subrange(0, i + 1) =~= prefix.push(views[i as int]));
                assert(prefix.push(views[i as int]).drop_last() =~= prefix);
                if e.location.pool_idx != pool_idx {
                    assert(spec_meta_views(kept@) =~= prefix.filter(pred).push(views[i as int]));
                }
            }
            i = i + 1;
        }
        proof {
            assert(spec_meta_views(self.entries@).subrange(
                0,
                self.entries@.len() as int,
            ) =~= spec_meta_views(self.entries@));
        }
        self.entries = kept;
        proof {
            broadcast use vstd::seq_lib::group_filter_ensures;

            let fin = final(self)@.entries;
            let pred = |m: MetaModel| m.location.pool_idx != pool_idx;
            assert forall|k: int| 0 <= k < fin.len() implies (#[trigger] fin[k]).location.pool_idx
                != pool_idx by {
                assert(pred(fin[k]));
            }
            assert forall|k: int, l: int| 0 <= k < l < fin.len() implies (
            #[trigger] fin[k]).segment_id < (#[trigger] fin[l]).segment_id by {
                lemma_filter_keeps_order(old(self)@.entries, pred, k, l);
            }
            assert forall|k: int| 0 <= k < fin.len() implies (#[trigger] fin[k]).segment_id
                < final(self)@.counter by {
                lemma_filter_element_from(old(self)@.entries, pred, k);
                let i = choose|i: int|
                    0 <= i < old(self)@.entries.len() && old(self)@.entries[i] == old(
                        self,
                    )@.entries.filter(pred)[k];
                assert(old(self)@.entries[i].segment_id < old(self)@.counter);
            }
        }
    }

    /// The id the next inserted segment will receive.
    pub fn next_segment_id(&self) -> (r: u64)
        ensures
            r == self@.counter,
    {
        self.segment_counter
    }

    /// Total number of indexed segments.
    pub fn len(&self) -> (r: usize)
        ensures
            r == self@.entries.len(),
    {
        self.entries.len()
    }

    pub fn is_empty(&self) -> (r: bool)
        ensures
            r == (self@.entries.len() == 0),
    {
        self.entries.is_empty()
    }

    /// Copies of all entries, in insertion order.
    pub fn all_segments(&self) -> (r: Vec<SegmentMeta>)
        ensures
            spec_meta_views(r@) == self@.entries,
    {
        let mut out: Vec<SegmentMeta> = Vec::new();
        let mut i: usize = 0;
        while i < self.entries.len()
            invariant
                i <= self.entries@.len(),
                spec_meta_views(out@) == spec_meta_views(self.entries@).subrange(0, i as int),
            decreases self.entries@.len() - i,
        {
            let ghost out0 = out@;
            let e = self.entries.get(i).unwrap().clone();
            proof {
                assert(e@ == self.entries@[i as int]@);
            }
            out.push(e);
            proof {
                assert(out@ == out0.push(e));
                assert(spec_meta_views(out0.push(e)) =~= spec_meta_views(out0).push(e@));
                assert(spec_meta_views(out@) =~= spec_meta_views(self.entries@).subrange(
                    0,
                    i + 1,
                ));
            }
            i = i + 1;
        }
        proof {
            assert(spec_meta_views(self.entries@).subrange(
                0,
                self.entries@.len() as int,
            ) =~= spec_meta_views(self.entries@));
        }
        out
    }
}

/// Whether `a` must come strictly after `b` in `(start_ts, segment_id)`
/// order.
fn meta_after(a: &SegmentMeta, b: &SegmentMeta) -> (r: bool)
    ensures
        r == !spec_meta_le(a@, b@),
{
    a.start_ts > b.start_ts || (a.start_ts == b.start_ts && a.segment_id > b.segment_id)
}

/// Sort index entries by `(start_ts, segment_id)`.
fn sort_metas(entries: Vec<SegmentMeta>) -> (r: Vec<SegmentMeta>)
    ensures
        r@.len() == entries@.len(),
        spec_meta_views(r@).to_multiset() == spec_meta_views(entries@).to_multiset(),
        forall|k: int, l: int|
            0 <= k < l < r@.len() ==> spec_meta_le(#[trigger] r@[k]@, #[trigger] r@[l]@),
{
    let ghost orig = entries@;
    let mut v = entries;
    if v.len() <= 1 {
        return v;
    }
    let mut i: usize = 1;
    while i < v.len()
        invariant
            1 <= i <= v@.len(),
            v@.len() == orig.len(),
            spec_meta_views(v@).to_multiset() == spec_meta_views(orig).to_multiset(),
            forall|k: int, l: int|
                0 <= k < l < i ==> spec_meta_le(#[trigger] v@[k]@, #[trigger] v@[l]@),
        decreases v@.len() - i,
    {
        let ghost v0 = v@;
        let x = v.remove(i);
        proof {
            broadcast use vstd::seq_lib::group_to_multiset_ensures;

            assert(spec_meta_views(v@) =~= spec_meta_views(v0).remove(i as int));
            assert(spec_meta_views(v0)[i as int] == x@);
            assert(spec_meta_views(v@).to_multiset() == spec_meta_views(
                v0,
            ).to_multiset().remove(x@));
        }
        let ghost v1 = v@;
        let mut j: usize = i;
        while j > 0 && meta_after(v.get(j - 1).unwrap(), &x)
            invariant
                j <= i,
                i < v1.len() + 1,
                v@ == v1,
                v1.len() + 1 == orig.len(),
                forall|k: int| j <= k < i ==> !spec_meta_le(#[trigger] v1[k]@, x@),
            decreases j,
        {
            j = j - 1;
        }
        v.insert(j, x);
        proof {
            broadcast use vstd::seq_lib::group_to_multiset_ensures;

            assert(spec_meta_views(v@) =~= spec_meta_views(v1).insert(j as int, x@));
            crate::chunk_pool::lemma_to_multiset_insert(spec_meta_views(v1), j as int, x@);
            assert(spec_meta_views(v0).to_multiset().contains(x@));
            assert(spec_meta_views(v@).to_multiset() =~= spec_meta_views(v0).to_multiset());
            assert forall|k: int, l: int| 0 <= k < l < i + 1 implies spec_meta_le(
                #[trigger] v@[k]@,
                #[trigger] v@[l]@,
            ) by {
                assert(forall|k: int| 0 <= k < j ==> v@[k] == v1[k]);
                assert(v@[j as int] == x);
                assert(forall|k: int| j < k <= i ==> v@[k] == v1[k - 1]);
                if j > 0 {
                    assert(spec_meta_le(v1[j - 1]@, x@));
                }
            }
        }
        i = i + 1;
    }
    v
}

/// The index entry rebuilt from one scanned record.
pub open spec fn spec_meta_of_scanned(s: crate::chunk_pool::ScannedModel, id: u64) -> MetaModel {
    MetaModel {
        segment_id: id,
        camera_id: s.camera_id,
        start_ts: s.start_ts,
        end_ts: s.end_ts,
        location: SegmentLocation {
            pool_idx: s.pool_idx,
            pool_id: s.pool_id,
            record_offset: s.record_offset,
            record_size: s.record_size,
        },
    }
}

impl SegmentIndex {
    /// Copies of all segments of one camera, in ascending
    /// `(start_ts, segment_id)` order.
    pub fn segments_for_camera(&self, camera_id: &str) -> (r: Vec<SegmentMeta>)
        requires
            self@.wf(),
        ensures
            ({
                let want = self@.entries.filter(|m: MetaModel| m.camera_id == camera_id@);
                &&& r@.len() == want.len()
                &&& spec_meta_views(r@).to_multiset() == want.to_multiset()
                &&& forall|k: int, l: int|
                    0 <= k < l < r@.len() ==> spec_meta_le(#[trigger] r@[k]@, #[trigger] r@[l]@)
            }),
    {
        let q = camera_id.to_owned();
        let mut picked: Vec<SegmentMeta> = Vec::new();
        let mut i: usize = 0;
        proof {
            reveal(Seq::filter);
            assert(spec_meta_views(self.entries@).subrange(0, 0) =~= Seq::<MetaModel>::empty());
            assert(spec_meta_views(picked@) =~= Seq::<MetaModel>::empty());
        }
        while i < self.entries.len()
            invariant
                i <= self.entries@.len(),
                q@ == camera_id@,
                spec_meta_views(picked@) == spec_meta_views(self.entries@).subrange(
                    0,
                    i as int,
                ).filter(|m: MetaModel| m.camera_id == camera_id@),
            decreases self.entries@.len() - i,
        {
            let ghost views = spec_meta_views(self.entries@);
            let ghost prefix = views.subrange(0, i as int);
            let e = self.entries.get(i).unwrap();
            let matches_q = e.camera_id == q;
            if matches_q {
                picked.push(e.clone());
            }
            proof {
                reveal(Seq::filter);
                let pred = |m: MetaModel| m.camera_id == camera_id@;
                assert(views.subrange(0, i + 1) =~= prefix.push(views[i as int]));
                assert(prefix.push(views[i as int]).drop_last() =~= prefix);
                if matches_q {
                    assert(pred(views[i as int]));
                    assert(spec_meta_views(picked@) =~= prefix.filter(pred).push(views[i as int]));
                } else {
                    assert(!pred(views[i as int]));
                }
            }
            i = i + 1;
        }
        proof {
            broadcast use vstd::seq_lib::group_to_multiset_ensures;

            assert(spec_meta_views(self.entries@).subrange(
                0,
                self.entries@.len() as int,
            ) =~= spec_meta_views(self.entries@));
        }
        sort_metas(picked)
    }

    /// Copies of the segments of one camera that overlap the half-open
    /// window: `start_ts < to` and `end_ts > from`, so a segment ending
    /// exactly at `from` or starting exactly at `to` is excluded. Ordered
    /// by ascending `(start_ts, segment_id)`.
    pub fn segments_in_range(&self, camera_id: &str, from: i64, to: i64) -> (r: Vec<SegmentMeta>)
        requires
            self@.wf(),
        ensures
            ({
                let want = self@.entries.filter(
                    |m: MetaModel| m.camera_id == camera_id@ && m.start_ts < to && m.end_ts
                        > from,
                );
                &&& r@.len() == want.len()
                &&& spec_meta_views(r@).to_multiset() == want.to_multiset()
                &&& forall|k: int, l: int|
                    0 <= k < l < r@.len() ==> spec_meta_le(#[trigger] r@[k]@, #[trigger] r@[l]@)
            }),
    {
        let q = camera_id.to_owned();
        let mut picked: Vec<SegmentMeta> = Vec::new();
        let mut i: usize = 0;
        proof {
            reveal(Seq::filter);
            assert(spec_meta_views(self.entries@).subrange(0, 0) =~= Seq::<MetaModel>::empty());
            assert(spec_meta_views(picked@) =~= Seq::<MetaModel>::empty());
        }
        while i < self.entries.len()
            invariant
                i <= self.entries@.len(),
                q@ == camera_id@,
                spec_meta_views(picked@) == spec_meta_views(self.entries@).subrange(
                    0,
                    i as int,
                ).filter(
                    |m: MetaModel| m.camera_id == camera_id@ && m.start_ts < to && m.end_ts
                        > from,
                ),
            decreases self.entries@.len() - i,
        {
            let ghost views = spec_meta_views(self.entries@);
            let ghost prefix = views.subrange(0, i as int);
            let e = self.entries.get(i).unwrap();
            let hit = e.camera_id == q && e.start_ts < to && e.end_ts > from;
            if hit {
                picked.push(e.clone());
            }
            proof {
                reveal(Seq::filter);
                let pred = |m: MetaModel| m.camera_id == camera_id@ && m.start_ts < to
                    && m.end_ts > from;
                assert(views.subrange(0, i + 1) =~= prefix.push(views[i as int]));
                assert(prefix.push(views[i as int]).drop_last() =~= prefix);
                if hit {
                    assert(pred(views[i as int]));
                    assert(spec_meta_views(picked@) =~= prefix.filter(pred).push(views[i as int]));
                } else {
                    assert(!pred(views[i as int]));
                }
            }
            i = i + 1;
        }
        proof {
            assert(spec_meta_views(self.entries@).subrange(
                0,
                self.entries@.len() as int,
            ) =~= spec_meta_views(self.entries@));
        }
        sort_metas(picked)
    }

    /// Throw the index away and rebuild it from records recovered by a
    /// scan, reassigning fresh segment ids starting at zero in the given
    /// (temporal) order.
    pub fn rebuild_from_scanned(&mut self, records: Vec<ScannedRecord>)
        ensures
            final(self)@.wf(),
            final(self)@.counter == records@.len(),
            final(self)@.entries.len() == records@.len(),
            forall|k: int|
                0 <= k < records@.len() ==> final(self)@.entries[k] == spec_meta_of_scanned(
                    records@[k]@,
                    k as u64,
                ),
    {
        let mut fresh: Vec<SegmentMeta> = Vec::new();
        let mut i: usize = 0;
        while i < records.len()
            invariant
                i <= records@.len(),
                fresh@.len() == i,
                forall|k: int|
                    0 <= k < i ==> spec_meta_views(fresh@)[k] == spec_meta_of_scanned(
                        records@[k]@,
                        k as u64,
                    ),
            decreases records@.len() - i,
        {
            let rec = records.get(i).unwrap();
            let meta = SegmentMeta {
                segment_id: i as u64,
                camera_id: rec.camera_id.clone(),
                start_ts: rec.start_ts,
                end_ts: rec.end_ts,
                location: SegmentLocation {
                    pool_idx: rec.pool_idx,
                    pool_id: rec.pool_id,
                    record_offset: rec.record_offset,
                    record_size: rec.record_size,
                },
            };
            let ghost f0 = fresh@;
            fresh.push(meta);
            proof {
                assert forall|k: int| 0 <= k < i + 1 implies spec_meta_views(fresh@)[k]
                    == spec_meta_of_scanned(records@[k]@, k as u64) by {
                    assert(spec_meta_views(fresh@)[k] == fresh@[k]@);
                    if k < i {
                        assert(fresh@[k] == f0[k]);
                        assert(spec_meta_views(f0)[k] == f0[k]@);
                    } else {
                        assert(fresh@[k] == meta);
                    }
                }
            }
            i = i + 1;
        }
        self.entries = fresh;
        self.segment_counter = records.len() as u64;
    }
}

/// A filtered subsequence keeps the relative order of what it keeps: any
/// two entries of the result appear in the input in the same order, so
/// strictly increasing ids stay strictly increasing.
proof fn lemma_filter_keeps_order(
    s: Seq<MetaModel>,
    pred: spec_fn(MetaModel) -> bool,
    k: int,
    l: int,
)
    requires
        forall|a: int, b: int|
            0 <= a < b < s.len() ==> (#[trigger] s[a]).segment_id < (#[trigger] s[b]).segment_id,
        0 <= k < l < s.filter(pred).len(),
    ensures
        s.filter(pred)[k].segment_id < s.filter(pred)[l].segment_id,
    decreases s.len(),
{
    reveal(Seq::filter);
    broadcast use vstd::seq_lib::group_filter_ensures;

    if s.len() > 0 {
        let butlast = s.drop_last();
        let sub = butlast.filter(pred);
        if pred(s.last()) {
            if l < sub.len() {
                lemma_filter_keeps_order(butlast, pred, k, l);
            } else {
                // l names the final element, which came after every kept one
                assert(s.filter(pred)[l] == s.last());
                assert(k < sub.len());
                assert(s.filter(pred)[k] == sub[k]);
                lemma_filter_element_from(butlast, pred, k);
                let i = choose|i: int| 0 <= i < butlast.len() && butlast[i] == butlast.filter(
                    pred,
                )[k];
                assert(butlast[i] == s[i]);
                assert(s[i] == s.filter(pred)[k]);
                assert(s[i].segment_id < s[s.len() - 1].segment_id);
            }
        } else {
            lemma_filter_keeps_order(butlast, pred, k, l);
        }
    }
}

/// Every element of a filtered sequence is an element of the input with an
/// id no larger than the last input element's id.
proof fn lemma_filter_element_from(s: Seq<MetaModel>, pred: spec_fn(MetaModel) -> bool, k: int)
    requires
        0 <= k < s.filter(pred).len(),
    ensures
        exists|i: int| 0 <= i < s.len() && s[i] == s.filter(pred)[k],
    decreases s.len(),
{
    reveal(Seq::filter);
    broadcast use vstd::seq_lib::group_filter_ensures;

    if s.len() > 0 {
        let butlast = s.drop_last();
        let sub = butlast.filter(pred);
        if pred(s.last()) && k == sub.len() {
            assert(s[s.len() - 1] == s.filter(pred)[k]);
        } else {
            lemma_filter_element_from(butlast, pred, k);
            let i = choose|i: int| 0 <= i < butlast.len() && butlast[i] == butlast.filter(pred)[k];
            assert(s[i] == s.filter(pred)[k]);
        }
    }
}

} // verus!
