//! Playback export: retrieve recorded video for a camera in a time range.
//!
//! The segments overlapping the range are looked up in the index and their
//! raw MPEG-TS payloads are read from the pool and concatenated in
//! `(start_ts, segment_id)` order. The embedding program writes the bytes
//! to the output file or HTTP response, holding a read guard on each slot
//! it reads from.

use vstd::prelude::*;

use crate::chunk_pool::{ChunkPool, PoolModel};
use crate::error::NvrError;
use crate::index::{spec_meta_le, spec_meta_views, MetaModel, SegmentIndex};

verus! {

/// Ascending `(start_ts, segment_id)` order.
pub open spec fn spec_sorted_metas(s: Seq<MetaModel>) -> bool {
    forall|k: int, l: int| 0 <= k < l < s.len() ==> spec_meta_le(#[trigger] s[k], #[trigger] s[l])
}

/// The concatenation of the payloads of the given segments, in order;
/// a segment whose location resolves to nothing contributes nothing.
pub open spec fn spec_concat_payloads(m: PoolModel, metas: Seq<MetaModel>) -> Seq<u8>
    decreases metas.len(),
{
    if metas.len() == 0 {
        Seq::<u8>::empty()
    } else {
        (match m.payload_at(metas[0].location) {
            Some(p) => p,
            None => Seq::<u8>::empty(),
        }) + spec_concat_payloads(m, metas.drop_first())
    }
}

/// Two sequences with the same multiset hold the same elements.
proof fn lemma_same_multiset_same_elements<A>(a: Seq<A>, b: Seq<A>)
    requires
        a.to_multiset() == b.to_multiset(),
    ensures
        forall|x: A| a.contains(x) <==> b.contains(x),
{
    broadcast use vstd::seq_lib::group_to_multiset_ensures;

    assert forall|x: A| a.contains(x) <==> b.contains(x) by {
        assert(a.contains(x) <==> a.to_multiset().count(x) > 0);
        assert(b.contains(x) <==> b.to_multiset().count(x) > 0);
    }
}

/// Export the segments of `camera_id` overlapping `[from, to]` (half-open
/// overlap: a segment ending exactly at `from` or starting exactly at `to`
/// is excluded). Succeeds exactly when the range holds at least one
/// segment and every one of their locations resolves in the pool; then the
/// result is the concatenation of their payloads in ascending
/// `(start_ts, segment_id)` order, together with how many segments it
/// spans.
pub fn export_range(
    pool: &ChunkPool,
    index: &SegmentIndex,
    camera_id: &str,
    from: i64,
    to: i64,
) -> (r: Result<(Vec<u8>, usize), NvrError>)
    requires
        pool@.wf(),
        index@.wf(),
    ensures
        ({
            let want = index@.entries.filter(
                |m: MetaModel| m.camera_id == camera_id@ && m.start_ts < to && m.end_ts > from,
            );
            &&& (r is Ok <==> want.len() > 0 && (forall|k: int|
                0 <= k < want.len() ==> pool@.payload_at(
                    (#[trigger] want[k]).location,
                ) is Some))
            &&& (r matches Err(e) ==> e is Storage)
            &&& (r matches Ok(out) ==> {
                &&& out.1 == want.len()
                &&& exists|ordered: Seq<MetaModel>|
                    {
                        &&& #[trigger] ordered.to_multiset() == want.to_multiset()
                        &&& spec_sorted_metas(ordered)
                        &&& out.0@ == spec_concat_payloads(pool@, ordered)
                    }
            })
        }),
{
    let ghost want = index@.entries.filter(
        |m: MetaModel| m.camera_id == camera_id@ && m.start_ts < to && m.end_ts > from,
    );
    let segs = index.segments_in_range(camera_id, from, to);
    if segs.len() == 0 {
        proof {
            broadcast use vstd::seq_lib::group_to_multiset_ensures;

            assert(spec_meta_views(segs@).to_multiset() == want.to_multiset());
            assert(want.len() == 0);
        }
        return Err(NvrError::Storage("no segments found for camera in range".to_owned()));
    }
    let ghost ordered = spec_meta_views(segs@);
    let mut body: Vec<u8> = Vec::new();
    let mut k: usize = 0;
    proof {
        broadcast use vstd::seq_lib::group_to_multiset_ensures;

        assert(want.len() == want.to_multiset().len());
        assert(ordered.len() == ordered.to_multiset().len());
        assert(want.len() == ordered.len());
    }
    while k < segs.len()
        invariant
            pool@.wf(),
            k <= segs@.len(),
            ordered == spec_meta_views(segs@),
            ordered.len() == segs@.len(),
            want == index@.entries.filter(
                |m: MetaModel| m.camera_id == camera_id@ && m.start_ts < to && m.end_ts > from,
            ),
            ordered.to_multiset() == want.to_multiset(),
            want.len() == ordered.len(),
            segs@.len() > 0,
            body@ == spec_concat_payloads(pool@, ordered.take(k as int)),
            forall|j: int|
                0 <= j < k ==> pool@.payload_at((#[trigger] ordered[j]).location) is Some,
        decreases segs@.len() - k,
    {
        let seg = segs.get(k).unwrap();
        match pool.read_segment_data(&seg.location) {
            Ok(data) => {
                let ghost body0 = body@;
                let mut d = data;
                let ghost dv = d@;
                body.append(&mut d);
                proof {
                    lemma_concat_payloads_snoc(pool@, ordered, k as int);
                    assert(ordered[k as int].location == seg.location);
                    assert(body@ =~= spec_concat_payloads(pool@, ordered.take(k + 1)));
                }
            },
            Err(e) => {
                proof {
                    lemma_same_multiset_same_elements(ordered, want);
                    assert(ordered.contains(ordered[k as int]));
                    let bad = ordered[k as int];
                    let i = choose|i: int| 0 <= i < want.len() && want[i] == bad;
                    assert(pool@.payload_at(want[i].location) is None);
                }
                return Err(e);
            },
        }
        k = k + 1;
    }
    proof {
        assert(ordered.take(ordered.len() as int) =~= ordered);
        lemma_same_multiset_same_elements(ordered, want);
        assert forall|j: int| 0 <= j < want.len() implies pool@.payload_at(
            (#[trigger] want[j]).location,
        ) is Some by {
            assert(want.contains(want[j]));
            assert(ordered.contains(want[j]));
            let i = choose|i: int| 0 <= i < ordered.len() && ordered[i] == want[j];
            assert(pool@.payload_at(ordered[i].location) is Some);
        }
        broadcast use vstd::seq_lib::group_to_multiset_ensures;

        assert(want.len() == want.to_multiset().len());
        assert(ordered.len() == ordered.to_multiset().len());
        assert(want.len() == ordered.len());
        assert forall|k2: int, l2: int| 0 <= k2 < l2 < ordered.len() implies spec_meta_le(
            #[trigger] ordered[k2],
            #[trigger] ordered[l2],
        ) by {
            assert(ordered[k2] == segs@[k2]@);
            assert(ordered[l2] == segs@[l2]@);
        }
        assert(spec_sorted_metas(ordered));
        assert(ordered.to_multiset() == want.to_multiset() && spec_sorted_metas(ordered)
            && body@ == spec_concat_payloads(pool@, ordered));
    }
    let count = segs.len();
    Ok((body, count))
}

/// Extending the exported prefix by one segment appends that segment's
/// payload.
proof fn lemma_concat_payloads_snoc(m: PoolModel, metas: Seq<MetaModel>, k: int)
    requires
        0 <= k < metas.len(),
    ensures
        spec_concat_payloads(m, metas.take(k + 1)) == spec_concat_payloads(m, metas.take(k)) + (
        match m.payload_at(metas[k].location) {
            Some(p) => p,
            None => Seq::<u8>::empty(),
        }),
    decreases k,
{
    let a = metas.take(k + 1);
    let b = metas.take(k);
    if k == 0 {
        assert(a.drop_first() =~= Seq::<MetaModel>::empty());
        assert(b =~= Seq::<MetaModel>::empty());
        assert(spec_concat_payloads(m, a.drop_first()) =~= Seq::<u8>::empty());
        assert(a[0] == metas[0]);
        assert(spec_concat_payloads(m, a) =~= spec_concat_payloads(m, b) + (
        match m.payload_at(metas[0].location) {
            Some(p) => p,
            None => Seq::<u8>::empty(),
        }));
    } else {
        lemma_concat_payloads_snoc(m, metas.drop_first(), k - 1);
        assert(a.drop_first() =~= metas.drop_first().take(k));
        assert(b.drop_first() =~= metas.drop_first().take(k - 1));
        assert(a[0] == metas[0] && b[0] == metas[0]);
        assert(metas.drop_first()[k - 1] == metas[k]);
        assert(spec_concat_payloads(m, a) =~= spec_concat_payloads(m, b) + (
        match m.payload_at(metas[k].location) {
            Some(p) => p,
            None => Seq::<u8>::empty(),
        }));
    }
}

} // verus!
