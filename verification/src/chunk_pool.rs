//! The global chunk pool: a fixed ring of pool slots shared by all cameras.
//!
//! Each slot mirrors one pre-allocated pool file: its generation number
//! (`pool_id`), its creation timestamp, and the used prefix of its body —
//! always a clean concatenation of records. A single writer appends records
//! to the active slot and rotates to the next slot when the record at hand
//! no longer fits; rotating bumps the slot's generation by the ring length
//! and discards the slot's old contents. The embedding program mirrors every
//! append and rotation to the files themselves, using the byte-exact images
//! this module hands out, and feeds the file contents back in at `open`.

use vstd::prelude::*;

use crate::codec::{
    check_pool_magic,
    lemma_scan_placement,
    check_record_magic,
    decode_camera_field,
    encode_pool_header,
    encode_record,
    lemma_records_size_push,
    lemma_record_bytes_fields,
    lemma_scan_append_record,
    lemma_scan_size_bounds,
    lemma_scan_truncate,
    lemma_subrange_second,
    parse_pool_header,
    spec_body_complete,
    spec_camera_field_of,
    spec_header_created_at,
    spec_header_pool_id,
    spec_header_valid,
    spec_pool_header_bytes,
    spec_records_size,
    spec_scan,
    spec_scan_from,
    spec_zeros,
    RecordModel,
};
use crate::error::NvrError;

verus! {

use vstd::bytes::{spec_u32_from_le_bytes, u32_from_le_bytes, u64_from_le_bytes};
use vstd::slice::{slice_subrange, slice_to_vec};

/// Identifies the physical location of a segment in the pool.
#[derive(Debug, Clone, Copy)]
pub struct SegmentLocation {
    /// Index of the pool slot (0-based).
    pub pool_idx: usize,
    /// Generation number of the slot at the time of the write.
    pub pool_id: u64,
    /// Byte offset of the record magic within the pool file.
    pub record_offset: u64,
    /// Total byte length of the record (header + payload).
    pub record_size: u64,
}

/// A record recovered from scanning a pool body.
#[derive(Debug, Clone)]
pub struct ScannedRecord {
    pub camera_id: String,
    pub start_ts: i64,
    pub end_ts: i64,
    pub pool_idx: usize,
    pub pool_id: u64,
    pub record_offset: u64,
    pub record_size: u64,
}

/// The mathematical content of a [`ScannedRecord`].
pub struct ScannedModel {
    pub camera_id: Seq<char>,
    pub start_ts: i64,
    pub end_ts: i64,
    pub pool_idx: usize,
    pub pool_id: u64,
    pub record_offset: u64,
    pub record_size: u64,
}

impl View for ScannedRecord {
    type V = ScannedModel;

    open spec fn view(&self) -> ScannedModel {
        ScannedModel {
            camera_id: self.camera_id@,
            start_ts: self.start_ts,
            end_ts: self.end_ts,
            pool_idx: self.pool_idx,
            pool_id: self.pool_id,
            record_offset: self.record_offset,
            record_size: self.record_size,
        }
    }
}

/// A scanned record reports exactly the metadata of one record of a slot.
pub open spec fn spec_scanned_matches(
    sm: ScannedModel,
    r: RecordModel,
    pool_idx: usize,
    pool_id: u64,
) -> bool {
    &&& sm.camera_id == r.camera()
    &&& sm.start_ts == r.start_ts
    &&& sm.end_ts == r.end_ts
    &&& sm.pool_idx == pool_idx
    &&& sm.pool_id == pool_id
    &&& sm.record_offset == r.offset
    &&& sm.record_size == r.size()
}

/// The state of one pool slot.
pub struct SlotModel {
    /// Generation number of the slot's current contents.
    pub pool_id: u64,
    /// Creation timestamp recovered from the slot's header; zero for a slot
    /// created or rotated in this process.
    pub created_at: i64,
    /// The used prefix of the slot's on-disk body.
    pub body: Seq<u8>,
}

impl SlotModel {
    /// The records stored in the slot, in on-disk order.
    pub open spec fn records(self) -> Seq<RecordModel> {
        spec_scan(self.body)
    }

    /// Bytes of the slot body in use.
    pub open spec fn bytes_used(self) -> int {
        self.body.len() as int
    }
}

/// The state of the whole pool ring.
pub struct PoolModel {
    /// Size of one slot's data region, excluding the 64-byte header.
    pub capacity: u64,
    /// Index of the slot currently written to.
    pub write_idx: int,
    pub slots: Seq<SlotModel>,
}

impl PoolModel {
    pub open spec fn wf(self) -> bool {
        &&& self.slots.len() > 0
        &&& 0 <= self.write_idx < self.slots.len()
        &&& self.capacity + 64 <= usize::MAX
        &&& forall|i: int|
            0 <= i < self.slots.len() ==> {
                &&& (#[trigger] self.slots[i]).body.len() <= self.capacity
                &&& spec_body_complete(self.slots[i].body)
            }
    }

    /// The payload bytes a location denotes, when it lies wholly inside the
    /// used body of its slot.
    pub open spec fn payload_at(self, loc: SegmentLocation) -> Option<Seq<u8>> {
        if loc.pool_idx < self.slots.len() && loc.record_size >= 40 && loc.record_offset >= 64
            && loc.record_offset + loc.record_size - 64 <= self.slots[
            loc.pool_idx as int
        ].body.len() {
            Some(
                self.slots[loc.pool_idx as int].body.subrange(
                    loc.record_offset - 64 + 40,
                    loc.record_offset + loc.record_size - 64,
                ),
            )
        } else {
            None
        }
    }
}

struct PoolSlot {
    pool_id: u64,
    created_at: i64,
    body: Vec<u8>,
}

/// Manages a ring of `max_pools` pool slots. **Not** thread-safe on its
/// own; the single global writer owns it, and readers see it through the
/// embedding program's shared handle.
pub struct ChunkPool {
    pool_capacity: u64,
    write_idx: usize,
    slots: Vec<PoolSlot>,
}

impl View for ChunkPool {
    type V = PoolModel;

    closed spec fn view(&self) -> PoolModel {
        PoolModel {
            capacity: self.pool_capacity,
            write_idx: self.write_idx as int,
            slots: Seq::new(
                self.slots@.len(),
                |i: int|
                    SlotModel {
                        pool_id: self.slots@[i].pool_id,
                        created_at: self.slots@[i].created_at,
                        body: self.slots@[i].body@,
                    },
            ),
        }
    }
}

// ────────────── read safety ──────────────

/// Per-slot reader counters. The single writer consults them before
/// rotating into a slot; readers hold a guard while they read from one.
/// The embedding program shares one registry between the writer task and
/// all reader tasks.
pub struct PoolReadCounters {
    counters: Vec<usize>,
}

/// Token standing for one acquired read hold on a slot. Hand it back to
/// [`PoolReadCounters::release`] when the read is done, on every path.
#[derive(Debug)]
pub struct PoolReadGuard {
    pub pool_idx: usize,
}

impl View for PoolReadCounters {
    type V = Seq<usize>;

    closed spec fn view(&self) -> Seq<usize> {
        self.counters@
    }
}

impl PoolReadCounters {
    /// Create counters for `n` slots, all zero.
    pub fn new(n: usize) -> (r: Self)
        ensures
            r@.len() == n,
            forall|i: int| 0 <= i < n ==> r@[i] == 0,
    {
        let mut counters: Vec<usize> = Vec::new();
        let mut i: usize = 0;
        while i < n
            invariant
                i <= n,
                counters@.len() == i,
                forall|k: int| 0 <= k < i ==> counters@[k] == 0,
            decreases n - i,
        {
            counters.push(0);
            i = i + 1;
        }
        PoolReadCounters { counters }
    }

    /// Take a read hold on `pool_idx`: its counter goes up by one.
    pub fn acquire(&mut self, pool_idx: usize) -> (g: PoolReadGuard)
        requires
            pool_idx < old(self)@.len(),
            old(self)@[pool_idx as int] < usize::MAX,
        ensures
            final(self)@ == old(self)@.update(
                pool_idx as int,
                (old(self)@[pool_idx as int] + 1) as usize,
            ),
            g.pool_idx == pool_idx,
    {
        let cur = self.counters.remove(pool_idx);
        self.counters.insert(pool_idx, cur + 1);
        proof {
            assert(self.counters@ =~= old(self)@.update(
                pool_idx as int,
                (old(self)@[pool_idx as int] + 1) as usize,
            ));
        }
        PoolReadGuard { pool_idx }
    }

    /// Whether any reader currently holds `pool_idx`.
    pub fn has_readers(&self, pool_idx: usize) -> (r: bool)
        requires
            pool_idx < self@.len(),
        ensures
            r == (self@[pool_idx as int] > 0),
    {
        *self.counters.get(pool_idx).unwrap() > 0
    }

    /// Give back a read hold: the slot's counter goes down by one.
    pub fn release(&mut self, guard: PoolReadGuard)
        requires
            guard.pool_idx < old(self)@.len(),
            old(self)@[guard.pool_idx as int] > 0,
        ensures
            final(self)@ == old(self)@.update(
                guard.pool_idx as int,
                (old(self)@[guard.pool_idx as int] - 1) as usize,
            ),
    {
        let cur = self.counters.remove(guard.pool_idx);
        self.counters.insert(guard.pool_idx, cur - 1);
        proof {
            assert(self.counters@ =~= old(self)@.update(
                guard.pool_idx as int,
                (old(self)@[guard.pool_idx as int] - 1) as usize,
            ));
        }
    }
}

// ────────────── scanning ──────────────

/// Scan one slot body, returning the recovered records and the number of
/// body bytes they cover.
fn scan_body_records(body: &[u8], pool_idx: usize, pool_id: u64) -> (r: (
    Vec<ScannedRecord>,
    usize,
))
    requires
        body@.len() + 64 <= u64::MAX,
    ensures
        ({
            let rs = spec_scan(body@);
            &&& r.1 == spec_records_size(rs)
            &&& r.0@.len() == rs.len()
            &&& forall|k: int|
                0 <= k < rs.len() ==> spec_scanned_matches(r.0@[k]@, rs[k], pool_idx, pool_id)
        }),
{
    let n = body.len();
    let mut out: Vec<ScannedRecord> = Vec::new();
    let mut pos: usize = 0;
    let ghost mut processed: Seq<RecordModel> = Seq::empty();
    loop
        invariant
            n == body@.len(),
            body@.len() + 64 <= u64::MAX,
            pos <= n,
            spec_scan(body@) == processed + spec_scan_from(body@, pos as int),
            spec_records_size(processed) == pos,
            out@.len() == processed.len(),
            forall|k: int|
                0 <= k < processed.len() ==> spec_scanned_matches(
                    out@[k]@,
                    processed[k],
                    pool_idx,
                    pool_id,
                ),
        ensures
            spec_scan_from(body@, pos as int) == Seq::<RecordModel>::empty(),
            pos <= n,
            spec_scan(body@) == processed,
            spec_records_size(processed) == pos,
            out@.len() == processed.len(),
            forall|k: int|
                0 <= k < processed.len() ==> spec_scanned_matches(
                    out@[k]@,
                    processed[k],
                    pool_idx,
                    pool_id,
                ),
        decreases n - pos,
    {
        if n - pos < 40 {
            break ;
        }
        if !check_record_magic(body, pos) {
            break ;
        }
        let data_len = u32_from_le_bytes(slice_subrange(body, pos + 36, pos + 40)) as usize;
        if data_len > n - (pos + 40) {
            proof {
                assert(spec_u32_from_le_bytes(body@.subrange(pos + 36, pos + 40)) as int
                    == data_len);
            }
            break ;
        }
        let camera_id = decode_camera_field(slice_subrange(body, pos + 4, pos + 20));
        let start_ts = u64_from_le_bytes(slice_subrange(body, pos + 20, pos + 28)) as i64;
        let end_ts = u64_from_le_bytes(slice_subrange(body, pos + 28, pos + 36)) as i64;
        let rec = ScannedRecord {
            camera_id,
            start_ts,
            end_ts,
            pool_idx,
            pool_id,
            record_offset: 64 + pos as u64,
            record_size: 40 + data_len as u64,
        };
        proof {
            let ghost p = pos as int;
            let ghost dl = spec_u32_from_le_bytes(body@.subrange(p + 36, p + 40)) as int;
            assert(dl == data_len);
            let ghost srec = spec_scan_from(body@, p)[0];
            assert(spec_scan_from(body@, p) == seq![srec] + spec_scan_from(body@, p + 40 + dl));
            assert(srec.cam_field == body@.subrange(p + 4, p + 20));
            assert(srec.data.len() == dl);
            assert(spec_scanned_matches(rec@, srec, pool_idx, pool_id));
            assert(processed + spec_scan_from(body@, p) =~= processed.push(srec)
                + spec_scan_from(body@, p + 40 + dl));
            lemma_records_size_push(processed, srec);
            processed = processed.push(srec);
        }
        out.push(rec);
        pos = pos + 40 + data_len;
    }
    (out, pos)
}

// ────────────── opening ──────────────

/// View of one optional file image.
pub open spec fn spec_opt_image(img: Option<Vec<u8>>) -> Option<Seq<u8>> {
    match img {
        Some(v) => Some(v@),
        None => None,
    }
}

/// Whether a slot image is adopted at open: it is present and its header
/// is valid.
pub open spec fn spec_image_usable(img: Option<Seq<u8>>) -> bool {
    match img {
        Some(b) => spec_header_valid(b),
        None => false,
    }
}

/// The generation a slot adopts at open: a usable image contributes its
/// stored generation; a missing file starts fresh at the slot index; an
/// image with a bad or overgrown header is treated as empty with
/// generation zero.
pub open spec fn spec_adopted_id(img: Option<Seq<u8>>, i: int) -> u64 {
    match img {
        None => i as u64,
        Some(b) => if spec_image_usable(img) {
            spec_header_pool_id(b)
        } else {
            0
        },
    }
}

/// The creation timestamp a slot adopts at open.
pub open spec fn spec_adopted_created(img: Option<Seq<u8>>) -> i64 {
    match img {
        None => 0,
        Some(b) => if spec_image_usable(img) {
            spec_header_created_at(b)
        } else {
            0
        },
    }
}

/// The body region of a pool-file image: what lies past the 64-byte
/// header, capped at the pool capacity.
pub open spec fn spec_image_body(image: Seq<u8>, capacity: u64) -> Seq<u8> {
    if image.len() <= 64 {
        Seq::<u8>::empty()
    } else if image.len() - 64 >= capacity {
        image.subrange(64, 64 + capacity)
    } else {
        image.subrange(64, image.len() as int)
    }
}

/// The used prefix a slot adopts from its image: the bytes covered by the
/// records a scan of the image body recovers.
pub open spec fn spec_adopted_body(img: Option<Seq<u8>>, capacity: u64) -> Seq<u8> {
    match img {
        None => Seq::<u8>::empty(),
        Some(b) => if spec_image_usable(img) {
            let body = spec_image_body(b, capacity);
            body.subrange(0, spec_records_size(spec_scan(body)))
        } else {
            Seq::<u8>::empty()
        },
    }
}

impl ChunkPool {
    /// Open the ring from the contents of its pool files, one optional
    /// image per slot (`None` for a file that does not exist yet). A slot
    /// with a valid header adopts the header's generation and the records
    /// a scan of its body recovers; any other slot starts empty. Writing
    /// resumes at the first slot carrying the greatest adopted generation,
    /// or at slot zero when no header was valid.
    pub fn open(images: Vec<Option<Vec<u8>>>, pool_size_bytes: u64, max_pools: usize) -> (r:
        Result<ChunkPool, NvrError>)
        ensures
            r is Ok <==> (max_pools > 0 && images@.len() == max_pools && pool_size_bytes + 64
                <= usize::MAX),
            r matches Err(e) ==> e is Config,
            r matches Ok(pool) ==> ({
                let m = pool@;
                let n = max_pools as int;
                &&& m.wf()
                &&& m.capacity == pool_size_bytes
                &&& m.slots.len() == max_pools
                &&& forall|i: int|
                    0 <= i < n ==> {
                        let img = spec_opt_image(images@[i]);
                        &&& (#[trigger] m.slots[i]).pool_id == spec_adopted_id(img, i)
                        &&& m.slots[i].created_at == spec_adopted_created(img)
                        &&& m.slots[i].body == spec_adopted_body(img, pool_size_bytes)
                        &&& (spec_image_usable(img) ==> m.slots[i].records() == spec_scan(
                            spec_image_body(img->0, pool_size_bytes),
                        ))
                    }
                &&& ({
                    let w = m.write_idx;
                    &&& ((exists|i: int|
                        0 <= i < n && #[trigger] spec_image_usable(
                            spec_opt_image(images@[i]),
                        )) ==> {
                        &&& spec_image_usable(spec_opt_image(images@[w]))
                        &&& forall|i: int|
                            0 <= i < n && #[trigger] spec_image_usable(
                                spec_opt_image(images@[i]),
                            ) ==> spec_adopted_id(spec_opt_image(images@[i]), i)
                                <= spec_adopted_id(spec_opt_image(images@[w]), w)
                        &&& forall|i: int|
                            0 <= i < w && #[trigger] spec_image_usable(
                                spec_opt_image(images@[i]),
                            ) ==> spec_adopted_id(spec_opt_image(images@[i]), i)
                                < spec_adopted_id(spec_opt_image(images@[w]), w)
                    })
                    &&& ((forall|i: int|
                        0 <= i < n ==> !(#[trigger] spec_image_usable(
                            spec_opt_image(images@[i]),
                        ))) ==> w == 0)
                })
            }),
    {
        if max_pools == 0 {
            return Err(NvrError::Config("max_pools must be > 0".to_owned()));
        }
        if images.len() != max_pools {
            return Err(NvrError::Config("one image per pool slot is required".to_owned()));
        }
        if pool_size_bytes > usize::MAX as u64 - 64 {
            return Err(NvrError::Config("pool capacity does not fit in memory".to_owned()));
        }
        let ghost n = max_pools as int;
        let mut slots: Vec<PoolSlot> = Vec::new();
        let mut best_idx: usize = 0;
        let mut best_id: u64 = 0;
        let mut any_usable = false;
        let mut i: usize = 0;
        while i < max_pools
            invariant
                max_pools > 0,
                n == max_pools as int,
                images@.len() == max_pools,
                pool_size_bytes + 64 <= usize::MAX,
                i <= max_pools,
                slots@.len() == i,
                forall|k: int|
                    0 <= k < i ==> {
                        let img = spec_opt_image(images@[k]);
                        &&& (#[trigger] slots@[k]).pool_id == spec_adopted_id(img, k)
                        &&& slots@[k].created_at == spec_adopted_created(img)
                        &&& slots@[k].body@ == spec_adopted_body(img, pool_size_bytes)
                        &&& spec_body_complete(slots@[k].body@)
                        &&& slots@[k].body@.len() <= pool_size_bytes
                        &&& (spec_image_usable(img) ==> spec_scan(slots@[k].body@)
                            == spec_scan(spec_image_body(img->0, pool_size_bytes)))
                    },
                any_usable == (exists|k: int|
                    0 <= k < i && spec_image_usable(spec_opt_image(images@[k]))),
                any_usable ==> {
                    &&& best_idx < i
                    &&& spec_image_usable(spec_opt_image(images@[best_idx as int]))
                    &&& best_id == spec_adopted_id(
                        spec_opt_image(images@[best_idx as int]),
                        best_idx as int,
                    )
                    &&& forall|k: int|
                        0 <= k < i && spec_image_usable(spec_opt_image(images@[k]))
                            ==> spec_adopted_id(spec_opt_image(images@[k]), k) <= best_id
                    &&& forall|k: int|
                        0 <= k < best_idx && spec_image_usable(spec_opt_image(images@[k]))
                            ==> spec_adopted_id(spec_opt_image(images@[k]), k) < best_id
                },
                !any_usable ==> best_idx == 0,
            decreases max_pools - i,
        {
            let ghost img = spec_opt_image(images@[i as int]);
            match images.get(i).unwrap() {
                None => {
                    slots.push(PoolSlot { pool_id: i as u64, created_at: 0, body: Vec::new() });
                    proof {
                        assert(spec_scan(Seq::<u8>::empty()) =~= Seq::<RecordModel>::empty());
                    }
                },
                Some(image) => {
                    let mut adopted = false;
                    let mut pid: u64 = 0;
                    let mut created: i64 = 0;
                    match parse_pool_header(image.as_slice()) {
                        Some(h) => {
                            adopted = true;
                            pid = h.0;
                            created = h.1;
                        },
                        None => {},
                    }
                    if adopted {
                        proof {
                            assert(spec_image_usable(img));
                        }
                        let im_len = image.len();
                        let body_end: usize = if im_len <= 64 {
                            64
                        } else if ((im_len - 64) as u64) >= pool_size_bytes {
                            64 + pool_size_bytes as usize
                        } else {
                            im_len
                        };
                        let body_slice = slice_subrange(image.as_slice(), 64, body_end);
                        proof {
                            assert(body_slice@ =~= spec_image_body(img->0, pool_size_bytes));
                        }
                        let scanned = scan_body_records(body_slice, i, pid);
                        proof {
                            lemma_scan_truncate(body_slice@);
                            lemma_scan_size_bounds(body_slice@, 0);
                        }
                        let body = slice_to_vec(slice_subrange(body_slice, 0, scanned.1));
                        slots.push(PoolSlot { pool_id: pid, created_at: created, body });
                        if !any_usable {
                            any_usable = true;
                            best_idx = i;
                            best_id = pid;
                        } else if pid > best_id {
                            best_idx = i;
                            best_id = pid;
                        }
                    } else {
                        proof {
                            assert(!spec_image_usable(img));
                        }
                        slots.push(PoolSlot { pool_id: 0, created_at: 0, body: Vec::new() });
                        proof {
                            assert(spec_scan(Seq::<u8>::empty()) =~= Seq::<RecordModel>::empty());
                        }
                    }
                },
            }
            i = i + 1;
        }
        let write_idx = if any_usable {
            best_idx
        } else {
            0
        };
        let pool = ChunkPool { pool_capacity: pool_size_bytes, write_idx, slots };
        proof {
            assert forall|k: int| 0 <= k < n implies {
                let img = spec_opt_image(images@[k]);
                &&& (#[trigger] pool@.slots[k]).pool_id == spec_adopted_id(img, k)
                &&& pool@.slots[k].created_at == spec_adopted_created(img)
                &&& pool@.slots[k].body == spec_adopted_body(img, pool_size_bytes)
                &&& (spec_image_usable(img) ==> pool@.slots[k].records() == spec_scan(
                    spec_image_body(img->0, pool_size_bytes),
                ))
            } by {
                assert(pool@.slots[k].body == pool.slots@[k].body@);
            }
            assert(pool@.wf());
        }
        Ok(pool)
    }

    /// Sequentially scan all record headers of one pool-file image.
    /// Returns the recovered records (metadata only); an image whose pool
    /// header is missing or invalid yields no records.
    pub fn scan_records(
        image: &[u8],
        pool_idx: usize,
        pool_id: u64,
        pool_capacity: u64,
    ) -> (r: Vec<ScannedRecord>)
        requires
            pool_capacity + 64 <= u64::MAX,
        ensures
            ({
                let rs = if spec_header_valid(image@) {
                    spec_scan(spec_image_body(image@, pool_capacity))
                } else {
                    Seq::<RecordModel>::empty()
                };
                &&& r@.len() == rs.len()
                &&& forall|k: int|
                    0 <= k < rs.len() ==> spec_scanned_matches(r@[k]@, rs[k], pool_idx, pool_id)
            }),
    {
        if image.len() < 64 {
            return Vec::new();
        }
        if !check_pool_magic(image) {
            return Vec::new();
        }
        let im_len = image.len();
        let body_end: usize = if ((im_len - 64) as u64) >= pool_capacity {
            64 + pool_capacity as usize
        } else {
            im_len
        };
        let body_slice = slice_subrange(image, 64, body_end);
        proof {
            assert(body_slice@ =~= spec_image_body(image@, pool_capacity));
        }
        scan_body_records(body_slice, pool_idx, pool_id).0
    }
}


/// Whether appending a record with `data_len` payload bytes makes the
/// writer rotate first: the active slot cannot hold it.
pub open spec fn spec_append_rotates(m0: PoolModel, data_len: int) -> bool {
    m0.slots[m0.write_idx].body.len() + 40 + data_len > m0.capacity
}

/// The slot a record with `data_len` payload bytes lands in.
pub open spec fn spec_append_target(m0: PoolModel, data_len: int) -> int {
    if spec_append_rotates(m0, data_len) {
        (m0.write_idx + 1) % (m0.slots.len() as int)
    } else {
        m0.write_idx
    }
}

/// The location that appending a record with `data_len` payload bytes
/// returns, determined entirely by the pool state before the append.
pub open spec fn spec_append_loc(m0: PoolModel, data_len: int) -> SegmentLocation {
    let rotates = spec_append_rotates(m0, data_len);
    let tgt = spec_append_target(m0, data_len);
    let prev_len: int = if rotates {
        0
    } else {
        m0.slots[tgt].body.len() as int
    };
    SegmentLocation {
        pool_idx: tgt as usize,
        pool_id: if rotates {
            (m0.slots[tgt].pool_id + m0.slots.len()) as u64
        } else {
            m0.slots[tgt].pool_id
        },
        record_offset: (64 + prev_len) as u64,
        record_size: (40 + data_len) as u64,
    }
}

/// When an append fails: the record exceeds the pool capacity, the
/// payload does not fit the record format's length field, or the rotation
/// it would take first has exhausted the generation counter.
pub open spec fn spec_append_fails(m0: PoolModel, data_len: int) -> bool {
    ||| 40 + data_len > m0.capacity
    ||| data_len > u32::MAX
    ||| (spec_append_rotates(m0, data_len) && m0.slots[spec_append_target(m0, data_len)].pool_id
        + m0.slots.len() > u64::MAX)
}

/// How a successful append transforms the pool: the target slot (emptied
/// first on rotation, with its generation grown by the ring length) gains
/// exactly the encoded record at the end of its body, and nothing else
/// changes.
pub open spec fn spec_append_ok(
    m0: PoolModel,
    m1: PoolModel,
    cam: Seq<char>,
    start_ts: i64,
    end_ts: i64,
    data: Seq<u8>,
) -> bool {
    let rotates = spec_append_rotates(m0, data.len() as int);
    let tgt = spec_append_target(m0, data.len() as int);
    let prev_len: int = if rotates {
        0
    } else {
        m0.slots[tgt].body.len() as int
    };
    let rec = RecordModel {
        cam_field: spec_camera_field_of(cam),
        start_ts,
        end_ts,
        data,
        offset: 64 + prev_len,
    };
    &&& m1.capacity == m0.capacity
    &&& m1.slots.len() == m0.slots.len()
    &&& m1.write_idx == tgt
    &&& forall|j: int| 0 <= j < m0.slots.len() && j != tgt ==> m1.slots[j] == m0.slots[j]
    &&& m1.slots[tgt].pool_id == spec_append_loc(m0, data.len() as int).pool_id
    &&& m1.slots[tgt].body == (if rotates {
        rec.bytes()
    } else {
        m0.slots[tgt].body + rec.bytes()
    })
    &&& m1.slots[tgt].records() == (if rotates {
        seq![rec]
    } else {
        m0.slots[tgt].records().push(rec)
    })
}

/// Across any succession of appends, the generation of a fixed slot
/// either stands still or grows by exactly the ring length — the step it
/// takes each time the ring rotates into it. So the generations a slot
/// carries over its lifetime form a strictly increasing sequence in steps
/// of the ring length.
pub proof fn lemma_rotation_advances_generation(
    m0: PoolModel,
    m1: PoolModel,
    cam: Seq<char>,
    start_ts: i64,
    end_ts: i64,
    data: Seq<u8>,
    slot: int,
)
    requires
        spec_append_ok(m0, m1, cam, start_ts, end_ts, data),
        0 <= slot < m0.slots.len(),
        m0.slots[slot].pool_id + m0.slots.len() <= u64::MAX,
    ensures
        m1.slots[slot].pool_id == m0.slots[slot].pool_id || m1.slots[slot].pool_id
            == m0.slots[slot].pool_id + m0.slots.len(),
        spec_append_rotates(m0, data.len() as int) && slot == spec_append_target(
            m0,
            data.len() as int,
        ) ==> m1.slots[slot].pool_id == m0.slots[slot].pool_id + m0.slots.len(),
{
    let tgt = spec_append_target(m0, data.len() as int);
    if slot != tgt {
        assert(m1.slots[slot] == m0.slots[slot]);
    } else {
        assert(m1.slots[tgt].pool_id == spec_append_loc(m0, data.len() as int).pool_id);
    }
}

/// What a later scan recovers of an appended record is exactly what was
/// appended: the camera id (provided its encoding fits the 16-byte field,
/// so nothing was truncated, and does not itself end in NUL, which the
/// padding would swallow), both timestamps, the payload, and the size.
pub proof fn lemma_append_metadata_round_trip(
    m0: PoolModel,
    m1: PoolModel,
    cam: Seq<char>,
    start_ts: i64,
    end_ts: i64,
    data: Seq<u8>,
)
    requires
        spec_append_ok(m0, m1, cam, start_ts, end_ts, data),
        vstd::utf8::encode_utf8(cam).len() <= 16,
        cam.len() == 0 || cam.last() != '\0',
    ensures
        ({
            let tgt = spec_append_target(m0, data.len() as int);
            let recs = m1.slots[tgt].records();
            &&& recs.len() > 0
            &&& recs.last().camera() == cam
            &&& recs.last().start_ts == start_ts
            &&& recs.last().end_ts == end_ts
            &&& recs.last().data == data
            &&& recs.last().size() == 40 + data.len()
        }),
{
    crate::codec::lemma_camera_field_round_trip(cam);
    let tgt = spec_append_target(m0, data.len() as int);
    let recs = m1.slots[tgt].records();
    if spec_append_rotates(m0, data.len() as int) {
        assert(recs.last() == recs[0]);
    } else {
        assert(recs == m0.slots[tgt].records().push(
            RecordModel {
                cam_field: spec_camera_field_of(cam),
                start_ts,
                end_ts,
                data,
                offset: 64 + m0.slots[tgt].body.len() as int,
            },
        ));
    }
}

impl ChunkPool {
    /// Advance the ring to the next slot and take it over: its generation
    /// grows by the ring length, its contents are discarded. The embedding
    /// program must rewrite the slot's on-disk header accordingly, after
    /// waiting (boundedly) for readers of the slot to finish.
    fn rotate(&mut self)
        requires
            old(self)@.wf(),
            ({
                let m0 = old(self)@;
                let w = (m0.write_idx + 1) % (m0.slots.len() as int);
                m0.slots[w].pool_id + m0.slots.len() <= u64::MAX
            }),
        ensures
            ({
                let m0 = old(self)@;
                let m1 = final(self)@;
                let w = (m0.write_idx + 1) % (m0.slots.len() as int);
                &&& m1.wf()
                &&& m1.capacity == m0.capacity
                &&& m1.slots.len() == m0.slots.len()
                &&& m1.write_idx == w
                &&& forall|j: int|
                    0 <= j < m0.slots.len() && j != w ==> m1.slots[j] == m0.slots[j]
                &&& m1.slots[w].pool_id == m0.slots[w].pool_id + m0.slots.len()
                &&& m1.slots[w].created_at == 0
                &&& m1.slots[w].body == Seq::<u8>::empty()
            }),
    {
        let n = self.slots.len();
        let w = (self.write_idx + 1) % n;
        self.write_idx = w;
        let mut slot = self.slots.remove(w);
        proof {
            assert(old(self)@.slots[w as int].pool_id == old(self).slots@[w as int].pool_id);
        }
        slot.pool_id = slot.pool_id + n as u64;
        slot.created_at = 0;
        slot.body.clear();
        self.slots.insert(w, slot);
        proof {
            let m0 = old(self)@;
            let m1 = self@;
            let s0 = old(self).slots@;
            let s1 = self.slots@;
            s0.remove_ensures(w as int);
            s0.remove(w as int).insert_ensures(w as int, s1[w as int]);
            assert forall|j: int| 0 <= j < m0.slots.len() && j != w as int implies m1.slots[j]
                == m0.slots[j] by {
                if j > w as int {
                    assert(s0.remove(w as int)[j - 1] == s0[j]);
                    assert(s1[j] == s0.remove(w as int)[j - 1]);
                }
                assert(s1[j] == s0[j]);
            }
            assert(spec_records_size(spec_scan(Seq::<u8>::empty())) == 0);
            assert(m1.wf());
        }
    }

    /// Append one segment record, rotating first when the active slot
    /// cannot hold it. Fails exactly when the record — header plus payload
    /// — exceeds the pool capacity, when the payload length does not fit
    /// the record format's length field, or when the rotation it would
    /// take first has exhausted the generation counter; nothing changes
    /// then. On success the returned
    /// location denotes the payload just written (reading it back yields
    /// the payload), the target slot's record sequence grows by exactly
    /// this record (emptied first on rotation, with the generation grown
    /// by the ring length), and no other slot changes.
    pub fn append(&mut self, camera_id: &str, start_ts: i64, end_ts: i64, data: &[u8]) -> (r:
        Result<SegmentLocation, NvrError>)
        requires
            old(self)@.wf(),
        ensures
            final(self)@.wf(),
            r is Err <==> spec_append_fails(old(self)@, data@.len() as int),
            r matches Err(e) ==> e is Storage && final(self)@ == old(self)@,
            r matches Ok(loc) ==> ({
                &&& loc == spec_append_loc(old(self)@, data@.len() as int)
                &&& spec_append_ok(
                    old(self)@,
                    final(self)@,
                    camera_id@,
                    start_ts,
                    end_ts,
                    data@,
                )
                &&& final(self)@.payload_at(loc) == Some(data@)
            }),
    {
        let n = data.len();
        if self.pool_capacity < 40 || n as u64 > self.pool_capacity - 40 {
            return Err(NvrError::Storage("segment larger than pool capacity".to_owned()));
        }
        if n > u32::MAX as usize {
            return Err(
                NvrError::Storage("segment larger than the record format allows".to_owned()),
            );
        }
        let record_size: u64 = 40 + n as u64;
        let used = self.slots.get(self.write_idx).unwrap().body.len();
        proof {
            assert(self@.slots[self@.write_idx].body.len() <= self@.capacity);
        }
        if record_size > self.pool_capacity - used as u64 {
            let slot_count = self.slots.len();
            let next = (self.write_idx + 1) % slot_count;
            if self.slots.get(next).unwrap().pool_id > u64::MAX - slot_count as u64 {
                return Err(NvrError::Storage("pool generation counter exhausted".to_owned()));
            }
            self.rotate();
        }
        let ghost m_pre = self@;
        let rec_bytes = encode_record(camera_id, start_ts, end_ts, data);
        let w = self.write_idx;
        let mut slot = self.slots.remove(w);
        let prev_len = slot.body.len();
        let record_offset: u64 = 64 + prev_len as u64;
        let pool_id = slot.pool_id;
        let ghost rec = RecordModel {
            cam_field: spec_camera_field_of(camera_id@),
            start_ts,
            end_ts,
            data: data@,
            offset: 64 + prev_len as int,
        };
        proof {
            assert(rec.wf());
            assert(rec.bytes() == rec_bytes@);
            lemma_scan_append_record(slot.body@, rec);
            lemma_record_bytes_fields(rec);
        }
        let mut rb = rec_bytes;
        slot.body.append(&mut rb);
        self.slots.insert(w, slot);
        let loc = SegmentLocation { pool_idx: w, pool_id, record_offset, record_size };
        proof {
            let m1 = self@;
            assert(m1.slots[w as int].body == m_pre.slots[w as int].body + rec.bytes());
            assert forall|j: int| 0 <= j < m1.slots.len() && j != w as int implies m1.slots[j]
                == m_pre.slots[j] by {
                assert(m1.slots[j].body == m_pre.slots[j].body);
            }
            assert(m1.payload_at(loc) == Some(data@)) by {
                lemma_subrange_second(
                    m_pre.slots[w as int].body,
                    rec.bytes(),
                    40,
                    rec.size(),
                );
            }
            assert(m1.wf());
            if m_pre != old(self)@ {
                // a rotation emptied the target slot first
                assert(m_pre.slots[w as int].body == Seq::<u8>::empty());
                assert(m_pre.slots[w as int].body + rec.bytes() =~= rec.bytes());
                assert(spec_scan(Seq::<u8>::empty()) =~= Seq::<RecordModel>::empty());
                assert(Seq::<RecordModel>::empty().push(rec) =~= seq![rec]);
            }
        }
        Ok(loc)
    }

    /// The active slot, its used bytes, and the pool capacity.
    pub fn status(&self) -> (r: (usize, u64, u64))
        requires
            self@.wf(),
        ensures
            r.0 == self@.write_idx,
            r.1 == self@.slots[self@.write_idx].bytes_used(),
            r.2 == self@.capacity,
    {
        let slot = self.slots.get(self.write_idx).unwrap();
        (self.write_idx, slot.body.len() as u64, self.pool_capacity)
    }

    /// Number of slots in the ring.
    pub fn pool_count(&self) -> (r: usize)
        ensures
            r == self@.slots.len(),
    {
        self.slots.len()
    }

    /// Read the raw payload of the record at `loc`: the bytes after its
    /// 40-byte record header. Fails exactly when `loc` does not lie wholly
    /// inside the used body of its slot.
    pub fn read_segment_data(&self, loc: &SegmentLocation) -> (r: Result<Vec<u8>, NvrError>)
        requires
            self@.wf(),
        ensures
            r is Ok <==> self@.payload_at(*loc) is Some,
            r matches Ok(d) ==> Some(d@) == self@.payload_at(*loc),
            r matches Err(e) ==> e is Storage,
    {
        if loc.pool_idx >= self.slots.len() {
            return Err(NvrError::Storage("no such pool slot".to_owned()));
        }
        if loc.record_size < 40 || loc.record_offset < 64 {
            return Err(NvrError::Storage("malformed segment location".to_owned()));
        }
        let slot = self.slots.get(loc.pool_idx).unwrap();
        let body_len = slot.body.len();
        if loc.record_size > body_len as u64 || loc.record_offset - 64 > body_len as u64
            - loc.record_size {
            return Err(NvrError::Storage("segment location out of range".to_owned()));
        }
        let start = (loc.record_offset - 64 + 40) as usize;
        let end = (loc.record_offset - 64 + loc.record_size) as usize;
        Ok(slice_to_vec(slice_subrange(slot.body.as_slice(), start, end)))
    }

    /// The full byte image of one slot's pool file: header, used body, and
    /// zero fill up to the fixed file length. What the embedding program
    /// writes when it creates or rewrites a pool file whole.
    pub fn file_image(&self, idx: usize) -> (r: Vec<u8>)
        requires
            self@.wf(),
            idx < self@.slots.len(),
        ensures
            r@ == spec_pool_header_bytes(self@.slots[idx as int].pool_id, self@.slots[
                idx as int
            ].created_at) + self@.slots[idx as int].body + spec_zeros(
                (self@.capacity - self@.slots[idx as int].body.len()) as nat,
            ),
            r@.len() == 64 + self@.capacity,
    {
        let slot = self.slots.get(idx).unwrap();
        let mut out = encode_pool_header(slot.pool_id, slot.created_at);
        let mut b = slice_to_vec(slot.body.as_slice());
        out.append(&mut b);
        let ghost base = out@;
        let total: usize = 64 + self.pool_capacity as usize;
        proof {
            assert(base + spec_zeros(0) =~= base);
            assert(base.len() == 64 + self@.slots[idx as int].body.len());
        }
        while out.len() < total
            invariant
                base.len() <= out@.len() <= total,
                out@ == base + spec_zeros((out@.len() - base.len()) as nat),
                total == 64 + self@.capacity,
                base.len() == 64 + self@.slots[idx as int].body.len(),
                base == spec_pool_header_bytes(self@.slots[idx as int].pool_id, self@.slots[
                    idx as int
                ].created_at) + self@.slots[idx as int].body,
            decreases total - out@.len(),
        {
            let ghost k = (out@.len() - base.len()) as nat;
            out.push(0u8);
            proof {
                assert(spec_zeros((k + 1) as nat) =~= spec_zeros(k).push(0u8));
                assert(out@ =~= base + spec_zeros((k + 1) as nat));
            }
        }
        out
    }
}

// ────────────── scanning the whole ring ──────────────

/// The metadata record reported for one stored record of a slot.
pub open spec fn spec_scanned_of(r: RecordModel, pool_idx: usize, pool_id: u64) -> ScannedModel {
    ScannedModel {
        camera_id: r.camera(),
        start_ts: r.start_ts,
        end_ts: r.end_ts,
        pool_idx,
        pool_id,
        record_offset: r.offset as u64,
        record_size: r.size() as u64,
    }
}

/// The metadata of all records of slot `i`.
pub open spec fn spec_slot_scanned(m: PoolModel, i: int) -> Seq<ScannedModel> {
    m.slots[i].records().map_values(
        |r: RecordModel| spec_scanned_of(r, i as usize, m.slots[i].pool_id),
    )
}

/// The metadata of all records of the first `upto` slots, slot by slot.
pub open spec fn spec_scan_all(m: PoolModel, upto: int) -> Seq<ScannedModel>
    decreases upto,
{
    if upto <= 0 {
        Seq::<ScannedModel>::empty()
    } else {
        spec_scan_all(m, upto - 1) + spec_slot_scanned(m, upto - 1)
    }
}

/// The metadata of every record in the ring.
pub open spec fn spec_pool_scanned(m: PoolModel) -> Seq<ScannedModel> {
    spec_scan_all(m, m.slots.len() as int)
}

/// Order of the ring-wide scan: by generation, then by offset.
pub open spec fn spec_scanned_le(a: ScannedModel, b: ScannedModel) -> bool {
    a.pool_id < b.pool_id || (a.pool_id == b.pool_id && a.record_offset <= b.record_offset)
}

/// The views of a sequence of scanned records.
pub open spec fn spec_scanned_views(s: Seq<ScannedRecord>) -> Seq<ScannedModel> {
    s.map_values(|x: ScannedRecord| x@)
}

/// Inserting an element anywhere adds exactly it to the multiset.
pub(crate) proof fn lemma_to_multiset_insert<A>(s: Seq<A>, i: int, x: A)
    requires
        0 <= i <= s.len(),
    ensures
        s.insert(i, x).to_multiset() == s.to_multiset().insert(x),
{
    broadcast use vstd::seq_lib::group_to_multiset_ensures;

    let a = s.subrange(0, i);
    let b = s.subrange(i, s.len() as int);
    assert(s.insert(i, x) == a.push(x) + b);
    vstd::seq_lib::lemma_multiset_commutative(a.push(x), b);
    assert(s =~= a + b);
    vstd::seq_lib::lemma_multiset_commutative(a, b);
    assert(a.push(x).to_multiset() == a.to_multiset().insert(x));
    assert(s.insert(i, x).to_multiset() =~= s.to_multiset().insert(x));
}

/// Whether `a` must come strictly after `b` in `(pool_id, record_offset)`
/// order.
fn scanned_after(a: &ScannedRecord, b: &ScannedRecord) -> (r: bool)
    ensures
        r == !spec_scanned_le(a@, b@),
{
    a.pool_id > b.pool_id || (a.pool_id == b.pool_id && a.record_offset > b.record_offset)
}

/// Sort scanned records by `(pool_id, record_offset)`.
fn sort_scanned(records: Vec<ScannedRecord>) -> (r: Vec<ScannedRecord>)
    ensures
        r@.len() == records@.len(),
        spec_scanned_views(r@).to_multiset() == spec_scanned_views(records@).to_multiset(),
        forall|k: int, l: int|
            0 <= k < l < r@.len() ==> spec_scanned_le(#[trigger] r@[k]@, #[trigger] r@[l]@),
{
    let ghost orig = records@;
    let mut v = records;
    if v.len() <= 1 {
        return v;
    }
    let mut i: usize = 1;
    while i < v.len()
        invariant
            1 <= i <= v@.len(),
            v@.len() == orig.len(),
            spec_scanned_views(v@).to_multiset() == spec_scanned_views(orig).to_multiset(),
            forall|k: int, l: int|
                0 <= k < l < i ==> spec_scanned_le(#[trigger] v@[k]@, #[trigger] v@[l]@),
        decreases v@.len() - i,
    {
        let ghost v0 = v@;
        let x = v.remove(i);
        proof {
            broadcast use vstd::seq_lib::group_to_multiset_ensures;

            assert(spec_scanned_views(v@) =~= spec_scanned_views(v0).remove(i as int));
            assert(spec_scanned_views(v0)[i as int] == x@);
            assert(spec_scanned_views(v@).to_multiset() == spec_scanned_views(
                v0,
            ).to_multiset().remove(x@));
        }
        let ghost v1 = v@;
        let mut j: usize = i;
        while j > 0 && scanned_after(v.get(j - 1).unwrap(), &x)
            invariant
                j <= i,
                i < v1.len() + 1,
                v@ == v1,
                v1.len() + 1 == orig.len(),
                forall|k: int| j <= k < i ==> !spec_scanned_le(#[trigger] v1[k]@, x@),
            decreases j,
        {
            j = j - 1;
        }
        v.insert(j, x);
        proof {
            broadcast use vstd::seq_lib::group_to_multiset_ensures;

            assert(spec_scanned_views(v@) =~= spec_scanned_views(v1).insert(j as int, x@));
            lemma_to_multiset_insert(spec_scanned_views(v1), j as int, x@);
            assert(spec_scanned_views(v0).to_multiset().contains(x@));
            assert(spec_scanned_views(v@).to_multiset() =~= spec_scanned_views(
                v0,
            ).to_multiset());
            assert forall|k: int, l: int| 0 <= k < l < i + 1 implies spec_scanned_le(
                #[trigger] v@[k]@,
                #[trigger] v@[l]@,
            ) by {
                assert(forall|k: int| 0 <= k < j ==> v@[k] == v1[k]);
                assert(v@[j as int] == x);
                assert(forall|k: int| j < k <= i ==> v@[k] == v1[k - 1]);
                if j > 0 {
                    assert(spec_scanned_le(v1[j - 1]@, x@));
                }
            }
        }
        i = i + 1;
    }
    v
}

impl ChunkPool {
    /// Scan every slot and return all records, sorted by
    /// `(pool_id, record_offset)`: within one slot that is append order,
    /// and across slots it groups each slot's records by its generation.
    pub fn scan_all_pools(&self) -> (r: Vec<ScannedRecord>)
        requires
            self@.wf(),
        ensures
            r@.len() == spec_pool_scanned(self@).len(),
            spec_scanned_views(r@).to_multiset() == spec_pool_scanned(self@).to_multiset(),
            forall|k: int, l: int|
                0 <= k < l < r@.len() ==> spec_scanned_le(#[trigger] r@[k]@, #[trigger] r@[l]@),
    {
        let mut all: Vec<ScannedRecord> = Vec::new();
        let mut i: usize = 0;
        while i < self.slots.len()
            invariant
                self@.wf(),
                i <= self@.slots.len(),
                spec_scanned_views(all@) == spec_scan_all(self@, i as int),
            decreases self@.slots.len() - i,
        {
            let slot = self.slots.get(i).unwrap();
            proof {
                assert(self@.slots[i as int].body.len() <= self@.capacity);
                assert(slot.body@ == self@.slots[i as int].body);
            }
            let scanned = scan_body_records(slot.body.as_slice(), i, slot.pool_id);
            let mut part = scanned.0;
            let ghost all0 = all@;
            let ghost part0 = part@;
            all.append(&mut part);
            proof {
                assert(slot.body@ == self@.slots[i as int].body);
                assert(spec_scanned_views(part0) =~= spec_slot_scanned(self@, i as int));
                assert(spec_scanned_views(all0 + part0) =~= spec_scanned_views(all0)
                    + spec_scanned_views(part0));
                assert(spec_scanned_views(all@) =~= spec_scan_all(self@, i + 1));
            }
            i = i + 1;
        }
        proof {
            broadcast use vstd::seq_lib::group_to_multiset_ensures;

        }
        sort_scanned(all)
    }
}

// ────────────── order of the ring-wide scan ──────────────

/// Every element of a filtered sequence is an element of the input.
proof fn lemma_filter_element_of<A>(s: Seq<A>, pred: spec_fn(A) -> bool, k: int)
    requires
        0 <= k < s.filter(pred).len(),
    ensures
        exists|i: int| 0 <= i < s.len() && s[i] == s.filter(pred)[k],
    decreases s.len(),
{
    reveal(Seq::filter);
    broadcast use vstd::seq_lib::group_filter_ensures;

    if s.len() > 0 {
        let butlast = s.drop_last();
        let sub = butlast.filter(pred);
        if pred(s.last()) && k == sub.len() {
            assert(s[s.len() - 1] == s.filter(pred)[k]);
        } else {
            lemma_filter_element_of(butlast, pred, k);
            let i = choose|i: int| 0 <= i < butlast.len() && butlast[i] == butlast.filter(pred)[k];
            assert(s[i] == s.filter(pred)[k]);
        }
    }
}

/// Filtering a sequence commutes with taking its multiset.
proof fn lemma_filter_to_multiset<A>(s: Seq<A>, pred: spec_fn(A) -> bool)
    ensures
        s.filter(pred).to_multiset() == s.to_multiset().filter(pred),
    decreases s.len(),
{
    reveal(Seq::filter);
    broadcast use vstd::seq_lib::group_to_multiset_ensures;
    broadcast use vstd::multiset::group_multiset_axioms;

    if s.len() == 0 {
        assert(s.filter(pred).to_multiset() =~= s.to_multiset().filter(pred));
    } else {
        let d = s.drop_last();
        let x = s.last();
        lemma_filter_to_multiset(d, pred);
        assert(s == d.push(x));
        assert(s.to_multiset() == d.to_multiset().insert(x));
        if pred(x) {
            assert(s.filter(pred).to_multiset() == d.filter(pred).to_multiset().insert(x));
        }
        assert(s.to_multiset().filter(pred) =~= if pred(x) {
            d.to_multiset().filter(pred).insert(x)
        } else {
            d.to_multiset().filter(pred)
        });
        assert(s.filter(pred).to_multiset() =~= s.to_multiset().filter(pred));
    }
}

/// No element satisfying the predicate means an empty filter result.
proof fn lemma_filter_none<A>(s: Seq<A>, pred: spec_fn(A) -> bool)
    requires
        forall|k: int| 0 <= k < s.len() ==> !pred(#[trigger] s[k]),
    ensures
        s.filter(pred) == Seq::<A>::empty(),
    decreases s.len(),
{
    reveal(Seq::filter);
    if s.len() > 0 {
        lemma_filter_none(s.drop_last(), pred);
    }
}

/// Every element satisfying the predicate means the filter keeps all.
proof fn lemma_filter_all<A>(s: Seq<A>, pred: spec_fn(A) -> bool)
    requires
        forall|k: int| 0 <= k < s.len() ==> pred(#[trigger] s[k]),
    ensures
        s.filter(pred) == s,
    decreases s.len(),
{
    reveal(Seq::filter);
    if s.len() > 0 {
        lemma_filter_all(s.drop_last(), pred);
        assert(s.filter(pred) =~= s);
    }
}

/// A filtered subsequence of a `(pool_id, record_offset)`-sorted sequence
/// is sorted the same way.
proof fn lemma_filter_sorted_scanned(s: Seq<ScannedModel>, pred: spec_fn(ScannedModel) -> bool)
    requires
        forall|k: int, l: int|
            0 <= k < l < s.len() ==> spec_scanned_le(#[trigger] s[k], #[trigger] s[l]),
    ensures
        forall|k: int, l: int|
            0 <= k < l < s.filter(pred).len() ==> spec_scanned_le(
                #[trigger] s.filter(pred)[k],
                #[trigger] s.filter(pred)[l],
            ),
    decreases s.len(),
{
    reveal(Seq::filter);
    broadcast use vstd::seq_lib::group_filter_ensures;

    if s.len() > 0 {
        let d = s.drop_last();
        let sub = d.filter(pred);
        lemma_filter_sorted_scanned(d, pred);
        assert forall|k: int, l: int| 0 <= k < l < s.filter(pred).len() implies spec_scanned_le(
            #[trigger] s.filter(pred)[k],
            #[trigger] s.filter(pred)[l],
        ) by {
            if pred(s.last()) && l == sub.len() {
                assert(s.filter(pred)[l] == s.last());
                assert(s.filter(pred)[k] == sub[k]);
                lemma_filter_element_of(d, pred, k);
                let i = choose|i: int| 0 <= i < d.len() && d[i] == sub[k];
                assert(s[i] == sub[k]);
                assert(spec_scanned_le(s[i], s[s.len() - 1]));
            } else {
                assert(s.filter(pred)[k] == sub[k] && s.filter(pred)[l] == sub[l]);
            }
        }
    }
}

/// Two `(pool_id, record_offset)`-sorted sequences with the same multiset
/// are equal when one of them repeats no key.
proof fn lemma_sorted_distinct_unique(a: Seq<ScannedModel>, b: Seq<ScannedModel>)
    requires
        a.to_multiset() == b.to_multiset(),
        forall|k: int, l: int|
            0 <= k < l < a.len() ==> spec_scanned_le(#[trigger] a[k], #[trigger] a[l]),
        forall|k: int, l: int|
            0 <= k < l < b.len() ==> spec_scanned_le(#[trigger] b[k], #[trigger] b[l]),
        forall|k: int, l: int|
            0 <= k < l < b.len() ==> !((#[trigger] b[k]).pool_id == (#[trigger] b[l]).pool_id
                && b[k].record_offset == b[l].record_offset),
    ensures
        a == b,
    decreases a.len(),
{
    broadcast use vstd::seq_lib::group_to_multiset_ensures;

    if a.len() == 0 {
        assert(a.to_multiset().len() == 0);
        assert(b.len() == b.to_multiset().len());
        assert(a =~= b);
    } else {
        assert(a.len() == a.to_multiset().len());
        assert(b.len() == b.to_multiset().len());
        // the heads carry the minimal key of the common multiset, and a
        // repeated minimum is ruled out on b's side, so the heads agree
        assert(a.contains(a[0]));
        assert(b.to_multiset().count(a[0]) > 0);
        assert(b.contains(a[0]));
        let i = choose|i: int| 0 <= i < b.len() && b[i] == a[0];
        assert(a.contains(b[0])) by {
            assert(b.contains(b[0]));
            assert(a.to_multiset().count(b[0]) > 0);
        }
        let j = choose|j: int| 0 <= j < a.len() && a[j] == b[0];
        assert(b[0] == a[0]) by {
            if i > 0 && j > 0 {
                // each head precedes the other's twin, so all three share
                // one key — impossible on b's side
                assert(spec_scanned_le(b[0], b[i]));
                assert(spec_scanned_le(a[0], a[j]));
                assert(b[0].pool_id == b[i].pool_id && b[0].record_offset == b[i].record_offset);
            }
        }
        let a1 = a.drop_first();
        let b1 = b.drop_first();
        assert(a1 =~= a.remove(0));
        assert(b1 =~= b.remove(0));
        assert(a1.to_multiset() == a.to_multiset().remove(a[0]));
        assert(b1.to_multiset() == b.to_multiset().remove(b[0]));
        lemma_sorted_distinct_unique(a1, b1);
        assert forall|k: int| 0 <= k < a.len() implies a[k] == b[k] by {
            if k > 0 {
                assert(a[k] == a1[k - 1] && b[k] == b1[k - 1]);
            }
        }
        assert(a =~= b);
    }
}

/// Offsets strictly increase along a slot's records.
proof fn lemma_scan_offsets_increase(body: Seq<u8>, k: int, l: int)
    requires
        0 <= k < l < spec_scan(body).len(),
    ensures
        spec_scan(body)[k].offset < spec_scan(body)[l].offset,
    decreases l - k,
{
    lemma_scan_placement(body, 0);
    let rs = spec_scan(body);
    if l == k + 1 {
        assert(rs[k + 1].offset == rs[k].offset + rs[k].size());
        assert(rs[k].size() >= 40);
    } else {
        lemma_scan_offsets_increase(body, k, l - 1);
        assert(rs[(l - 1) + 1].offset == rs[l - 1].offset + rs[l - 1].size());
        assert(rs[l - 1].size() >= 40);
    }
}

/// For a ring whose slots carry pairwise distinct generations, the sorted
/// ring-wide scan lists each slot's records contiguously in generation
/// order: projecting it onto one slot's generation yields exactly that
/// slot's records, in append order. Together with the ordering of
/// generations this is the temporal order of the surviving records —
/// except while a fresh ring is first being filled, where a slot's initial
/// generation may still exceed an already-rotated neighbour's.
#[verifier::rlimit(60)]
pub proof fn lemma_scan_all_groups_by_generation(m: PoolModel, r: Seq<ScannedModel>, i: int)
    requires
        m.wf(),
        0 <= i < m.slots.len(),
        forall|j: int, k: int|
            0 <= j < k < m.slots.len() ==> (#[trigger] m.slots[j]).pool_id != (
            #[trigger] m.slots[k]).pool_id,
        r.to_multiset() == spec_pool_scanned(m).to_multiset(),
        forall|k: int, l: int|
            0 <= k < l < r.len() ==> spec_scanned_le(#[trigger] r[k], #[trigger] r[l]),
    ensures
        r.filter(|s: ScannedModel| s.pool_id == m.slots[i].pool_id) == spec_slot_scanned(m, i),
{
    broadcast use vstd::seq_lib::group_filter_ensures;
    broadcast use vstd::multiset::group_multiset_axioms;

    let pid = m.slots[i].pool_id;
    let pred = |s: ScannedModel| s.pool_id == pid;
    let group = spec_slot_scanned(m, i);

    // the group is what filtering the slot-by-slot scan leaves
    lemma_scan_all_filter(m, i, m.slots.len() as int);

    // and is itself sorted with no key repeated
    assert forall|k: int| 0 <= k < group.len() implies (#[trigger] group[k]).pool_id == pid
        && group[k].record_offset == m.slots[i].records()[k].offset by {
        lemma_scan_placement(m.slots[i].body, 0);
        let rec = m.slots[i].records()[k];
        assert(rec.offset >= 64);
        assert(rec.offset - 64 + rec.size() <= m.slots[i].body.len());
        assert(m.slots[i].body.len() <= m.capacity);
        assert(rec.size() >= 40);
    }
    assert forall|k: int, l: int| 0 <= k < l < group.len() implies spec_scanned_le(
        #[trigger] group[k],
        #[trigger] group[l],
    ) && !(group[k].pool_id == group[l].pool_id && group[k].record_offset
        == group[l].record_offset) by {
        lemma_scan_offsets_increase(m.slots[i].body, k, l);
    }

    // the projection of the sorted scan has the same multiset and order
    lemma_filter_to_multiset(r, pred);
    lemma_filter_to_multiset(spec_pool_scanned(m), pred);
    assert(r.filter(pred).to_multiset() == group.to_multiset());
    lemma_filter_sorted_scanned(r, pred);
    lemma_sorted_distinct_unique(r.filter(pred), group);
}

/// Filtering the slot-by-slot scan down to slot `i`'s generation keeps
/// exactly slot `i`'s part, when generations are pairwise distinct.
proof fn lemma_scan_all_filter(m: PoolModel, i: int, upto: int)
    requires
        0 <= i < m.slots.len(),
        0 <= upto <= m.slots.len(),
        forall|j: int, k: int|
            0 <= j < k < m.slots.len() ==> (#[trigger] m.slots[j]).pool_id != (
            #[trigger] m.slots[k]).pool_id,
    ensures
        spec_scan_all(m, upto).filter(|s: ScannedModel| s.pool_id == m.slots[i].pool_id) == (
        if i < upto {
            spec_slot_scanned(m, i)
        } else {
            Seq::<ScannedModel>::empty()
        }),
    decreases upto,
{
    broadcast use vstd::seq_lib::group_filter_ensures;

    let pid = m.slots[i].pool_id;
    let pred = |s: ScannedModel| s.pool_id == pid;
    if upto == 0 {
        reveal(Seq::filter);
    } else {
        lemma_scan_all_filter(m, i, upto - 1);
        let grp = spec_slot_scanned(m, upto - 1);
        Seq::filter_distributes_over_add(spec_scan_all(m, upto - 1), grp, pred);
        assert(forall|k: int|
            0 <= k < grp.len() ==> (#[trigger] grp[k]).pool_id == m.slots[upto - 1].pool_id);
        if upto - 1 == i {
            lemma_filter_all(grp, pred);
            assert(spec_scan_all(m, upto - 1).filter(pred) + grp =~= grp);
        } else {
            assert(m.slots[upto - 1].pool_id != pid);
            lemma_filter_none(grp, pred);
            if i < upto - 1 {
                assert(spec_scan_all(m, upto).filter(pred) =~= spec_slot_scanned(m, i));
            } else {
                assert(spec_scan_all(m, upto).filter(pred) =~= Seq::<ScannedModel>::empty());
            }
        }
    }
}

// ────────────── file names ──────────────

/// The decimal digit characters.
pub open spec fn spec_digit_char(d: int) -> char {
    if d == 0 {
        '0'
    } else if d == 1 {
        '1'
    } else if d == 2 {
        '2'
    } else if d == 3 {
        '3'
    } else if d == 4 {
        '4'
    } else if d == 5 {
        '5'
    } else if d == 6 {
        '6'
    } else if d == 7 {
        '7'
    } else if d == 8 {
        '8'
    } else {
        '9'
    }
}

/// The decimal digits of `n`, most significant first.
pub open spec fn spec_dec_digits(n: int) -> Seq<char>
    recommends
        n >= 0,
    decreases n,
{
    if n < 10 {
        seq![spec_digit_char(n)]
    } else {
        spec_dec_digits(n / 10).push(spec_digit_char(n % 10))
    }
}

/// The name of slot `idx`'s pool file: `pool_` and the slot index, zero
/// padded to at least three digits, then `.bin`.
pub open spec fn spec_pool_file_name(idx: int) -> Seq<char> {
    let digits = spec_dec_digits(idx);
    let padded = if digits.len() >= 3 {
        digits
    } else {
        Seq::new((3 - digits.len()) as nat, |i: int| '0') + digits
    };
    seq!['p', 'o', 'o', 'l', '_'] + padded + seq!['.', 'b', 'i', 'n']
}

/// One decimal digit as a string slice.
fn digit_str(d: usize) -> (r: &'static str)
    requires
        d < 10,
    ensures
        r@ == seq![spec_digit_char(d as int)],
{
    if d == 0 {
        proof {
            reveal_strlit("0");
        }
        "0"
    } else if d == 1 {
        proof {
            reveal_strlit("1");
        }
        "1"
    } else if d == 2 {
        proof {
            reveal_strlit("2");
        }
        "2"
    } else if d == 3 {
        proof {
            reveal_strlit("3");
        }
        "3"
    } else if d == 4 {
        proof {
            reveal_strlit("4");
        }
        "4"
    } else if d == 5 {
        proof {
            reveal_strlit("5");
        }
        "5"
    } else if d == 6 {
        proof {
            reveal_strlit("6");
        }
        "6"
    } else if d == 7 {
        proof {
            reveal_strlit("7");
        }
        "7"
    } else if d == 8 {
        proof {
            reveal_strlit("8");
        }
        "8"
    } else {
        proof {
            reveal_strlit("9");
        }
        "9"
    }
}

/// Append the decimal digits of `n` to `out`.
fn push_dec_digits(n: usize, out: &mut String)
    ensures
        final(out)@ == old(out)@ + spec_dec_digits(n as int),
    decreases n,
{
    if n < 10 {
        out.append(digit_str(n));
    } else {
        push_dec_digits(n / 10, out);
        let ghost mid = out@;
        out.append(digit_str(n % 10));
        proof {
            assert(out@ =~= old(out)@ + spec_dec_digits(n as int));
        }
    }
}

/// How many digits small numbers have.
proof fn lemma_dec_digits_len(n: int)
    requires
        n >= 0,
    ensures
        n < 10 ==> spec_dec_digits(n).len() == 1,
        10 <= n < 100 ==> spec_dec_digits(n).len() == 2,
        n >= 100 ==> spec_dec_digits(n).len() >= 3,
    decreases n,
{
    if n >= 10 {
        lemma_dec_digits_len(n / 10);
    }
}

impl ChunkPool {
    /// The file name of slot `idx`'s pool file, relative to the storage
    /// directory.
    pub fn pool_path(&self, idx: usize) -> (r: String)
        requires
            idx < self@.slots.len(),
        ensures
            r@ == spec_pool_file_name(idx as int),
    {
        let mut s = String::new();
        proof {
            reveal_strlit("pool_");
            reveal_strlit(".bin");
            reveal_strlit("00");
            reveal_strlit("0");
            lemma_dec_digits_len(idx as int);
        }
        s.append("pool_");
        if idx < 10 {
            s.append("00");
        } else if idx < 100 {
            s.append("0");
        }
        push_dec_digits(idx, &mut s);
        s.append(".bin");
        proof {
            assert(s@ =~= spec_pool_file_name(idx as int));
        }
        s
    }
}

} // verus!
