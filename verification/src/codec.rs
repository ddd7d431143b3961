//! Binary on-disk format of the pool ring.
//!
//! A pool file is a 64-byte header followed by a body of `pool_capacity`
//! bytes. The body is a concatenation of records; each record is a 40-byte
//! header (magic, zero-padded camera id, two little-endian timestamps, a
//! little-endian payload length) followed by the raw payload bytes. All the
//! spec functions here describe byte sequences exactly, so that encoding,
//! appending and scanning can be proved to round-trip.

use vstd::prelude::*;

verus! {

use vstd::bytes::{
    spec_u32_from_le_bytes,
    spec_u32_to_le_bytes,
    spec_u64_from_le_bytes,
    spec_u64_to_le_bytes,
    lemma_auto_spec_u32_to_from_le_bytes,
    lemma_auto_spec_u64_to_from_le_bytes,
    u32_to_le_bytes,
    u64_from_le_bytes,
    u64_to_le_bytes,
};
use vstd::slice::{slice_index_get, slice_subrange, slice_to_vec};
use vstd::utf8::{
    decode_utf8,
    encode_scalar,
    encode_utf8,
    encode_utf8_decode_utf8,
    encode_utf8_valid_utf8,
    char_is_scalar,
    char_u32_cast,
    has_width_1_encoding,
    last_continuation_byte,
    leading_byte_width_1,
    valid_utf8,
};

/// Size of the fixed pool-file header in bytes.
pub const POOL_HEADER_SIZE: u64 = 64;

/// Size of a record header in bytes: 4 magic + 16 camera + 8 + 8 timestamps
/// + 4 payload length.
pub const RECORD_HEADER_SIZE: u64 = 40;

/// Width of the zero-padded camera-id field inside a record header.
pub const CAMERA_FIELD_SIZE: usize = 16;

/// The magic bytes `NVRPOOL0` that open every pool-file header.
pub open spec fn spec_pool_magic() -> Seq<u8> {
    seq![0x4eu8, 0x56u8, 0x52u8, 0x50u8, 0x4fu8, 0x4fu8, 0x4cu8, 0x30u8]
}

/// The magic bytes `NREC` that open every record header.
pub open spec fn spec_record_magic() -> Seq<u8> {
    seq![0x4eu8, 0x52u8, 0x45u8, 0x43u8]
}

/// `n` zero bytes.
pub open spec fn spec_zeros(n: nat) -> Seq<u8> {
    Seq::new(n, |i: int| 0u8)
}

/// A signed timestamp is stored as the little-endian bytes of its
/// two's-complement value.
pub open spec fn spec_i64_to_le_bytes(x: i64) -> Seq<u8> {
    spec_u64_to_le_bytes(x as u64)
}

/// Read a signed timestamp back from its little-endian bytes.
pub open spec fn spec_i64_from_le_bytes(s: Seq<u8>) -> i64 {
    spec_u64_from_le_bytes(s) as i64
}

pub proof fn lemma_i64_le_bytes_round_trip(x: i64)
    ensures
        spec_i64_to_le_bytes(x).len() == 8,
        spec_i64_from_le_bytes(spec_i64_to_le_bytes(x)) == x,
{
    lemma_auto_spec_u64_to_from_le_bytes();
    assert(((x as u64) as i64) == x) by (bit_vector);
}

/// The 16-byte camera-id field: the encoded id truncated to 16 bytes and
/// zero-padded on the right.
pub open spec fn spec_camera_field(cam_bytes: Seq<u8>) -> Seq<u8> {
    Seq::new(16, |i: int| if i < cam_bytes.len() { cam_bytes[i] } else { 0u8 })
}

/// The camera-id field written for a camera-id string.
pub open spec fn spec_camera_field_of(cam: Seq<char>) -> Seq<u8> {
    spec_camera_field(encode_utf8(cam))
}

/// Strip the zero padding from the right end of a camera-id field.
pub open spec fn spec_trim_trailing_zeros(b: Seq<u8>) -> Seq<u8>
    decreases b.len(),
{
    if b.len() > 0 && b.last() == 0u8 {
        spec_trim_trailing_zeros(b.drop_last())
    } else {
        b
    }
}

/// The camera id recovered from a 16-byte camera field: the field with its
/// zero padding stripped, decoded as UTF-8; an undecodable field yields the
/// empty id.
pub open spec fn spec_camera_from_field(b: Seq<u8>) -> Seq<char> {
    let t = spec_trim_trailing_zeros(b);
    if valid_utf8(t) {
        decode_utf8(t)
    } else {
        Seq::<char>::empty()
    }
}

/// One record as laid out in a pool body, together with its on-disk offset
/// (the offset of its magic, counted from the start of the file).
pub struct RecordModel {
    /// The 16 camera-field bytes exactly as stored.
    pub cam_field: Seq<u8>,
    pub start_ts: i64,
    pub end_ts: i64,
    /// The payload bytes.
    pub data: Seq<u8>,
    /// On-disk offset of the record magic; at least 64.
    pub offset: int,
}

impl RecordModel {
    /// Total on-disk size of the record: header plus payload.
    pub open spec fn size(self) -> int {
        40 + self.data.len() as int
    }

    pub open spec fn wf(self) -> bool {
        &&& self.cam_field.len() == 16
        &&& self.data.len() <= u32::MAX
    }

    /// The exact bytes of the record.
    pub open spec fn bytes(self) -> Seq<u8> {
        spec_record_bytes(self.cam_field, self.start_ts, self.end_ts, self.data)
    }

    /// The camera id recovered from the stored camera field.
    pub open spec fn camera(self) -> Seq<char> {
        spec_camera_from_field(self.cam_field)
    }
}

/// The exact byte sequence of one record.
pub open spec fn spec_record_bytes(
    cam_field: Seq<u8>,
    start_ts: i64,
    end_ts: i64,
    data: Seq<u8>,
) -> Seq<u8> {
    spec_record_magic() + cam_field + spec_i64_to_le_bytes(start_ts) + spec_i64_to_le_bytes(end_ts)
        + spec_u32_to_le_bytes(data.len() as u32) + data
}

/// The exact byte sequence of a 64-byte pool-file header.
pub open spec fn spec_pool_header_bytes(pool_id: u64, created_at: i64) -> Seq<u8> {
    spec_pool_magic() + spec_u64_to_le_bytes(pool_id) + spec_i64_to_le_bytes(created_at)
        + spec_zeros(40)
}

/// A pool-file image long enough to hold a header whose magic matches.
pub open spec fn spec_header_valid(image: Seq<u8>) -> bool {
    image.len() >= 64 && image.subrange(0, 8) == spec_pool_magic()
}

/// The generation number stored in a pool-file header.
pub open spec fn spec_header_pool_id(image: Seq<u8>) -> u64 {
    spec_u64_from_le_bytes(image.subrange(8, 16))
}

/// The creation timestamp stored in a pool-file header.
pub open spec fn spec_header_created_at(image: Seq<u8>) -> i64 {
    spec_i64_from_le_bytes(image.subrange(16, 24))
}

/// Where each field of an encoded record lies inside its bytes.
pub proof fn lemma_record_bytes_fields(r: RecordModel)
    requires
        r.wf(),
    ensures
        r.bytes().len() == r.size(),
        r.bytes().subrange(0, 4) == spec_record_magic(),
        r.bytes().subrange(4, 20) == r.cam_field,
        r.bytes().subrange(20, 28) == spec_i64_to_le_bytes(r.start_ts),
        r.bytes().subrange(28, 36) == spec_i64_to_le_bytes(r.end_ts),
        r.bytes().subrange(36, 40) == spec_u32_to_le_bytes(r.data.len() as u32),
        r.bytes().subrange(40, r.size()) == r.data,
{
    lemma_auto_spec_u32_to_from_le_bytes();
    lemma_auto_spec_u64_to_from_le_bytes();
    let b = r.bytes();
    assert(b.len() == r.size());
    assert(b.subrange(0, 4) =~= spec_record_magic());
    assert(b.subrange(4, 20) =~= r.cam_field);
    assert(b.subrange(20, 28) =~= spec_i64_to_le_bytes(r.start_ts));
    assert(b.subrange(28, 36) =~= spec_i64_to_le_bytes(r.end_ts));
    assert(b.subrange(36, 40) =~= spec_u32_to_le_bytes(r.data.len() as u32));
    assert(b.subrange(40, r.size()) =~= r.data);
}

/// Scan a pool body from byte position `pos`, returning the records found
/// before the first break in the format. A scan stops at the first position
/// where no complete record header fits, where the record magic is absent,
/// or where the declared payload would run past the end of the body (a torn
/// record).
pub open spec fn spec_scan_from(body: Seq<u8>, pos: int) -> Seq<RecordModel>
    decreases body.len() - pos,
{
    if pos < 0 || pos + 40 > body.len() {
        Seq::<RecordModel>::empty()
    } else if body.subrange(pos, pos + 4) != spec_record_magic() {
        Seq::<RecordModel>::empty()
    } else {
        let data_len = spec_u32_from_le_bytes(body.subrange(pos + 36, pos + 40)) as int;
        if pos + 40 + data_len > body.len() {
            Seq::<RecordModel>::empty()
        } else {
            let rec = RecordModel {
                cam_field: body.subrange(pos + 4, pos + 20),
                start_ts: spec_i64_from_le_bytes(body.subrange(pos + 20, pos + 28)),
                end_ts: spec_i64_from_le_bytes(body.subrange(pos + 28, pos + 36)),
                data: body.subrange(pos + 40, pos + 40 + data_len),
                offset: 64 + pos,
            };
            seq![rec] + spec_scan_from(body, pos + 40 + data_len)
        }
    }
}

/// All records recovered from a pool body.
pub open spec fn spec_scan(body: Seq<u8>) -> Seq<RecordModel> {
    spec_scan_from(body, 0)
}

/// Total on-disk size of a sequence of records.
pub open spec fn spec_records_size(rs: Seq<RecordModel>) -> int
    decreases rs.len(),
{
    if rs.len() == 0 {
        0
    } else {
        rs[0].size() + spec_records_size(rs.drop_first())
    }
}

/// A body that a scan consumes completely: it is exactly a concatenation of
/// well-formed records with no trailing garbage.
pub open spec fn spec_body_complete(body: Seq<u8>) -> bool {
    spec_records_size(spec_scan(body)) == body.len()
}

pub proof fn lemma_records_size_push(rs: Seq<RecordModel>, r: RecordModel)
    ensures
        spec_records_size(rs.push(r)) == spec_records_size(rs) + r.size(),
    decreases rs.len(),
{
    assert(rs.push(r).len() == rs.len() + 1);
    assert(spec_records_size(rs.push(r)) == rs.push(r)[0].size() + spec_records_size(
        rs.push(r).drop_first(),
    ));
    if rs.len() == 0 {
        assert(rs.push(r)[0] == r);
        assert(rs.push(r).drop_first() =~= Seq::<RecordModel>::empty());
        assert(spec_records_size(Seq::<RecordModel>::empty()) == 0);
    } else {
        assert(rs.push(r)[0] == rs[0]);
        assert(rs.push(r).drop_first() =~= rs.drop_first().push(r));
        lemma_records_size_push(rs.drop_first(), r);
        assert(spec_records_size(rs) == rs[0].size() + spec_records_size(rs.drop_first()));
    }
}

pub proof fn lemma_records_size_nonneg(rs: Seq<RecordModel>)
    ensures
        spec_records_size(rs) >= 40 * rs.len(),
    decreases rs.len(),
{
    if rs.len() > 0 {
        lemma_records_size_nonneg(rs.drop_first());
    }
}

/// A subrange taken inside the first part of a concatenation.
pub proof fn lemma_subrange_first(a: Seq<u8>, b: Seq<u8>, i: int, j: int)
    requires
        0 <= i <= j <= a.len(),
    ensures
        (a + b).subrange(i, j) == a.subrange(i, j),
{
    assert((a + b).subrange(i, j) =~= a.subrange(i, j));
}

/// A subrange taken inside the second part of a concatenation.
pub proof fn lemma_subrange_second(a: Seq<u8>, b: Seq<u8>, i: int, j: int)
    requires
        0 <= i <= j <= b.len(),
    ensures
        (a + b).subrange(a.len() + i, a.len() + j) == b.subrange(i, j),
{
    assert((a + b).subrange(a.len() + i, a.len() + j) =~= b.subrange(i, j));
}

/// A subrange taken inside a prefix of a sequence.
pub proof fn lemma_subrange_of_prefix(s: Seq<u8>, cut: int, i: int, j: int)
    requires
        0 <= i <= j <= cut <= s.len(),
    ensures
        s.subrange(0, cut).subrange(i, j) == s.subrange(i, j),
{
    assert(s.subrange(0, cut).subrange(i, j) =~= s.subrange(i, j));
}

/// How a scan relates to the bytes it scanned: every record it returns is
/// well formed, sits wholly inside the body at its stated offset, and the
/// bytes there are exactly its encoding; consecutive records are adjacent.
pub proof fn lemma_scan_placement(body: Seq<u8>, pos: int)
    requires
        0 <= pos <= body.len(),
    ensures
        ({
            let rs = spec_scan_from(body, pos);
            &&& (rs.len() > 0 ==> rs[0].offset == 64 + pos)
            &&& forall|k: int|
                0 <= k < rs.len() - 1 ==> #[trigger] rs[k + 1].offset == rs[k].offset
                    + rs[k].size()
            &&& forall|k: int|
                0 <= k < rs.len() ==> {
                    let p = (#[trigger] rs[k]).offset - 64;
                    &&& rs[k].wf()
                    &&& 64 + pos <= rs[k].offset
                    &&& p + rs[k].size() <= body.len()
                    &&& body.subrange(p, p + rs[k].size()) == rs[k].bytes()
                }
        }),
    decreases body.len() - pos,
{
    let rs = spec_scan_from(body, pos);
    if rs.len() > 0 {
        let data_len = spec_u32_from_le_bytes(body.subrange(pos + 36, pos + 40)) as int;
        let r0 = rs[0];
        let pos2 = pos + 40 + data_len;
        lemma_auto_spec_u32_to_from_le_bytes();
        assert(r0.data.len() == data_len);
        assert(r0.wf());
        let rest = spec_scan_from(body, pos2);
        assert(rs.drop_first() =~= rest);
        lemma_scan_placement(body, pos2);
        lemma_auto_spec_u64_to_from_le_bytes();
        assert(body.subrange(pos, pos + r0.size()) =~= r0.bytes()) by {
            lemma_record_bytes_fields(r0);
            assert(spec_u32_to_le_bytes(r0.data.len() as u32) =~= body.subrange(
                pos + 36,
                pos + 40,
            )) by {
                assert(r0.data.len() as u32 == spec_u32_from_le_bytes(
                    body.subrange(pos + 36, pos + 40),
                ));
                assert(body.subrange(pos + 36, pos + 40).len() == 4);
            }
            assert(spec_i64_to_le_bytes(r0.start_ts) =~= body.subrange(pos + 20, pos + 28)) by {
                assert(body.subrange(pos + 20, pos + 28).len() == 8);
                assert(spec_u64_to_le_bytes(
                    spec_u64_from_le_bytes(body.subrange(pos + 20, pos + 28)),
                ) == body.subrange(pos + 20, pos + 28));
                assert(((spec_u64_from_le_bytes(body.subrange(pos + 20, pos + 28)) as i64)
                    as u64) == spec_u64_from_le_bytes(body.subrange(pos + 20, pos + 28))) by {
                    let x = spec_u64_from_le_bytes(body.subrange(pos + 20, pos + 28));
                    assert(((x as i64) as u64) == x) by (bit_vector);
                }
            }
            assert(spec_i64_to_le_bytes(r0.end_ts) =~= body.subrange(pos + 28, pos + 36)) by {
                assert(body.subrange(pos + 28, pos + 36).len() == 8);
                assert(spec_u64_to_le_bytes(
                    spec_u64_from_le_bytes(body.subrange(pos + 28, pos + 36)),
                ) == body.subrange(pos + 28, pos + 36));
                assert(((spec_u64_from_le_bytes(body.subrange(pos + 28, pos + 36)) as i64)
                    as u64) == spec_u64_from_le_bytes(body.subrange(pos + 28, pos + 36))) by {
                    let x = spec_u64_from_le_bytes(body.subrange(pos + 28, pos + 36));
                    assert(((x as i64) as u64) == x) by (bit_vector);
                }
            }
        }
        assert(forall|k: int| 0 <= k < rs.len() - 1 ==> rs[k + 1] == rest[k]);
    }
}

/// Appending one encoded record to a completely-scanned body extends the
/// scan by exactly that record.
proof fn lemma_scan_extend_from(body: Seq<u8>, r: RecordModel, pos: int)
    requires
        r.wf(),
        r.offset == 64 + body.len(),
        0 <= pos <= body.len(),
        pos + spec_records_size(spec_scan_from(body, pos)) == body.len(),
    ensures
        spec_scan_from(body + r.bytes(), pos) == spec_scan_from(body, pos).push(r),
    decreases body.len() - pos,
{
    let ext = body + r.bytes();
    lemma_record_bytes_fields(r);
    lemma_auto_spec_u32_to_from_le_bytes();
    let rs = spec_scan_from(body, pos);
    if rs.len() == 0 {
        assert(pos == body.len());
        lemma_subrange_second(body, r.bytes(), 0, 4);
        lemma_subrange_second(body, r.bytes(), 4, 20);
        lemma_subrange_second(body, r.bytes(), 20, 28);
        lemma_subrange_second(body, r.bytes(), 28, 36);
        lemma_subrange_second(body, r.bytes(), 36, 40);
        lemma_subrange_second(body, r.bytes(), 40, r.size());
        assert(ext.subrange(pos, pos + 4) == spec_record_magic());
        let data_len = spec_u32_from_le_bytes(ext.subrange(pos + 36, pos + 40)) as int;
        assert(data_len == r.data.len());
        assert(pos + 40 + data_len == ext.len());
        let rec = spec_scan_from(ext, pos)[0];
        assert(spec_scan_from(ext, pos + 40 + data_len) =~= Seq::<RecordModel>::empty());
        assert(rec.cam_field == r.cam_field);
        assert(rec.start_ts == r.start_ts) by {
            lemma_i64_le_bytes_round_trip(r.start_ts);
        }
        assert(rec.end_ts == r.end_ts) by {
            lemma_i64_le_bytes_round_trip(r.end_ts);
        }
        assert(rec.data == r.data);
        assert(rec.offset == r.offset);
        assert(rec == r);
        assert(spec_scan_from(ext, pos) =~= rs.push(r));
    } else {
        let data_len = spec_u32_from_le_bytes(body.subrange(pos + 36, pos + 40)) as int;
        let pos2 = pos + 40 + data_len;
        let rec0 = rs[0];
        let rest = spec_scan_from(body, pos2);
        assert(rs =~= seq![rec0] + rest);
        assert(rs.drop_first() =~= rest);
        assert(spec_records_size(rs) == rec0.size() + spec_records_size(rest));
        lemma_records_size_nonneg(rest);
        assert(pos2 <= body.len());
        lemma_subrange_first(body, r.bytes(), pos, pos + 4);
        lemma_subrange_first(body, r.bytes(), pos + 4, pos + 20);
        lemma_subrange_first(body, r.bytes(), pos + 20, pos + 28);
        lemma_subrange_first(body, r.bytes(), pos + 28, pos + 36);
        lemma_subrange_first(body, r.bytes(), pos + 36, pos + 40);
        lemma_subrange_first(body, r.bytes(), pos + 40, pos2);
        assert(ext.subrange(pos, pos + 4) == spec_record_magic());
        assert(spec_u32_from_le_bytes(ext.subrange(pos + 36, pos + 40)) as int == data_len);
        assert(pos2 <= ext.len());
        lemma_scan_extend_from(body, r, pos2);
        let rec0e = spec_scan_from(ext, pos)[0];
        assert(rec0e == rec0);
        assert(spec_scan_from(ext, pos) =~= seq![rec0] + spec_scan_from(ext, pos2));
        assert(seq![rec0] + rest.push(r) =~= rs.push(r));
    }
}

/// Appending one encoded record to a complete body extends the scan by
/// exactly that record and keeps the body complete.
pub proof fn lemma_scan_append_record(body: Seq<u8>, r: RecordModel)
    requires
        r.wf(),
        r.offset == 64 + body.len(),
        spec_body_complete(body),
    ensures
        spec_scan(body + r.bytes()) == spec_scan(body).push(r),
        spec_body_complete(body + r.bytes()),
        (body + r.bytes()).len() == body.len() + r.size(),
{
    lemma_record_bytes_fields(r);
    lemma_scan_extend_from(body, r, 0);
    lemma_records_size_push(spec_scan(body), r);
}

/// The scan result consumes at most the bytes from `pos` to the end.
pub proof fn lemma_scan_size_bounds(body: Seq<u8>, pos: int)
    requires
        0 <= pos <= body.len(),
    ensures
        0 <= spec_records_size(spec_scan_from(body, pos)) <= body.len() - pos,
    decreases body.len() - pos,
{
    let rs = spec_scan_from(body, pos);
    if rs.len() == 0 {
    } else {
        let data_len = spec_u32_from_le_bytes(body.subrange(pos + 36, pos + 40)) as int;
        let pos2 = pos + 40 + data_len;
        lemma_scan_size_bounds(body, pos2);
        assert(rs.drop_first() =~= spec_scan_from(body, pos2));
    }
}

/// Cutting a body right after the last scanned record does not change the
/// scan, and the cut prefix is complete.
proof fn lemma_scan_truncate_from(body: Seq<u8>, cut: int, pos: int)
    requires
        0 <= pos <= cut <= body.len(),
        pos + spec_records_size(spec_scan_from(body, pos)) == cut,
    ensures
        spec_scan_from(body.subrange(0, cut), pos) == spec_scan_from(body, pos),
    decreases body.len() - pos,
{
    let trunc = body.subrange(0, cut);
    let rs = spec_scan_from(body, pos);
    if rs.len() == 0 {
        assert(pos == cut);
        assert(spec_scan_from(trunc, pos) =~= Seq::<RecordModel>::empty());
    } else {
        let data_len = spec_u32_from_le_bytes(body.subrange(pos + 36, pos + 40)) as int;
        let pos2 = pos + 40 + data_len;
        let rec0 = rs[0];
        let rest = spec_scan_from(body, pos2);
        assert(rs.drop_first() =~= rest);
        assert(spec_records_size(rs) == rec0.size() + spec_records_size(rest));
        lemma_records_size_nonneg(rest);
        assert(pos2 <= cut);
        lemma_subrange_of_prefix(body, cut, pos, pos + 4);
        lemma_subrange_of_prefix(body, cut, pos + 4, pos + 20);
        lemma_subrange_of_prefix(body, cut, pos + 20, pos + 28);
        lemma_subrange_of_prefix(body, cut, pos + 28, pos + 36);
        lemma_subrange_of_prefix(body, cut, pos + 36, pos + 40);
        lemma_subrange_of_prefix(body, cut, pos + 40, pos2);
        assert(trunc.subrange(pos, pos + 4) == spec_record_magic());
        assert(spec_u32_from_le_bytes(trunc.subrange(pos + 36, pos + 40)) as int == data_len);
        lemma_scan_truncate_from(body, cut, pos2);
        let rec0t = spec_scan_from(trunc, pos)[0];
        assert(rec0t == rec0);
        assert(spec_scan_from(trunc, pos) =~= seq![rec0] + spec_scan_from(trunc, pos2));
        assert(rs =~= seq![rec0] + rest);
    }
}

/// Cutting a body right after the last scanned record preserves the scan
/// and yields a complete prefix.
pub proof fn lemma_scan_truncate(body: Seq<u8>)
    ensures
        ({
            let rs = spec_scan(body);
            let used = spec_records_size(rs);
            &&& 0 <= used <= body.len()
            &&& spec_scan(body.subrange(0, used)) == rs
            &&& spec_body_complete(body.subrange(0, used))
        }),
{
    lemma_scan_size_bounds(body, 0);
    let used = spec_records_size(spec_scan(body));
    lemma_scan_truncate_from(body, used, 0);
}

/// Encode a signed timestamp as the little-endian bytes of its
/// two's-complement value.
pub fn i64_to_le_bytes(x: i64) -> (r: Vec<u8>)
    ensures
        r@ == spec_i64_to_le_bytes(x),
        r@.len() == 8,
{
    proof {
        lemma_auto_spec_u64_to_from_le_bytes();
    }
    u64_to_le_bytes(#[verifier::truncate] (x as u64))
}

/// Encode one record exactly as it is laid out on disk: magic, zero-padded
/// camera field, both timestamps, payload length, payload.
pub fn encode_record(camera_id: &str, start_ts: i64, end_ts: i64, data: &[u8]) -> (r: Vec<u8>)
    requires
        data@.len() <= u32::MAX,
    ensures
        r@ == spec_record_bytes(spec_camera_field_of(camera_id@), start_ts, end_ts, data@),
        r@.len() == 40 + data@.len(),
{
    let ghost field = spec_camera_field_of(camera_id@);
    let mut out: Vec<u8> = Vec::new();
    out.push(0x4e);
    out.push(0x52);
    out.push(0x45);
    out.push(0x43);
    proof {
        assert(out@ =~= spec_record_magic());
    }
    let cam = camera_id.as_bytes();
    proof {
        assert(field.len() == 16);
    }
    let mut i: usize = 0;
    while i < 16
        invariant
            i <= 16,
            field == spec_camera_field_of(camera_id@),
            cam@ == encode_utf8(camera_id@),
            out@ == spec_record_magic() + field.take(i as int),
        decreases 16 - i,
    {
        if i < cam.len() {
            out.push(*slice_index_get(cam, i));
        } else {
            out.push(0u8);
        }
        proof {
            assert(field[i as int] == if (i as int) < cam@.len() {
                cam@[i as int]
            } else {
                0u8
            });
            assert(field.take((i + 1) as int) =~= field.take(i as int).push(field[i as int]));
            assert(out@ =~= spec_record_magic() + field.take((i + 1) as int));
        }
        i = i + 1;
    }
    proof {
        assert(field.take(16) =~= field);
    }
    let mut st = i64_to_le_bytes(start_ts);
    out.append(&mut st);
    let mut et = i64_to_le_bytes(end_ts);
    out.append(&mut et);
    let mut dl = u32_to_le_bytes(data.len() as u32);
    out.append(&mut dl);
    let mut dv = slice_to_vec(data);
    out.append(&mut dv);
    proof {
        lemma_auto_spec_u32_to_from_le_bytes();
        lemma_auto_spec_u64_to_from_le_bytes();
        assert(out@ =~= spec_record_bytes(field, start_ts, end_ts, data@));
    }
    out
}

/// Encode a 64-byte pool-file header.
pub fn encode_pool_header(pool_id: u64, created_at: i64) -> (r: Vec<u8>)
    ensures
        r@ == spec_pool_header_bytes(pool_id, created_at),
        r@.len() == 64,
{
    let mut out: Vec<u8> = Vec::new();
    out.push(0x4e);
    out.push(0x56);
    out.push(0x52);
    out.push(0x50);
    out.push(0x4f);
    out.push(0x4f);
    out.push(0x4c);
    out.push(0x30);
    proof {
        assert(out@ =~= spec_pool_magic());
    }
    let mut pid = u64_to_le_bytes(pool_id);
    out.append(&mut pid);
    let mut ca = u64_to_le_bytes(created_at as u64);
    out.append(&mut ca);
    let ghost prefix = out@;
    let mut i: usize = 0;
    while i < 40
        invariant
            i <= 40,
            out@ == prefix + spec_zeros(i as nat),
        decreases 40 - i,
    {
        out.push(0u8);
        proof {
            assert(spec_zeros((i + 1) as nat) =~= spec_zeros(i as nat).push(0u8));
            assert(out@ =~= prefix + spec_zeros((i + 1) as nat));
        }
        i = i + 1;
    }
    proof {
        lemma_auto_spec_u64_to_from_le_bytes();
        assert(out@ =~= spec_pool_header_bytes(pool_id, created_at));
    }
    out
}

/// Check the eight magic bytes at the start of a pool-file image.
pub fn check_pool_magic(image: &[u8]) -> (r: bool)
    requires
        image@.len() >= 8,
    ensures
        r == (image@.subrange(0, 8) == spec_pool_magic()),
{
    let ok = *slice_index_get(image, 0) == 0x4e && *slice_index_get(image, 1) == 0x56
        && *slice_index_get(image, 2) == 0x52 && *slice_index_get(image, 3) == 0x50
        && *slice_index_get(image, 4) == 0x4f && *slice_index_get(image, 5) == 0x4f
        && *slice_index_get(image, 6) == 0x4c && *slice_index_get(image, 7) == 0x30;
    proof {
        let s = image@.subrange(0, 8);
        assert(forall|k: int| 0 <= k < 8 ==> s[k] == image@[k]);
        if ok {
            assert(s =~= spec_pool_magic());
        } else {
            assert(s != spec_pool_magic());
        }
    }
    ok
}

/// Check the four record-magic bytes at position `pos` of a pool body.
pub fn check_record_magic(body: &[u8], pos: usize) -> (r: bool)
    requires
        pos + 4 <= body@.len(),
    ensures
        r == (body@.subrange(pos as int, pos as int + 4) == spec_record_magic()),
{
    let n = body.len();
    proof {
        assert(pos + 4 <= n);
    }
    let ok = *slice_index_get(body, pos) == 0x4e && *slice_index_get(body, pos + 1) == 0x52
        && *slice_index_get(body, pos + 2) == 0x45 && *slice_index_get(body, pos + 3) == 0x43;
    proof {
        let s = body@.subrange(pos as int, pos as int + 4);
        assert(forall|k: int| 0 <= k < 4 ==> s[k] == body@[pos + k]);
        if ok {
            assert(s =~= spec_record_magic());
        } else {
            assert(s != spec_record_magic());
        }
    }
    ok
}

/// Parse the 64-byte header of a pool-file image; `None` when the image is
/// too short or its magic does not match.
pub fn parse_pool_header(image: &[u8]) -> (r: Option<(u64, i64)>)
    ensures
        r is Some <==> spec_header_valid(image@),
        r matches Some(h) ==> h.0 == spec_header_pool_id(image@) && h.1 == spec_header_created_at(
            image@,
        ),
{
    if image.len() < 64 {
        return None;
    }
    if !check_pool_magic(image) {
        return None;
    }
    let pid = u64_from_le_bytes(slice_subrange(image, 8, 16));
    let ca = u64_from_le_bytes(slice_subrange(image, 16, 24)) as i64;
    Some((pid, ca))
}

/// Relies on `String::from_utf8`: it returns the decoded string exactly
/// when the bytes are valid UTF-8 and rejects them otherwise.
#[verifier::external_body]
fn string_from_utf8(bytes: Vec<u8>) -> (r: Option<String>)
    ensures
        match r {
            Some(s) => valid_utf8(bytes@) && s@ == decode_utf8(bytes@),
            None => !valid_utf8(bytes@),
        },
{
    String::from_utf8(bytes).ok()
}

/// Recover the camera id from a camera field: strip the zero padding and
/// decode the rest as UTF-8; an undecodable field yields the empty id.
pub fn decode_camera_field(field: &[u8]) -> (r: String)
    ensures
        r@ == spec_camera_from_field(field@),
{
    let mut end: usize = field.len();
    proof {
        assert(field@.subrange(0, end as int) =~= field@);
    }
    while end > 0 && *slice_index_get(field, end - 1) == 0u8
        invariant
            end <= field@.len(),
            spec_trim_trailing_zeros(field@) == spec_trim_trailing_zeros(
                field@.subrange(0, end as int),
            ),
        decreases end,
    {
        proof {
            let cur = field@.subrange(0, end as int);
            assert(cur.last() == 0u8);
            assert(cur.drop_last() =~= field@.subrange(0, end - 1));
        }
        end = end - 1;
    }
    proof {
        let cur = field@.subrange(0, end as int);
        assert(spec_trim_trailing_zeros(cur) == cur);
    }
    let trimmed = slice_to_vec(slice_subrange(field, 0, end));
    match string_from_utf8(trimmed) {
        Some(s) => s,
        None => String::new(),
    }
}

/// The UTF-8 encoding of a character other than NUL never ends in a zero
/// byte.
proof fn lemma_encode_scalar_last_nonzero(c: char)
    requires
        c != '\0',
    ensures
        encode_scalar(c as u32).len() > 0,
        encode_scalar(c as u32).last() != 0u8,
{
    char_is_scalar(c);
    let s = c as u32;
    assert(s != 0) by {
        if s == 0 {
            char_u32_cast(c, s);
            assert('\0' as u32 == 0);
            char_u32_cast('\0', 0);
        }
    }
    if has_width_1_encoding(s) {
        assert(encode_scalar(s).last() == leading_byte_width_1(s));
        assert(s <= 0x7F && s != 0 ==> (s & 0x7F) as u8 != 0) by (bit_vector);
    } else {
        assert(encode_scalar(s).last() == last_continuation_byte(s));
        assert((0x80u8 | (s & 0x3F) as u8) != 0) by (bit_vector);
    }
}

/// The UTF-8 encoding of an id whose last character is not NUL never ends
/// in a zero byte.
proof fn lemma_encode_utf8_last_nonzero(cam: Seq<char>)
    requires
        cam.len() > 0,
        cam.last() != '\0',
    ensures
        encode_utf8(cam).len() > 0,
        encode_utf8(cam).last() != 0u8,
    decreases cam.len(),
{
    let head = encode_scalar(cam[0] as u32);
    let tail = encode_utf8(cam.drop_first());
    if cam.len() == 1 {
        lemma_encode_scalar_last_nonzero(cam[0]);
        assert(head + tail =~= head);
    } else {
        assert(cam.drop_first().last() == cam.last());
        lemma_encode_utf8_last_nonzero(cam.drop_first());
        assert((head + tail).last() == tail.last());
    }
}

/// Zero padding appended to a sequence that does not end in zero is exactly
/// what trimming removes.
proof fn lemma_trim_zeros_of_padded(b: Seq<u8>, n: nat)
    requires
        b.len() == 0 || b.last() != 0u8,
    ensures
        spec_trim_trailing_zeros(b + spec_zeros(n)) == b,
    decreases n,
{
    if n == 0 {
        assert(b + spec_zeros(0) =~= b);
    } else {
        let s = b + spec_zeros(n);
        assert(s.last() == 0u8);
        assert(s.drop_last() =~= b + spec_zeros((n - 1) as nat));
        lemma_trim_zeros_of_padded(b, (n - 1) as nat);
    }
}

/// Writing a camera id into the 16-byte field and reading it back yields
/// the same id, provided its encoding fits in the field (so nothing is
/// truncated) and it does not itself end in NUL (which the zero padding
/// would swallow).
pub proof fn lemma_camera_field_round_trip(cam: Seq<char>)
    requires
        encode_utf8(cam).len() <= 16,
        cam.len() == 0 || cam.last() != '\0',
    ensures
        spec_camera_from_field(spec_camera_field_of(cam)) == cam,
{
    let enc = encode_utf8(cam);
    assert(spec_camera_field(enc) =~= enc + spec_zeros((16 - enc.len()) as nat));
    if cam.len() > 0 {
        lemma_encode_utf8_last_nonzero(cam);
    }
    lemma_trim_zeros_of_padded(enc, (16 - enc.len()) as nat);
    encode_utf8_valid_utf8(cam);
    encode_utf8_decode_utf8(cam);
}

} // verus!
