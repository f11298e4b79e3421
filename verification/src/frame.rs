//! The framing of one trace record: a storage header, a record header whose
//! optional fields are announced by its first byte, and the payload.
use vstd::prelude::*;
use vstd::slice::slice_subrange;
use vstd::slice::slice_to_vec;
use crate::record::RecordView;
use crate::record::TraceRecord;

verus! {

/// Length of the storage header: pattern, seconds, microseconds, ECU id.
pub const STORAGE_HEADER_LEN: usize = 16;

/// Length of the part of the record header that is always present.
pub const BASE_HEADER_LEN: usize = 4;

/// Smallest number of bytes a frame can have.
pub const MIN_FRAME_LEN: usize = 20;

/// Header type flag: an extended header follows the record header.
pub const HTYP_UEH: u8 = 0x01;

/// Header type flag: the record header carries an ECU id.
pub const HTYP_WEID: u8 = 0x04;

/// Header type flag: the record header carries a session id.
pub const HTYP_WSID: u8 = 0x08;

/// Header type flag: the record header carries a device timestamp.
pub const HTYP_WTMS: u8 = 0x10;

/// Why no frame could be taken from a position of the stream.
#[derive(Debug, Clone, Copy, PartialEq, Eq, Structural)]
pub enum FrameError {
    /// The bytes at this position cannot start a frame.
    Malformed,
    /// A frame may start here, but the stream ends before the frame does.
    Incomplete,
}

/// Whether the header type `htyp` has the bit of `flag` set.
pub open spec fn has_flag(htyp: u8, flag: u8) -> bool {
    htyp & flag != 0
}

/// Length of the record header with the optional fields that `htyp` announces.
pub open spec fn header_len(htyp: u8) -> int {
    4 + (if has_flag(htyp, HTYP_WEID) { 4int } else { 0 })
      + (if has_flag(htyp, HTYP_WSID) { 4int } else { 0 })
      + (if has_flag(htyp, HTYP_WTMS) { 4int } else { 0 })
      + (if has_flag(htyp, HTYP_UEH) { 10int } else { 0 })
}

/// The number that the two bytes at `at` write, highest byte first.
pub open spec fn be_u16(s: Seq<u8>, at: int) -> int {
    s[at] * 256 + s[at + 1]
}

/// The number that the four bytes at `at` write, highest byte first.
pub open spec fn be_u32(s: Seq<u8>, at: int) -> int {
    s[at] * 16777216 + s[at + 1] * 65536 + s[at + 2] * 256 + s[at + 3]
}

/// The number that the four bytes at `at` write, lowest byte first.
pub open spec fn le_u32(s: Seq<u8>, at: int) -> int {
    s[at + 3] * 16777216 + s[at + 2] * 65536 + s[at + 1] * 256 + s[at]
}

/// Whether `s` begins with the pattern of a storage header: `DLT` and a one.
pub open spec fn starts_with_pattern(s: Seq<u8>) -> bool {
    s.len() >= 4 && s[0] == 0x44 && s[1] == 0x4c && s[2] == 0x54 && s[3] == 0x01
}

/// Offset of the session id within a frame whose header type is `htyp`.
pub open spec fn session_offset(htyp: u8) -> int {
    20 + (if has_flag(htyp, HTYP_WEID) { 4int } else { 0 })
}

/// Offset of the device timestamp within a frame whose header type is `htyp`.
pub open spec fn timestamp_offset(htyp: u8) -> int {
    session_offset(htyp) + (if has_flag(htyp, HTYP_WSID) { 4int } else { 0 })
}

/// Offset of the extended header within a frame whose header type is `htyp`.
pub open spec fn extended_offset(htyp: u8) -> int {
    timestamp_offset(htyp) + (if has_flag(htyp, HTYP_WTMS) { 4int } else { 0 })
}

/// The record that a complete frame at the start of `s` holds.
pub open spec fn frame_record(s: Seq<u8>, index: u32) -> RecordView {
    let htyp = s[16];
    let ext = extended_offset(htyp);
    RecordView {
        index,
        reception_time: (le_u32(s, 4) * 1000000 + le_u32(s, 8)) as u64,
        device_timestamp: if has_flag(htyp, HTYP_WTMS) {
            be_u32(s, timestamp_offset(htyp)) as u32
        } else {
            0
        },
        ecu_id: if has_flag(htyp, HTYP_WEID) {
            be_u32(s, 20) as u32
        } else {
            be_u32(s, 12) as u32
        },
        session_id: if has_flag(htyp, HTYP_WSID) {
            be_u32(s, session_offset(htyp)) as u32
        } else {
            0
        },
        application_id: if has_flag(htyp, HTYP_UEH) { be_u32(s, ext + 2) as u32 } else { 0 },
        context_id: if has_flag(htyp, HTYP_UEH) { be_u32(s, ext + 6) as u32 } else { 0 },
        htyp,
        mcnt: s[17],
        verb_mstp_mtin: if has_flag(htyp, HTYP_UEH) { s[ext] } else { 0 },
        noar: if has_flag(htyp, HTYP_UEH) { s[ext + 1] } else { 0 },
        lifecycle_id: None,
        payload: s.subrange(16 + header_len(htyp), 16 + be_u16(s, 18)),
    }
}

/// What the bytes `s` start with: a frame, given by the number of bytes it
/// takes and the record it holds, or the reason why there is none.
///
/// Fewer than [`MIN_FRAME_LEN`] bytes are never looked at. Otherwise a frame
/// needs the storage pattern and a declared length that covers its own header;
/// such a frame is incomplete if `s` ends before the declared length.
pub open spec fn parsed(s: Seq<u8>, index: u32) -> Result<(int, RecordView), FrameError> {
    if s.len() < 20 {
        Err(FrameError::Incomplete)
    } else if !starts_with_pattern(s) {
        Err(FrameError::Malformed)
    } else if be_u16(s, 18) < header_len(s[16]) {
        Err(FrameError::Malformed)
    } else if s.len() < 16 + be_u16(s, 18) {
        Err(FrameError::Incomplete)
    } else {
        Ok((16 + be_u16(s, 18), frame_record(s, index)))
    }
}

/// Reads four bytes as a number, highest byte first.
fn read_be_u32(data: &[u8], at: usize) -> (v: u32)
    requires
        at + 4 <= data.len(),
    ensures
        v == be_u32(data@, at as int),
{
    (data[at] as u32) * 16777216 + (data[at + 1] as u32) * 65536 + (data[at + 2] as u32) * 256
        + (data[at + 3] as u32)
}

/// Reads four bytes as a number, lowest byte first.
fn read_le_u32(data: &[u8], at: usize) -> (v: u32)
    requires
        at + 4 <= data.len(),
    ensures
        v == le_u32(data@, at as int),
{
    (data[at + 3] as u32) * 16777216 + (data[at + 2] as u32) * 65536 + (data[at + 1] as u32) * 256
        + (data[at] as u32)
}

/// Takes one frame from the start of `data` and gives the record in it the
/// index `index`.
pub fn parse_frame(data: &[u8], index: u32) -> (r: Result<(usize, TraceRecord), FrameError>)
    ensures
        match parsed(data@, index) {
            Ok((n, record)) => r is Ok && r->Ok_0.0 == n && r->Ok_0.1@ == record,
            Err(e) => r == Err::<(usize, TraceRecord), FrameError>(e),
        },
{
    if data.len() < MIN_FRAME_LEN {
        return Err(FrameError::Incomplete);
    }
    if data[0] != 0x44 || data[1] != 0x4c || data[2] != 0x54 || data[3] != 0x01 {
        return Err(FrameError::Malformed);
    }
    let htyp: u8 = data[16];
    let declared: usize = (data[18] as usize) * 256 + (data[19] as usize);
    let with_ecu: bool = htyp & HTYP_WEID != 0;
    let with_session: bool = htyp & HTYP_WSID != 0;
    let with_timestamp: bool = htyp & HTYP_WTMS != 0;
    let with_extended: bool = htyp & HTYP_UEH != 0;
    let session_at: usize = if with_ecu { 24 } else { 20 };
    let timestamp_at: usize = if with_session { session_at + 4 } else { session_at };
    let extended_at: usize = if with_timestamp { timestamp_at + 4 } else { timestamp_at };
    let payload_at: usize = if with_extended { extended_at + 10 } else { extended_at };
    if declared + STORAGE_HEADER_LEN < payload_at {
        return Err(FrameError::Malformed);
    }
    let frame_len: usize = STORAGE_HEADER_LEN + declared;
    if data.len() < frame_len {
        return Err(FrameError::Incomplete);
    }
    let seconds: u32 = read_le_u32(data, 4);
    let micros: u32 = read_le_u32(data, 8);
    let record = TraceRecord {
        index,
        reception_time: (seconds as u64) * 1000000 + (micros as u64),
        device_timestamp: if with_timestamp { read_be_u32(data, timestamp_at) } else { 0 },
        ecu_id: if with_ecu { read_be_u32(data, 20) } else { read_be_u32(data, 12) },
        session_id: if with_session { read_be_u32(data, session_at) } else { 0 },
        application_id: if with_extended { read_be_u32(data, extended_at + 2) } else { 0 },
        context_id: if with_extended { read_be_u32(data, extended_at + 6) } else { 0 },
        htyp,
        mcnt: data[17],
        verb_mstp_mtin: if with_extended { data[extended_at] } else { 0 },
        noar: if with_extended { data[extended_at + 1] } else { 0 },
        lifecycle_id: None,
        payload: slice_to_vec(slice_subrange(data, payload_at, frame_len)),
    };
    Ok((frame_len, record))
}


/// The four bytes of `v`, highest first.
pub open spec fn be_bytes(v: u32) -> Seq<u8> {
    seq![
        (v / 16777216) as u8,
        (v / 65536 % 256) as u8,
        (v / 256 % 256) as u8,
        (v % 256) as u8,
    ]
}

/// The four bytes of `v`, lowest first.
pub open spec fn le_bytes(v: u32) -> Seq<u8> {
    seq![
        (v % 256) as u8,
        (v / 256 % 256) as u8,
        (v / 65536 % 256) as u8,
        (v / 16777216) as u8,
    ]
}

/// A record whose frame has a length that the header can declare and a
/// reception time whose seconds fit the storage header.
pub open spec fn encodable(r: RecordView) -> bool {
    &&& header_len(r.htyp) + r.payload.len() <= 0xffff
    &&& r.reception_time / 1000000 <= u32::MAX
}

/// A record in which every field whose header part is absent is zero.
pub open spec fn fields_consistent(r: RecordView) -> bool {
    &&& !has_flag(r.htyp, HTYP_WTMS) ==> r.device_timestamp == 0
    &&& !has_flag(r.htyp, HTYP_WSID) ==> r.session_id == 0
    &&& !has_flag(r.htyp, HTYP_UEH) ==> r.application_id == 0 && r.context_id == 0
        && r.verb_mstp_mtin == 0 && r.noar == 0
}

/// The storage header and the always present part of the record header.
pub open spec fn encode_fixed(r: RecordView) -> Seq<u8> {
    let declared = header_len(r.htyp) + r.payload.len();
    seq![0x44u8, 0x4cu8, 0x54u8, 0x01u8]
        + le_bytes((r.reception_time / 1000000) as u32)
        + le_bytes((r.reception_time % 1000000) as u32)
        + be_bytes(r.ecu_id)
        + seq![r.htyp, r.mcnt, (declared / 256) as u8, (declared % 256) as u8]
}

/// The ECU id in the record header, if the header type announces one.
pub open spec fn optional_ecu(r: RecordView) -> Seq<u8> {
    if has_flag(r.htyp, HTYP_WEID) { be_bytes(r.ecu_id) } else { Seq::<u8>::empty() }
}

/// The session id in the record header, if the header type announces one.
pub open spec fn optional_session(r: RecordView) -> Seq<u8> {
    if has_flag(r.htyp, HTYP_WSID) { be_bytes(r.session_id) } else { Seq::<u8>::empty() }
}

/// The device timestamp in the record header, if the header type announces one.
pub open spec fn optional_timestamp(r: RecordView) -> Seq<u8> {
    if has_flag(r.htyp, HTYP_WTMS) { be_bytes(r.device_timestamp) } else { Seq::<u8>::empty() }
}

/// The extended header, if the header type announces one: message info,
/// number of arguments, application id and context id.
pub open spec fn optional_extended(r: RecordView) -> Seq<u8> {
    if has_flag(r.htyp, HTYP_UEH) {
        seq![r.verb_mstp_mtin, r.noar] + be_bytes(r.application_id) + be_bytes(r.context_id)
    } else {
        Seq::<u8>::empty()
    }
}

/// The optional fields of the record header, as far as `htyp` announces them.
pub open spec fn encode_optional(r: RecordView) -> Seq<u8> {
    optional_ecu(r) + optional_session(r) + optional_timestamp(r) + optional_extended(r)
}

/// The frame of a record: index and lifecycle are not part of it.
#[verifier::opaque]
pub open spec fn encoded(r: RecordView) -> Seq<u8> {
    encode_fixed(r) + encode_optional(r) + r.payload
}

/// Appends the four bytes of `v`, highest first.
fn push_be_u32(out: &mut Vec<u8>, v: u32)
    ensures
        final(out)@ == old(out)@ + be_bytes(v),
{
    out.push((v / 16777216) as u8);
    out.push((v / 65536 % 256) as u8);
    out.push((v / 256 % 256) as u8);
    out.push((v % 256) as u8);
    assert(out@ =~= old(out)@ + be_bytes(v));
}

/// Appends the four bytes of `v`, lowest first.
fn push_le_u32(out: &mut Vec<u8>, v: u32)
    ensures
        final(out)@ == old(out)@ + le_bytes(v),
{
    out.push((v % 256) as u8);
    out.push((v / 256 % 256) as u8);
    out.push((v / 65536 % 256) as u8);
    out.push((v / 16777216) as u8);
    assert(out@ =~= old(out)@ + le_bytes(v));
}

/// Writes the storage header and the first four bytes of the record header.
fn fixed_part(record: &TraceRecord, declared: usize) -> (out: Vec<u8>)
    requires
        encodable(record@),
        declared == header_len(record.htyp) + record.payload@.len(),
    ensures
        out@ == encode_fixed(record@),
{
    let mut out: Vec<u8> = Vec::new();
    out.push(0x44);
    out.push(0x4c);
    out.push(0x54);
    out.push(0x01);
    push_le_u32(&mut out, (record.reception_time / 1000000) as u32);
    push_le_u32(&mut out, (record.reception_time % 1000000) as u32);
    push_be_u32(&mut out, record.ecu_id);
    let ghost before = out@;
    out.push(record.htyp);
    out.push(record.mcnt);
    out.push((declared / 256) as u8);
    out.push((declared % 256) as u8);
    assert(out@ =~= before + seq![
        record.htyp,
        record.mcnt,
        (declared / 256) as u8,
        (declared % 256) as u8,
    ]);
    assert(out@ =~= encode_fixed(record@));
    out
}

/// Appends the ECU id if the header type announces one.
fn push_optional_ecu(out: &mut Vec<u8>, record: &TraceRecord)
    ensures
        final(out)@ == old(out)@ + optional_ecu(record@),
{
    if record.htyp & HTYP_WEID != 0 {
        push_be_u32(out, record.ecu_id);
    }
    assert(out@ =~= old(out)@ + optional_ecu(record@));
}

/// Appends the session id if the header type announces one.
fn push_optional_session(out: &mut Vec<u8>, record: &TraceRecord)
    ensures
        final(out)@ == old(out)@ + optional_session(record@),
{
    if record.htyp & HTYP_WSID != 0 {
        push_be_u32(out, record.session_id);
    }
    assert(out@ =~= old(out)@ + optional_session(record@));
}

/// Appends the device timestamp if the header type announces one.
fn push_optional_timestamp(out: &mut Vec<u8>, record: &TraceRecord)
    ensures
        final(out)@ == old(out)@ + optional_timestamp(record@),
{
    if record.htyp & HTYP_WTMS != 0 {
        push_be_u32(out, record.device_timestamp);
    }
    assert(out@ =~= old(out)@ + optional_timestamp(record@));
}

/// Appends the extended header if the header type announces one.
fn push_optional_extended(out: &mut Vec<u8>, record: &TraceRecord)
    ensures
        final(out)@ == old(out)@ + optional_extended(record@),
{
    if record.htyp & HTYP_UEH != 0 {
        out.push(record.verb_mstp_mtin);
        out.push(record.noar);
        push_be_u32(out, record.application_id);
        push_be_u32(out, record.context_id);
    }
    assert(out@ =~= old(out)@ + optional_extended(record@));
}

/// Length of the record header that `htyp` announces.
pub fn header_length(htyp: u8) -> (n: usize)
    ensures
        n == header_len(htyp),
        4 <= n <= 26,
{
    let mut n: usize = BASE_HEADER_LEN;
    if htyp & HTYP_WEID != 0 {
        n = n + 4;
    }
    if htyp & HTYP_WSID != 0 {
        n = n + 4;
    }
    if htyp & HTYP_WTMS != 0 {
        n = n + 4;
    }
    if htyp & HTYP_UEH != 0 {
        n = n + 10;
    }
    n
}

/// Writes the frame of `record`, or nothing if no frame can hold it.
pub fn encode_frame(record: &TraceRecord) -> (r: Option<Vec<u8>>)
    ensures
        r is Some <==> encodable(record@),
        r matches Some(bytes) ==> bytes@ == encoded(record@),
{
    proof {
        reveal(encoded);
    }
    let header: usize = header_length(record.htyp);
    if record.payload.len() > 0xffff - header {
        return None;
    }
    if record.reception_time / 1000000 > 0xffff_ffff {
        return None;
    }
    let mut out: Vec<u8> = fixed_part(record, header + record.payload.len());
    let ghost fixed = out@;
    push_optional_ecu(&mut out, record);
    push_optional_session(&mut out, record);
    push_optional_timestamp(&mut out, record);
    push_optional_extended(&mut out, record);
    assert(out@ =~= fixed + encode_optional(record@));
    let mut tail: Vec<u8> = slice_to_vec(record.payload.as_slice());
    out.append(&mut tail);
    Some(out)
}

/// Four bytes written highest first are read back as the number written.
proof fn lemma_be_roundtrip(s: Seq<u8>, at: int, v: u32)
    requires
        0 <= at,
        at + 4 <= s.len(),
        s.subrange(at, at + 4) == be_bytes(v),
    ensures
        be_u32(s, at) == v,
{
    let part = s.subrange(at, at + 4);
    assert(part[0] == s[at] && part[1] == s[at + 1] && part[2] == s[at + 2] && part[3] == s[at + 3]);
}

/// Four bytes written lowest first are read back as the number written.
proof fn lemma_le_roundtrip(s: Seq<u8>, at: int, v: u32)
    requires
        0 <= at,
        at + 4 <= s.len(),
        s.subrange(at, at + 4) == le_bytes(v),
    ensures
        le_u32(s, at) == v,
{
    let part = s.subrange(at, at + 4);
    assert(part[0] == s[at] && part[1] == s[at + 1] && part[2] == s[at + 2] && part[3] == s[at + 3]);
}

/// Where the parts of a sequence of seven lie in their concatenation.
proof fn lemma_parts(
    p: Seq<u8>,
    a: Seq<u8>,
    b: Seq<u8>,
    c: Seq<u8>,
    d: Seq<u8>,
    e: Seq<u8>,
    q: Seq<u8>,
)
    ensures
        ({
            let s = p + (a + b + c + d) + e + q;
            let at_a = p.len() as int;
            let at_b = at_a + a.len();
            let at_c = at_b + b.len();
            let at_d = at_c + c.len();
            let at_e = at_d + d.len();
            let at_q = at_e + e.len();
            &&& s.len() == at_q + q.len()
            &&& s.subrange(0, at_a) == p
            &&& s.subrange(at_a, at_b) == a
            &&& s.subrange(at_b, at_c) == b
            &&& s.subrange(at_c, at_d) == c
            &&& s.subrange(at_d, at_e) == d
            &&& s.subrange(at_e, at_q) == e
        }),
{
    let s = p + (a + b + c + d) + e + q;
    let at_a = p.len() as int;
    let at_b = at_a + a.len();
    let at_c = at_b + b.len();
    let at_d = at_c + c.len();
    let at_e = at_d + d.len();
    let at_q = at_e + e.len();
    assert(s.subrange(0, at_a) =~= p);
    assert(s.subrange(at_a, at_b) =~= a);
    assert(s.subrange(at_b, at_c) =~= b);
    assert(s.subrange(at_c, at_d) =~= c);
    assert(s.subrange(at_d, at_e) =~= d);
    assert(s.subrange(at_e, at_q) =~= e);
}

/// What reading finds in the first twenty bytes of a frame.
proof fn lemma_fixed_fields(r: RecordView, s: Seq<u8>)
    requires
        encodable(r),
        s.len() >= 20,
        s.subrange(0, 20) == encode_fixed(r),
    ensures
        starts_with_pattern(s),
        le_u32(s, 4) * 1000000 + le_u32(s, 8) == r.reception_time,
        be_u32(s, 12) == r.ecu_id,
        s[16] == r.htyp,
        s[17] == r.mcnt,
        be_u16(s, 18) == header_len(r.htyp) + r.payload.len(),
{
    let fixed = encode_fixed(r);
    let seconds = (r.reception_time / 1000000) as u32;
    let micros = (r.reception_time % 1000000) as u32;
    assert(forall|i: int| 0 <= i < 20 ==> s[i] == #[trigger] s.subrange(0, 20)[i]);
    assert(fixed.len() == 20);
    assert(fixed[0] == 0x44 && fixed[1] == 0x4c && fixed[2] == 0x54 && fixed[3] == 0x01);
    assert(s[0] == fixed[0] && s[1] == fixed[1] && s[2] == fixed[2] && s[3] == fixed[3]);
    assert(fixed.subrange(4, 8) =~= le_bytes(seconds));
    assert(fixed.subrange(8, 12) =~= le_bytes(micros));
    assert(fixed.subrange(12, 16) =~= be_bytes(r.ecu_id));
    lemma_le_roundtrip(fixed, 4, seconds);
    lemma_le_roundtrip(fixed, 8, micros);
    lemma_be_roundtrip(fixed, 12, r.ecu_id);
    assert(le_u32(s, 4) == le_u32(fixed, 4));
    assert(le_u32(s, 8) == le_u32(fixed, 8));
    assert(be_u32(s, 12) == be_u32(fixed, 12));
    assert(s[16] == fixed[16]);
    assert(s[17] == fixed[17]);
    assert(s[18] == fixed[18]);
    assert(s[19] == fixed[19]);
}

/// The frame of `r`, followed by `rest`, holds the parts of the frame at the
/// offsets that the header type gives.
pub open spec fn laid_out(r: RecordView, s: Seq<u8>) -> bool {
    let htyp = r.htyp;
    &&& s.len() >= 16 + header_len(htyp) + r.payload.len()
    &&& s.subrange(0, 20) == encode_fixed(r)
    &&& s.subrange(20, session_offset(htyp)) == optional_ecu(r)
    &&& s.subrange(session_offset(htyp), timestamp_offset(htyp)) == optional_session(r)
    &&& s.subrange(timestamp_offset(htyp), extended_offset(htyp)) == optional_timestamp(r)
    &&& s.subrange(extended_offset(htyp), 16 + header_len(htyp)) == optional_extended(r)
    &&& s.subrange(16 + header_len(htyp), 16 + header_len(htyp) + r.payload.len()) == r.payload
}

/// The frame of a record, with anything behind it, is laid out as the
/// header type of the record says.
proof fn lemma_layout(r: RecordView, rest: Seq<u8>)
    ensures
        laid_out(r, encoded(r) + rest),
        encoded(r).len() == 16 + header_len(r.htyp) + r.payload.len(),
{
    reveal(encoded);
    assert(encode_fixed(r).len() == 20);
    lemma_parts(
        encode_fixed(r),
        optional_ecu(r),
        optional_session(r),
        optional_timestamp(r),
        optional_extended(r),
        r.payload,
        rest,
    );
    lemma_parts(
        encode_fixed(r),
        optional_ecu(r),
        optional_session(r),
        optional_timestamp(r),
        optional_extended(r),
        r.payload,
        Seq::<u8>::empty(),
    );
    assert(encoded(r) + Seq::<u8>::empty() =~= encoded(r));
}

/// What reading finds in the optional part of a frame's header.
proof fn lemma_optional_fields(r: RecordView, s: Seq<u8>)
    requires
        laid_out(r, s),
    ensures
        has_flag(r.htyp, HTYP_WEID) ==> be_u32(s, 20) == r.ecu_id,
        has_flag(r.htyp, HTYP_WSID) ==> be_u32(s, session_offset(r.htyp)) == r.session_id,
        has_flag(r.htyp, HTYP_WTMS) ==> be_u32(s, timestamp_offset(r.htyp)) == r.device_timestamp,
{
    let htyp = r.htyp;
    if has_flag(htyp, HTYP_WEID) {
        lemma_be_roundtrip(s, 20, r.ecu_id);
    }
    if has_flag(htyp, HTYP_WSID) {
        lemma_be_roundtrip(s, session_offset(htyp), r.session_id);
    }
    if has_flag(htyp, HTYP_WTMS) {
        lemma_be_roundtrip(s, timestamp_offset(htyp), r.device_timestamp);
    }
}

/// What reading finds in the extended header of a frame that has one.
proof fn lemma_extended_fields(r: RecordView, s: Seq<u8>)
    requires
        laid_out(r, s),
        has_flag(r.htyp, HTYP_UEH),
    ensures
        s[extended_offset(r.htyp)] == r.verb_mstp_mtin,
        s[extended_offset(r.htyp) + 1] == r.noar,
        be_u32(s, extended_offset(r.htyp) + 2) == r.application_id,
        be_u32(s, extended_offset(r.htyp) + 6) == r.context_id,
{
    let at = extended_offset(r.htyp);
    let d = optional_extended(r);
    let part = s.subrange(at, at + 10);
    assert(part == d);
    assert(d.len() == 10);
    assert(forall|i: int| 0 <= i < 10 ==> s[at + i] == #[trigger] part[i]);
    assert(d[0] == r.verb_mstp_mtin && d[1] == r.noar);
    assert(part[0] == s[at + 0]);
    assert(part[1] == s[at + 1]);
    assert(d.subrange(2, 6) =~= be_bytes(r.application_id));
    assert(d.subrange(6, 10) =~= be_bytes(r.context_id));
    lemma_be_roundtrip(d, 2, r.application_id);
    lemma_be_roundtrip(d, 6, r.context_id);
    assert(part[2] == s[at + 2] && part[3] == s[at + 3] && part[4] == s[at + 4] && part[5] == s[at
        + 5]);
    assert(part[6] == s[at + 6] && part[7] == s[at + 7] && part[8] == s[at + 8] && part[9] == s[at
        + 9]);
}

/// The record that is read back from the frame of `r`.
pub open spec fn reread(r: RecordView, index: u32) -> RecordView {
    RecordView { index, lifecycle_id: None, ..r }
}

/// Reading the frame of a record gives the record back, whatever follows the
/// frame: what was written is read, with the index given and no lifecycle.
pub proof fn lemma_parse_encoded(r: RecordView, rest: Seq<u8>, index: u32)
    requires
        encodable(r),
        fields_consistent(r),
    ensures
        parsed(encoded(r) + rest, index) == Ok::<(int, RecordView), FrameError>(
            (encoded(r).len() as int, reread(r, index)),
        ),
        encoded(r).len() == 16 + header_len(r.htyp) + r.payload.len(),
{
    let s = encoded(r) + rest;
    lemma_layout(r, rest);
    lemma_fixed_fields(r, s);
    lemma_optional_fields(r, s);
    if has_flag(r.htyp, HTYP_UEH) {
        lemma_extended_fields(r, s);
    }
    let got = frame_record(s, index);
    assert(got.payload == r.payload);
    assert(got == reread(r, index));
}

/// What is read from the start of a stream does not depend on what follows
/// the bytes that were looked at: a frame stays the frame it is, and bytes
/// that cannot start a frame never can, whatever is appended.
pub proof fn lemma_parse_prefix(s: Seq<u8>, more: Seq<u8>, index: u32)
    requires
        parsed(s, index) != Err::<(int, RecordView), FrameError>(FrameError::Incomplete),
    ensures
        parsed(s + more, index) == parsed(s, index),
{
    let longer = s + more;
    assert(forall|i: int| 0 <= i < s.len() ==> longer[i] == s[i]);
    if parsed(s, index) is Ok {
        let htyp = s[16];
        let declared = be_u16(s, 18);
        assert(longer.subrange(16 + header_len(htyp), 16 + declared) =~= s.subrange(
            16 + header_len(htyp),
            16 + declared,
        ));
        assert(frame_record(longer, index) == frame_record(s, index));
    }
}

/// Every record that is read from a frame has zero in the fields whose header
/// part the frame lacks, and a length that a frame can declare.
pub proof fn lemma_parsed_is_consistent(s: Seq<u8>, index: u32)
    requires
        parsed(s, index) is Ok,
    ensures
        fields_consistent(parsed(s, index)->Ok_0.1),
        header_len(parsed(s, index)->Ok_0.1.htyp) + parsed(s, index)->Ok_0.1.payload.len()
            <= 0xffff,
{
}

} // verus!
