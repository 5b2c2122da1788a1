//! The laws of the codec, proved once and for all: decoding inverts
//! encoding, pointer cycles are always rejected, and a name reached
//! through a compression pointer decodes to the same string as the name
//! it points at.

use crate::buffer::{
    bytes_as_chars, is_ascii_bytes, label_chars, labels_ok, labels_ok_from, lemma_next_dot_bounds,
    lemma_qname_wire_nonempty, lossy_decode, lowercase_chars, next_dot, parse_name, qname_wire,
    qname_wire_from, MAX_JUMPS, PACKET_SIZE,
};
use crate::record::name_bytes;
use crate::DnsError;
use vstd::prelude::*;

verus! {

/// The shape a name must have for encode-then-decode to reproduce it: it
/// is either empty or consists of nonempty dot-terminated labels — the
/// fully-qualified form that decoding itself always produces.
pub open spec fn canonical_name_from(b: Seq<u8>, start: int) -> bool
    decreases b.len() - start + 1,
    via canonical_name_from_dec
{
    if start > b.len() {
        true
    } else {
        let j = next_dot(b, start);
        if j >= b.len() {
            j == start
        } else {
            j > start && canonical_name_from(b, j + 1)
        }
    }
}

#[via_fn]
proof fn canonical_name_from_dec(b: Seq<u8>, start: int) {
    if start <= b.len() {
        lemma_next_dot_bounds(b, start);
    }
}

/// What `next_dot` finds: the first dot at or after `start`, or the end.
proof fn lemma_next_dot_spec(b: Seq<u8>, start: int)
    requires
        0 <= start <= b.len(),
    ensures
        start <= next_dot(b, start) <= b.len(),
        next_dot(b, start) < b.len() ==> b[next_dot(b, start)] == 46,
        forall|k: int| start <= k < next_dot(b, start) ==> b[k] != 46,
    decreases b.len() - start,
{
    if start < b.len() && b[start] != 46 {
        lemma_next_dot_spec(b, start + 1);
    }
}

/// True of names whose encoding decodes back to them: lowercase ASCII
/// characters in nonempty dot-terminated labels of at most 63 bytes.
pub open spec fn wire_name_ok(name: Seq<char>) -> bool {
    &&& vstd::utf8::is_ascii_chars(name)
    &&& (forall|i: int| 0 <= i < name.len() ==> !('A' <= #[trigger] name[i] <= 'Z'))
    &&& canonical_name_from(name_bytes(name), 0)
    &&& labels_ok(name_bytes(name))
}

/// An ASCII byte sequence free of uppercase letters decodes — lossy UTF-8
/// decoding followed by lowercasing — to exactly its own characters.
pub proof fn lemma_label_chars_identity(b: Seq<u8>)
    requires
        forall|i: int| 0 <= i < b.len() ==> #[trigger] b[i] < 0x80,
        forall|i: int| 0 <= i < b.len() ==> !(65 <= #[trigger] b[i] <= 90),
    ensures
        label_chars(b) == bytes_as_chars(b),
{
    assert(is_ascii_bytes(b));
    let chars = bytes_as_chars(b);
    assert forall|i: int| 0 <= i < chars.len() implies #[trigger] chars[i] < 128 by {
        assert(b[i] < 0x80);
    }
    assert(vstd::utf8::is_ascii_chars(chars));
    assert(lossy_decode(b) == chars);
    assert forall|i: int| 0 <= i < chars.len() implies crate::buffer::lower_ascii_char(
        #[trigger] chars[i],
    ) == chars[i] by {
        assert(!(65 <= b[i] <= 90));
    }
    assert(lowercase_chars(chars) =~= chars);
}

/// Decoding at the start of an uncompressed wire-form name reproduces the
/// name's characters and leaves the position just past its terminator,
/// whatever jump budget is already spent.
pub proof fn lemma_name_round_trip_from(
    bytes: Seq<u8>,
    pos: int,
    nb: Seq<u8>,
    start: int,
    jumps: int,
)
    requires
        bytes.len() == PACKET_SIZE,
        0 <= start <= nb.len(),
        0 <= pos,
        pos + qname_wire_from(nb, start).len() <= PACKET_SIZE,
        bytes.subrange(pos, pos + qname_wire_from(nb, start).len() as int) == qname_wire_from(
            nb,
            start,
        ),
        canonical_name_from(nb, start),
        labels_ok_from(nb, start),
        forall|i: int| start <= i < nb.len() ==> #[trigger] nb[i] < 0x80,
        forall|i: int| start <= i < nb.len() ==> !(65 <= #[trigger] nb[i] <= 90),
        0 <= jumps <= MAX_JUMPS,
    ensures
        parse_name(bytes, pos, jumps) == Ok::<(Seq<char>, int), DnsError>(
            (
                bytes_as_chars(nb.subrange(start, nb.len() as int)),
                pos + qname_wire_from(nb, start).len(),
            ),
        ),
    decreases nb.len() - start + 1,
{
    let j = next_dot(nb, start);
    lemma_next_dot_spec(nb, start);
    let w = qname_wire_from(nb, start);
    if j >= nb.len() {
        // Canonical names end in an empty chunk: the wire is one zero byte.
        assert(j == start);
        assert(w =~= seq![0u8]);
        assert(bytes[pos] == w[0]);
        assert(bytes[pos] == 0);
        assert(0u8 & 0xC0 != 0xC0) by (bit_vector);
        assert(nb.subrange(start, nb.len() as int) =~= Seq::<u8>::empty());
        assert(bytes_as_chars(Seq::<u8>::empty()) =~= Seq::<char>::empty());
    } else {
        assert(j > start);
        let chunk = nb.subrange(start, j);
        let ll = j - start;
        assert(ll <= 63);
        let piece = seq![ll as u8] + chunk;
        let tail = qname_wire_from(nb, j + 1);
        assert(w == piece + tail);
        lemma_qname_wire_nonempty(nb, j + 1);
        assert(w.len() == 1 + ll + tail.len());
        assert(bytes[pos] == w[0]);
        assert(w[0] == ll as u8);
        let lb = ll as u8;
        assert(0 < lb <= 63);
        assert(lb <= 63 ==> lb & 0xC0 != 0xC0) by (bit_vector);
        // The label's bytes sit right after the length byte.
        assert(bytes.subrange(pos + 1, pos + 1 + ll) =~= chunk) by {
            assert forall|i: int| 0 <= i < ll implies bytes.subrange(pos + 1, pos + 1 + ll)[i]
                == chunk[i] by {
                assert(bytes.subrange(pos, pos + w.len() as int)[1 + i] == w[1 + i]);
                assert(w[1 + i] == piece[1 + i]);
            }
        }
        // The rest of the wire is the tail's wire.
        assert(bytes.subrange(pos + 1 + ll, pos + 1 + ll + tail.len() as int) =~= tail) by {
            assert forall|i: int| 0 <= i < tail.len() implies bytes.subrange(
                pos + 1 + ll,
                pos + 1 + ll + tail.len() as int,
            )[i] == tail[i] by {
                assert(bytes.subrange(pos, pos + w.len() as int)[1 + ll + i] == w[1 + ll + i]);
                assert(w[1 + ll + i] == tail[i]);
            }
        }
        lemma_name_round_trip_from(bytes, pos + 1 + ll, nb, j + 1, jumps);
        lemma_label_chars_identity(chunk);
        assert(nb[j] == 46);
        assert('.' == 46u8 as char);
        assert(nb.subrange(start, nb.len() as int) =~= chunk + seq![46u8] + nb.subrange(
            j + 1,
            nb.len() as int,
        ));
        assert(bytes_as_chars(chunk + seq![46u8] + nb.subrange(j + 1, nb.len() as int))
            =~= bytes_as_chars(chunk) + seq!['.'] + bytes_as_chars(
            nb.subrange(j + 1, nb.len() as int),
        ));
    }
}

/// Round trip of a whole name: decoding the wire form written for a
/// lowercase fully-qualified name yields that name again, with the cursor
/// just past its terminating zero.
pub proof fn lemma_name_round_trip(bytes: Seq<u8>, pos: int, name: Seq<char>, jumps: int)
    requires
        bytes.len() == PACKET_SIZE,
        wire_name_ok(name),
        0 <= pos,
        pos + qname_wire(name_bytes(name)).len() <= PACKET_SIZE,
        bytes.subrange(pos, pos + qname_wire(name_bytes(name)).len() as int) == qname_wire(
            name_bytes(name),
        ),
        0 <= jumps <= MAX_JUMPS,
    ensures
        parse_name(bytes, pos, jumps) == Ok::<(Seq<char>, int), DnsError>(
            (name, pos + qname_wire(name_bytes(name)).len()),
        ),
{
    let nb = name_bytes(name);
    vstd::utf8::is_ascii_chars_encode_utf8(name);
    assert(nb =~= Seq::new(name.len(), |i: int| name[i] as u8));
    assert forall|i: int| 0 <= i < nb.len() implies #[trigger] nb[i] < 0x80 by {
        assert(name[i] < 128);
    }
    assert forall|i: int| 0 <= i < nb.len() implies !(65 <= #[trigger] nb[i] <= 90) by {
        assert(!('A' <= name[i] <= 'Z'));
    }
    lemma_name_round_trip_from(bytes, pos, nb, 0, jumps);
    assert(nb.subrange(0, nb.len() as int) =~= nb);
    assert(bytes_as_chars(nb) =~= name);
}

/// A compression pointer that points at itself is rejected within the
/// jump budget, never followed forever.
pub proof fn lemma_pointer_cycle_fails(bytes: Seq<u8>, k: int, jumps: int)
    requires
        bytes.len() == PACKET_SIZE,
        0 <= k,
        k + 1 < PACKET_SIZE,
        bytes[k] & 0xC0 == 0xC0,
        (bytes[k] ^ 0xC0) * 256 + bytes[k + 1] == k,
        0 <= jumps,
    ensures
        parse_name(bytes, k, jumps) == Err::<(Seq<char>, int), DnsError>(DnsError::TooManyJumps),
    decreases (if jumps > MAX_JUMPS {
        0int
    } else {
        MAX_JUMPS + 1 - jumps
    }),
{
    if jumps > MAX_JUMPS {
    } else {
        lemma_pointer_cycle_fails(bytes, k, jumps + 1);
    }
}

/// A name that decodes with a tighter jump budget decodes the same, to
/// the same characters and resume position, with any looser one.
pub proof fn lemma_parse_budget_monotone(bytes: Seq<u8>, pos: int, jumps: int)
    requires
        0 <= jumps,
        jumps + 1 <= MAX_JUMPS as int,
        parse_name(bytes, pos, jumps + 1) is Ok,
    ensures
        parse_name(bytes, pos, jumps) == parse_name(bytes, pos, jumps + 1),
    decreases
            MAX_JUMPS as int + 1 - jumps,
            (if pos >= PACKET_SIZE {
                0int
            } else {
                PACKET_SIZE - pos
            }),
{
    if 0 <= pos < PACKET_SIZE {
        let len = bytes[pos];
        if len & 0xC0 == 0xC0 {
            if pos + 1 < PACKET_SIZE {
                let target = (len ^ 0xC0) * 256 + bytes[pos + 1];
                if jumps + 2 <= MAX_JUMPS as int {
                    lemma_parse_budget_monotone(bytes, target as int, jumps + 1);
                } else {
                    // Following this pointer would spend the sixth jump.
                    assert(parse_name(bytes, target as int, MAX_JUMPS as int + 1) == Err::<
                        (Seq<char>, int),
                        DnsError,
                    >(DnsError::TooManyJumps));
                    assert(false);
                }
            }
        } else if len == 0 {
        } else if pos + 1 + len <= PACKET_SIZE {
            lemma_parse_budget_monotone(bytes, pos + 1 + len, jumps);
        }
    }
}

/// Name compression is faithful: where the bytes at `q` are a pointer to
/// `p`, and the name at `p` decodes with at least one jump of the budget
/// unspent, the name read at `q` is the same string as the one read at
/// `p` directly, and the cursor resumes right after the two-byte pointer.
pub proof fn lemma_compressed_alias(bytes: Seq<u8>, p: int, q: int)
    requires
        bytes.len() == PACKET_SIZE,
        0 <= q,
        q + 1 < PACKET_SIZE,
        bytes[q] & 0xC0 == 0xC0,
        (bytes[q] ^ 0xC0) * 256 + bytes[q + 1] == p,
        parse_name(bytes, p, 1) is Ok,
    ensures
        parse_name(bytes, q, 0) is Ok,
        parse_name(bytes, p, 0) is Ok,
        parse_name(bytes, q, 0)->Ok_0.0 == parse_name(bytes, p, 0)->Ok_0.0,
        parse_name(bytes, q, 0)->Ok_0.1 == q + 2,
{
    lemma_parse_budget_monotone(bytes, p, 0);
}

/// A chunk of a wire image laid down in `bytes` is itself laid down at
/// its offset.
proof fn lemma_subrange_chunk(bytes: Seq<u8>, pos: int, w: Seq<u8>, off: int, sub: Seq<u8>)
    requires
        0 <= pos,
        pos + w.len() <= bytes.len(),
        bytes.subrange(pos, pos + w.len() as int) == w,
        0 <= off,
        off + sub.len() <= w.len(),
        w.subrange(off, off + sub.len() as int) == sub,
    ensures
        bytes.subrange(pos + off, pos + off + sub.len() as int) == sub,
{
    assert(bytes.subrange(pos + off, pos + off + sub.len() as int) =~= sub) by {
        assert forall|i: int| 0 <= i < sub.len() implies bytes.subrange(
            pos + off,
            pos + off + sub.len() as int,
        )[i] == sub[i] by {
            assert(bytes.subrange(pos, pos + w.len() as int)[off + i] == w[off + i]);
            assert(w.subrange(off, off + sub.len() as int)[i] == sub[i]);
        }
    }
}

/// The 2-byte big-endian image of `v` reads back as `v`.
proof fn lemma_be16_at(bytes: Seq<u8>, pos: int, v: u16)
    requires
        0 <= pos,
        pos + 2 <= bytes.len(),
        bytes.subrange(pos, pos + 2) == crate::buffer::be16(v),
    ensures
        crate::buffer::be_at(bytes, pos, 2) == v,
{
    assert(bytes[pos] == crate::buffer::be16(v)[0]);
    assert(bytes[pos + 1] == crate::buffer::be16(v)[1]);
    assert(crate::buffer::be_at(bytes, pos, 0) == 0);
    assert(crate::buffer::be_at(bytes, pos, 1) == bytes[pos]);
    assert(crate::buffer::be_at(bytes, pos, 2) == bytes[pos] * 256 + bytes[pos + 1]);
    assert((v / 256) * 256 + v % 256 == v) by (bit_vector);
}

/// The 4-byte big-endian image of `v` reads back as `v`.
proof fn lemma_be32_at(bytes: Seq<u8>, pos: int, v: u32)
    requires
        0 <= pos,
        pos + 4 <= bytes.len(),
        bytes.subrange(pos, pos + 4) == crate::buffer::be32(v),
    ensures
        crate::buffer::be_at(bytes, pos, 4) == v,
{
    assert(bytes[pos] == crate::buffer::be32(v)[0]);
    assert(bytes[pos + 1] == crate::buffer::be32(v)[1]);
    assert(bytes[pos + 2] == crate::buffer::be32(v)[2]);
    assert(bytes[pos + 3] == crate::buffer::be32(v)[3]);
    assert(crate::buffer::be_at(bytes, pos, 0) == 0);
    assert(crate::buffer::be_at(bytes, pos, 1) == bytes[pos]);
    assert(crate::buffer::be_at(bytes, pos, 2) == crate::buffer::be_at(bytes, pos, 1) * 256
        + bytes[pos + 1]);
    assert(crate::buffer::be_at(bytes, pos, 3) == crate::buffer::be_at(bytes, pos, 2) * 256
        + bytes[pos + 2]);
    assert(crate::buffer::be_at(bytes, pos, 4) == crate::buffer::be_at(bytes, pos, 3) * 256
        + bytes[pos + 3]);
    assert(((v / 0x1000000 % 256) * 256 + (v / 0x10000 % 256)) * 256 * 256 + (v / 256 % 256) * 256
        + v % 256 == v) by (bit_vector);
}

/// Decoding the 12 bytes written for a well-formed header reproduces every
/// field: id, each flag, opcode, result code, and the four counts.
pub proof fn lemma_header_round_trip(bytes: Seq<u8>, pos: int, h: crate::header::DnsHeader)
    requires
        crate::header::header_wf(h),
        0 <= pos,
        pos + 12 <= bytes.len(),
        bytes.subrange(pos, pos + 12) == crate::header::wire_header(h),
    ensures
        crate::header::header_at(bytes, pos) == h,
{
    let w = crate::header::wire_header(h);
    let a = crate::header::flags_low(h);
    let b = crate::header::flags_high(h);
    assert(w.len() == 12);
    assert(w.subrange(0, 2) =~= crate::buffer::be16(h.id));
    lemma_subrange_chunk(bytes, pos, w, 0, crate::buffer::be16(h.id));
    lemma_be16_at(bytes, pos, h.id);
    assert(bytes[pos + 2] == w[2]);
    assert(bytes[pos + 3] == w[3]);
    assert(w[2] == a);
    assert(w[3] == b);
    let r0 = crate::header::bit01(h.recursion_desired);
    let t0 = crate::header::bit01(h.truncated_message);
    let a0 = crate::header::bit01(h.authoritative_answer);
    let p0 = crate::header::bit01(h.response);
    let op = h.opcode;
    assert(a == (r0 + t0 * 2 + a0 * 4 + op * 8 + p0 * 128) as u8);
    assert({
        let x = (r0 + t0 * 2 + a0 * 4 + op * 8 + p0 * 128) as u8;
        r0 <= 1 && t0 <= 1 && a0 <= 1 && p0 <= 1 && op <= 15 ==> (x % 2 == r0 && x / 2 % 2 == t0
            && x / 4 % 2 == a0 && x / 8 % 16 == op && x / 128 % 2 == p0)
    }) by (bit_vector);
    let c0 = crate::rscode::rc_num(h.rescode);
    let d0 = crate::header::bit01(h.checking_disabled);
    let e0 = crate::header::bit01(h.authed_data);
    let z0 = crate::header::bit01(h.z);
    let v0 = crate::header::bit01(h.recursion_available);
    assert(b == (c0 + d0 * 16 + e0 * 32 + z0 * 64 + v0 * 128) as u8);
    assert({
        let y = (c0 + d0 * 16 + e0 * 32 + z0 * 64 + v0 * 128) as u8;
        c0 <= 15 && d0 <= 1 && e0 <= 1 && z0 <= 1 && v0 <= 1 ==> (y % 16 == c0 && y / 16 % 2 == d0
            && y / 32 % 2 == e0 && y / 64 % 2 == z0 && y / 128 % 2 == v0)
    }) by (bit_vector);
    assert(crate::rscode::rc_of_num((b % 16) as u8) == h.rescode);
    assert(w.subrange(4, 6) =~= crate::buffer::be16(h.questions));
    lemma_subrange_chunk(bytes, pos, w, 4, crate::buffer::be16(h.questions));
    lemma_be16_at(bytes, pos + 4, h.questions);
    assert(w.subrange(6, 8) =~= crate::buffer::be16(h.answers));
    lemma_subrange_chunk(bytes, pos, w, 6, crate::buffer::be16(h.answers));
    lemma_be16_at(bytes, pos + 6, h.answers);
    assert(w.subrange(8, 10) =~= crate::buffer::be16(h.authoritative_entries));
    lemma_subrange_chunk(bytes, pos, w, 8, crate::buffer::be16(h.authoritative_entries));
    lemma_be16_at(bytes, pos + 8, h.authoritative_entries);
    assert(w.subrange(10, 12) =~= crate::buffer::be16(h.resource_entries));
    lemma_subrange_chunk(bytes, pos, w, 10, crate::buffer::be16(h.resource_entries));
    lemma_be16_at(bytes, pos + 10, h.resource_entries);
}

/// Decoding the bytes written for a question reproduces it, provided its
/// name is in the canonical lowercase form and its type is one decoding
/// can produce.
pub proof fn lemma_question_round_trip(bytes: Seq<u8>, pos: int, q: crate::question::QuestionModel)
    requires
        bytes.len() == PACKET_SIZE,
        wire_name_ok(q.name),
        crate::qtype::qt_wf(q.qtype),
        0 <= pos,
        pos + crate::question::wire_question(q).len() <= PACKET_SIZE,
        bytes.subrange(pos, pos + crate::question::wire_question(q).len() as int)
            == crate::question::wire_question(q),
    ensures
        crate::question::parse_question(bytes, pos) == Ok::<
            (crate::question::QuestionModel, int),
            DnsError,
        >((q, pos + crate::question::wire_question(q).len())),
{
    let w = crate::question::wire_question(q);
    let qn = qname_wire(name_bytes(q.name));
    let tnum = crate::buffer::be16(crate::qtype::qt_num(q.qtype));
    assert(w.subrange(0, qn.len() as int) =~= qn);
    lemma_subrange_chunk(bytes, pos, w, 0, qn);
    lemma_name_round_trip(bytes, pos, q.name, 0);
    let p1 = pos + qn.len() as int;
    assert(w.subrange(qn.len() as int, qn.len() as int + 2) =~= tnum);
    lemma_subrange_chunk(bytes, pos, w, qn.len() as int, tnum);
    lemma_be16_at(bytes, p1, crate::qtype::qt_num(q.qtype));
}

/// True of the record shapes whose encoding decodes back to them: every
/// name canonical lowercase, and not the unknown variant, which encoding
/// deliberately omits.
pub open spec fn record_wire_ok(m: crate::record::RecordModel) -> bool {
    match m {
        crate::record::RecordModel::UNKNOWN { .. } => false,
        crate::record::RecordModel::A { domain, .. } => wire_name_ok(domain),
        crate::record::RecordModel::NS { domain, host, .. } => wire_name_ok(domain) && wire_name_ok(
            host,
        ),
        crate::record::RecordModel::CNAME { domain, host, .. } => wire_name_ok(domain)
            && wire_name_ok(host),
        crate::record::RecordModel::SOA { domain, mname, rname, .. } => wire_name_ok(domain)
            && wire_name_ok(mname) && wire_name_ok(rname),
        crate::record::RecordModel::MX { domain, host, .. } => wire_name_ok(domain)
            && wire_name_ok(host),
        crate::record::RecordModel::AAAA { domain, .. } => wire_name_ok(domain),
    }
}

/// The uniform record prelude and length field read back as written, and
/// the payload bytes lie just after them.
proof fn lemma_prelude_parse(
    bytes: Seq<u8>,
    pos: int,
    domain: Seq<char>,
    qnum: u16,
    ttl: u32,
    dlv: u16,
    payload: Seq<u8>,
)
    requires
        bytes.len() == PACKET_SIZE,
        wire_name_ok(domain),
        0 <= pos,
        pos + (crate::record::rr_prelude(domain, qnum, ttl) + crate::buffer::be16(dlv)
            + payload).len() <= PACKET_SIZE,
        bytes.subrange(
            pos,
            pos + (crate::record::rr_prelude(domain, qnum, ttl) + crate::buffer::be16(dlv)
                + payload).len() as int,
        ) == crate::record::rr_prelude(domain, qnum, ttl) + crate::buffer::be16(dlv) + payload,
    ensures
        ({
            let qn = qname_wire(name_bytes(domain));
            let p1 = pos + qn.len() as int;
            &&& parse_name(bytes, pos, 0) == Ok::<(Seq<char>, int), DnsError>((domain, p1))
            &&& crate::buffer::be_at(bytes, p1, 2) == qnum
            &&& crate::buffer::be_at(bytes, p1 + 4, 4) == ttl
            &&& crate::buffer::be_at(bytes, p1 + 8, 2) == dlv
            &&& bytes.subrange(p1 + 10, p1 + 10 + payload.len() as int) == payload
            &&& p1 + 10 + payload.len() == pos + (crate::record::rr_prelude(domain, qnum, ttl)
                + crate::buffer::be16(dlv) + payload).len()
        }),
{
    let qn = qname_wire(name_bytes(domain));
    let w = crate::record::rr_prelude(domain, qnum, ttl) + crate::buffer::be16(dlv) + payload;
    let p1 = pos + qn.len() as int;
    assert(w.len() == qn.len() + 10 + payload.len());
    assert(w.subrange(0, qn.len() as int) =~= qn);
    lemma_subrange_chunk(bytes, pos, w, 0, qn);
    lemma_name_round_trip(bytes, pos, domain, 0);
    assert(w.subrange(qn.len() as int, qn.len() as int + 2) =~= crate::buffer::be16(qnum));
    lemma_subrange_chunk(bytes, pos, w, qn.len() as int, crate::buffer::be16(qnum));
    lemma_be16_at(bytes, p1, qnum);
    assert(w.subrange(qn.len() as int + 4, qn.len() as int + 8) =~= crate::buffer::be32(ttl));
    lemma_subrange_chunk(bytes, pos, w, qn.len() as int + 4, crate::buffer::be32(ttl));
    lemma_be32_at(bytes, p1 + 4, ttl);
    assert(w.subrange(qn.len() as int + 8, qn.len() as int + 10) =~= crate::buffer::be16(dlv));
    lemma_subrange_chunk(bytes, pos, w, qn.len() as int + 8, crate::buffer::be16(dlv));
    lemma_be16_at(bytes, p1 + 8, dlv);
    assert(w.subrange(qn.len() as int + 10, w.len() as int) =~= payload);
    lemma_subrange_chunk(bytes, pos, w, qn.len() as int + 10, payload);
}

/// Decoding the bytes written for a known record reproduces it, for every
/// supported record type.
#[verifier::rlimit(100)]
#[verifier::spinoff_prover]
pub proof fn lemma_record_round_trip(bytes: Seq<u8>, pos: int, m: crate::record::RecordModel)
    requires
        bytes.len() == PACKET_SIZE,
        record_wire_ok(m),
        0 <= pos,
        pos + crate::record::wire_record(m).len() <= PACKET_SIZE,
        bytes.subrange(pos, pos + crate::record::wire_record(m).len() as int)
            == crate::record::wire_record(m),
    ensures
        crate::record::parse_record(bytes, pos) == Ok::<(crate::record::RecordModel, int), DnsError>(
            (m, pos + crate::record::wire_record(m).len()),
        ),
{
    let w = crate::record::wire_record(m);
    let pay = crate::record::rr_payload(m);
    match m {
        crate::record::RecordModel::UNKNOWN { .. } => {
        },
        crate::record::RecordModel::A { domain, addr, ttl } => {
            lemma_prelude_parse(bytes, pos, domain, 1, ttl, 4, pay);
            let qn = qname_wire(name_bytes(domain));
            let p2 = pos + qn.len() as int + 10;
            lemma_be32_at(bytes, p2, addr);
        },
        crate::record::RecordModel::NS { domain, host, ttl } => {
            lemma_prelude_parse(bytes, pos, domain, 2, ttl, pay.len() as u16, pay);
            let qn = qname_wire(name_bytes(domain));
            let p2 = pos + qn.len() as int + 10;
            lemma_name_round_trip(bytes, p2, host, 0);
        },
        crate::record::RecordModel::CNAME { domain, host, ttl } => {
            lemma_prelude_parse(bytes, pos, domain, 5, ttl, pay.len() as u16, pay);
            let qn = qname_wire(name_bytes(domain));
            let p2 = pos + qn.len() as int + 10;
            lemma_name_round_trip(bytes, p2, host, 0);
        },
        crate::record::RecordModel::SOA { .. } => {
            lemma_record_round_trip_soa(bytes, pos, m);
        },
        crate::record::RecordModel::MX { domain, priority, host, ttl } => {
            lemma_prelude_parse(bytes, pos, domain, 15, ttl, pay.len() as u16, pay);
            let qn = qname_wire(name_bytes(domain));
            let p2 = pos + qn.len() as int + 10;
            let qh = qname_wire(name_bytes(host));
            assert(pay.subrange(0, 2) =~= crate::buffer::be16(priority));
            lemma_subrange_chunk(bytes, p2, pay, 0, crate::buffer::be16(priority));
            lemma_be16_at(bytes, p2, priority);
            assert(pay.subrange(2, 2 + qh.len() as int) =~= qh);
            lemma_subrange_chunk(bytes, p2, pay, 2, qh);
            lemma_name_round_trip(bytes, p2 + 2, host, 0);
        },
        crate::record::RecordModel::AAAA { domain, addr, ttl } => {
            lemma_prelude_parse(bytes, pos, domain, 28, ttl, 16, pay);
            let qn = qname_wire(name_bytes(domain));
            let p2 = pos + qn.len() as int + 10;
            assert(pay.subrange(0, 2) =~= crate::buffer::be16(addr.g0));
            lemma_subrange_chunk(bytes, p2, pay, 0, crate::buffer::be16(addr.g0));
            lemma_be16_at(bytes, p2, addr.g0);
            assert(pay.subrange(2, 4) =~= crate::buffer::be16(addr.g1));
            lemma_subrange_chunk(bytes, p2, pay, 2, crate::buffer::be16(addr.g1));
            lemma_be16_at(bytes, p2 + 2, addr.g1);
            assert(pay.subrange(4, 6) =~= crate::buffer::be16(addr.g2));
            lemma_subrange_chunk(bytes, p2, pay, 4, crate::buffer::be16(addr.g2));
            lemma_be16_at(bytes, p2 + 4, addr.g2);
            assert(pay.subrange(6, 8) =~= crate::buffer::be16(addr.g3));
            lemma_subrange_chunk(bytes, p2, pay, 6, crate::buffer::be16(addr.g3));
            lemma_be16_at(bytes, p2 + 6, addr.g3);
            assert(pay.subrange(8, 10) =~= crate::buffer::be16(addr.g4));
            lemma_subrange_chunk(bytes, p2, pay, 8, crate::buffer::be16(addr.g4));
            lemma_be16_at(bytes, p2 + 8, addr.g4);
            assert(pay.subrange(10, 12) =~= crate::buffer::be16(addr.g5));
            lemma_subrange_chunk(bytes, p2, pay, 10, crate::buffer::be16(addr.g5));
            lemma_be16_at(bytes, p2 + 10, addr.g5);
            assert(pay.subrange(12, 14) =~= crate::buffer::be16(addr.g6));
            lemma_subrange_chunk(bytes, p2, pay, 12, crate::buffer::be16(addr.g6));
            lemma_be16_at(bytes, p2 + 12, addr.g6);
            assert(pay.subrange(14, 16) =~= crate::buffer::be16(addr.g7));
            lemma_subrange_chunk(bytes, p2, pay, 14, crate::buffer::be16(addr.g7));
            lemma_be16_at(bytes, p2 + 14, addr.g7);
        },
    }
}


/// The start-of-authority case of the record round trip: two names and
/// five intervals behind the length field.
#[verifier::rlimit(100)]
#[verifier::spinoff_prover]
proof fn lemma_record_round_trip_soa(bytes: Seq<u8>, pos: int, m: crate::record::RecordModel)
    requires
        bytes.len() == PACKET_SIZE,
        record_wire_ok(m),
        m matches crate::record::RecordModel::SOA { .. },
        0 <= pos,
        pos + crate::record::wire_record(m).len() <= PACKET_SIZE,
        bytes.subrange(pos, pos + crate::record::wire_record(m).len() as int)
            == crate::record::wire_record(m),
    ensures
        crate::record::parse_record(bytes, pos) == Ok::<(crate::record::RecordModel, int), DnsError>(
            (m, pos + crate::record::wire_record(m).len()),
        ),
{
    let w = crate::record::wire_record(m);
    let pay = crate::record::rr_payload(m);
    if let crate::record::RecordModel::SOA {
        domain,
        ttl,
        mname,
        rname,
        serial,
        refresh,
        retry,
        expire,
        minimum,
    } = m {
            lemma_prelude_parse(bytes, pos, domain, 6, ttl, pay.len() as u16, pay);
            let qn = qname_wire(name_bytes(domain));
            let p2 = pos + qn.len() as int + 10;
            let qm = qname_wire(name_bytes(mname));
            let qr = qname_wire(name_bytes(rname));
            assert(pay.subrange(0, qm.len() as int) =~= qm);
            lemma_subrange_chunk(bytes, p2, pay, 0, qm);
            lemma_name_round_trip(bytes, p2, mname, 0);
            let p3 = p2 + qm.len() as int;
            assert(pay.subrange(qm.len() as int, qm.len() as int + qr.len() as int) =~= qr);
            lemma_subrange_chunk(bytes, p2, pay, qm.len() as int, qr);
            lemma_name_round_trip(bytes, p3, rname, 0);
            let p4 = p3 + qr.len() as int;
            let off = qm.len() as int + qr.len() as int;
            assert(pay.subrange(off, off + 4) =~= crate::buffer::be32(serial));
            lemma_subrange_chunk(bytes, p2, pay, off, crate::buffer::be32(serial));
            lemma_be32_at(bytes, p4, serial);
            assert(pay.subrange(off + 4, off + 8) =~= crate::buffer::be32(refresh));
            lemma_subrange_chunk(bytes, p2, pay, off + 4, crate::buffer::be32(refresh));
            lemma_be32_at(bytes, p4 + 4, refresh);
            assert(pay.subrange(off + 8, off + 12) =~= crate::buffer::be32(retry));
            lemma_subrange_chunk(bytes, p2, pay, off + 8, crate::buffer::be32(retry));
            lemma_be32_at(bytes, p4 + 8, retry);
            assert(pay.subrange(off + 12, off + 16) =~= crate::buffer::be32(expire));
            lemma_subrange_chunk(bytes, p2, pay, off + 12, crate::buffer::be32(expire));
            lemma_be32_at(bytes, p4 + 12, expire);
            assert(pay.subrange(off + 16, off + 20) =~= crate::buffer::be32(minimum));
            lemma_subrange_chunk(bytes, p2, pay, off + 16, crate::buffer::be32(minimum));
            lemma_be32_at(bytes, p4 + 16, minimum);
    }
}

/// Decoding the concatenated wire forms of a question sequence reproduces
/// the sequence.
proof fn lemma_questions_round_trip(bytes: Seq<u8>, pos: int, qs: Seq<crate::question::QuestionModel>)
    requires
        bytes.len() == PACKET_SIZE,
        forall|i: int|
            0 <= i < qs.len() ==> wire_name_ok(#[trigger] qs[i].name) && crate::qtype::qt_wf(
                qs[i].qtype,
            ),
        0 <= pos,
        pos + crate::packet::wire_questions(qs).len() <= PACKET_SIZE,
        bytes.subrange(pos, pos + crate::packet::wire_questions(qs).len() as int)
            == crate::packet::wire_questions(qs),
    ensures
        crate::packet::parse_questions(bytes, pos, qs.len() as int) == Ok::<
            (Seq<crate::question::QuestionModel>, int),
            DnsError,
        >((qs, pos + crate::packet::wire_questions(qs).len())),
    decreases qs.len(),
{
    let w = crate::packet::wire_questions(qs);
    if qs.len() == 0 {
        assert(qs =~= Seq::<crate::question::QuestionModel>::empty());
    } else {
        let w0 = crate::question::wire_question(qs[0]);
        let rest = crate::packet::wire_questions(qs.drop_first());
        assert(w == w0 + rest);
        assert(w.subrange(0, w0.len() as int) =~= w0);
        lemma_subrange_chunk(bytes, pos, w, 0, w0);
        lemma_question_round_trip(bytes, pos, qs[0]);
        assert(w.subrange(w0.len() as int, w.len() as int) =~= rest);
        lemma_subrange_chunk(bytes, pos, w, w0.len() as int, rest);
        assert(forall|i: int|
            0 <= i < qs.drop_first().len() ==> #[trigger] qs.drop_first()[i] == qs[i + 1]);
        lemma_questions_round_trip(bytes, pos + w0.len() as int, qs.drop_first());
        assert(seq![qs[0]] + qs.drop_first() =~= qs);
    }
}

/// Decoding the concatenated wire forms of a record sequence reproduces
/// the sequence.
proof fn lemma_records_round_trip(bytes: Seq<u8>, pos: int, rs: Seq<crate::record::RecordModel>)
    requires
        bytes.len() == PACKET_SIZE,
        forall|i: int| 0 <= i < rs.len() ==> record_wire_ok(#[trigger] rs[i]),
        0 <= pos,
        pos + crate::packet::wire_records(rs).len() <= PACKET_SIZE,
        bytes.subrange(pos, pos + crate::packet::wire_records(rs).len() as int)
            == crate::packet::wire_records(rs),
    ensures
        crate::packet::parse_records(bytes, pos, rs.len() as int) == Ok::<
            (Seq<crate::record::RecordModel>, int),
            DnsError,
        >((rs, pos + crate::packet::wire_records(rs).len())),
    decreases rs.len(),
{
    let w = crate::packet::wire_records(rs);
    if rs.len() == 0 {
        assert(rs =~= Seq::<crate::record::RecordModel>::empty());
    } else {
        let w0 = crate::record::wire_record(rs[0]);
        let rest = crate::packet::wire_records(rs.drop_first());
        assert(w == w0 + rest);
        assert(w.subrange(0, w0.len() as int) =~= w0);
        lemma_subrange_chunk(bytes, pos, w, 0, w0);
        lemma_record_round_trip(bytes, pos, rs[0]);
        assert(w.subrange(w0.len() as int, w.len() as int) =~= rest);
        lemma_subrange_chunk(bytes, pos, w, w0.len() as int, rest);
        assert(forall|i: int|
            0 <= i < rs.drop_first().len() ==> #[trigger] rs.drop_first()[i] == rs[i + 1]);
        lemma_records_round_trip(bytes, pos + w0.len() as int, rs.drop_first());
        assert(seq![rs[0]] + rs.drop_first() =~= rs);
    }
}

/// True of the messages whose encoding decodes back to them: well-formed
/// header, counts that match the section lengths, every name canonical
/// lowercase, and no unknown records (encoding omits those).
pub open spec fn packet_wire_ok(m: crate::packet::PacketModel) -> bool {
    &&& crate::header::header_wf(m.header)
    &&& m.header.questions == m.questions.len()
    &&& m.header.answers == m.answers.len()
    &&& m.header.authoritative_entries == m.authorities.len()
    &&& m.header.resource_entries == m.resources.len()
    &&& forall|i: int|
        0 <= i < m.questions.len() ==> wire_name_ok(#[trigger] m.questions[i].name)
            && crate::qtype::qt_wf(m.questions[i].qtype)
    &&& forall|i: int| 0 <= i < m.answers.len() ==> record_wire_ok(#[trigger] m.answers[i])
    &&& forall|i: int| 0 <= i < m.authorities.len() ==> record_wire_ok(#[trigger] m.authorities[i])
    &&& forall|i: int| 0 <= i < m.resources.len() ==> record_wire_ok(#[trigger] m.resources[i])
}

/// Round trip of a whole message: decoding the bytes written for a
/// message reproduces its header fields and all four sections, for every
/// supported record type.
#[verifier::rlimit(100)]
#[verifier::spinoff_prover]
pub proof fn lemma_packet_round_trip(bytes: Seq<u8>, pos: int, m: crate::packet::PacketModel)
    requires
        bytes.len() == PACKET_SIZE,
        packet_wire_ok(m),
        0 <= pos,
        pos + crate::packet::wire_packet(m).len() <= PACKET_SIZE,
        bytes.subrange(pos, pos + crate::packet::wire_packet(m).len() as int)
            == crate::packet::wire_packet(m),
    ensures
        crate::packet::parse_packet(bytes, pos) == Ok::<(crate::packet::PacketModel, int), DnsError>(
            (m, pos + crate::packet::wire_packet(m).len()),
        ),
{
    let w = crate::packet::wire_packet(m);
    let wh = crate::header::wire_header(m.header);
    let wq = crate::packet::wire_questions(m.questions);
    let wa = crate::packet::wire_records(m.answers);
    let wu = crate::packet::wire_records(m.authorities);
    let wr = crate::packet::wire_records(m.resources);
    let rest3 = wu + wr;
    let rest2 = wa + rest3;
    let rest1 = wq + rest2;
    assert(w =~= wh + rest1);
    assert(w.subrange(0, 12) =~= wh);
    lemma_subrange_chunk(bytes, pos, w, 0, wh);
    lemma_header_round_trip(bytes, pos, m.header);
    let p1 = pos + 12;
    assert(w.subrange(12, w.len() as int) =~= rest1);
    lemma_subrange_chunk(bytes, pos, w, 12, rest1);
    assert(rest1.subrange(0, wq.len() as int) =~= wq);
    lemma_subrange_chunk(bytes, p1, rest1, 0, wq);
    lemma_questions_round_trip(bytes, p1, m.questions);
    let p2 = p1 + wq.len() as int;
    assert(rest1.subrange(wq.len() as int, rest1.len() as int) =~= rest2);
    lemma_subrange_chunk(bytes, p1, rest1, wq.len() as int, rest2);
    assert(rest2.subrange(0, wa.len() as int) =~= wa);
    lemma_subrange_chunk(bytes, p2, rest2, 0, wa);
    lemma_records_round_trip(bytes, p2, m.answers);
    let p3 = p2 + wa.len() as int;
    assert(rest2.subrange(wa.len() as int, rest2.len() as int) =~= rest3);
    lemma_subrange_chunk(bytes, p2, rest2, wa.len() as int, rest3);
    assert(rest3.subrange(0, wu.len() as int) =~= wu);
    lemma_subrange_chunk(bytes, p3, rest3, 0, wu);
    lemma_records_round_trip(bytes, p3, m.authorities);
    let p4 = p3 + wu.len() as int;
    assert(rest3.subrange(wu.len() as int, rest3.len() as int) =~= wr);
    lemma_subrange_chunk(bytes, p3, rest3, wu.len() as int, wr);
    lemma_records_round_trip(bytes, p4, m.resources);
}

} // verus!
