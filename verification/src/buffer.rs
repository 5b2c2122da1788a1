//! Fixed-capacity byte buffer with a read/write cursor, and the primitive
//! integer codec on top of it.
//!
//! All reads are bounded by the buffer capacity; writes are bounded by the
//! stricter classical UDP message limit. Multi-byte values are big-endian.

use crate::DnsError;
use vstd::prelude::*;
use vstd::string::StringSliceAdditionalSpecFns;

verus! {

/// Capacity of the packet buffer: reads anywhere below this succeed.
pub const PACKET_SIZE: usize = 1024;

/// Strict bound on writes: the classical non-EDNS UDP message size.
pub const WRITE_LIMIT: usize = 512;

/// The effect of writing the bytes of `data` one by one starting at `pos`,
/// each write failing once the cursor reaches [`WRITE_LIMIT`]: the resulting
/// bytes, the resulting cursor, and whether every byte was written.
pub open spec fn write_all(bytes: Seq<u8>, pos: nat, data: Seq<u8>) -> (Seq<u8>, nat, bool)
    decreases data.len(),
{
    if data.len() == 0 {
        (bytes, pos, true)
    } else if pos >= WRITE_LIMIT {
        (bytes, pos, false)
    } else {
        write_all(bytes.update(pos as int, data[0]), pos + 1, data.drop_first())
    }
}

/// Writing `d1 + d2` is writing `d1`, then (if that completed) `d2`.
pub proof fn lemma_write_all_split(bytes: Seq<u8>, pos: nat, d1: Seq<u8>, d2: Seq<u8>)
    ensures
        ({
            let (b1, p1, ok1) = write_all(bytes, pos, d1);
            write_all(bytes, pos, d1 + d2) == (if ok1 {
                write_all(b1, p1, d2)
            } else {
                (b1, p1, false)
            })
        }),
    decreases d1.len(),
{
    if d1.len() == 0 {
        assert(d1 + d2 =~= d2);
    } else if pos >= WRITE_LIMIT {
        assert((d1 + d2).len() > 0);
    } else {
        assert((d1 + d2)[0] == d1[0]);
        assert((d1 + d2).drop_first() =~= d1.drop_first() + d2);
        lemma_write_all_split(bytes.update(pos as int, d1[0]), pos + 1, d1.drop_first(), d2);
    }
}

/// A completed `write_all` wrote exactly `data` at `pos` and touched
/// nothing else.
pub proof fn lemma_write_all_ok(bytes: Seq<u8>, pos: nat, data: Seq<u8>)
    requires
        pos + data.len() <= WRITE_LIMIT,
        WRITE_LIMIT <= bytes.len(),
    ensures
        ({
            let (b, p, ok) = write_all(bytes, pos, data);
            ok && p == pos + data.len() && b.len() == bytes.len() && (forall|i: int|
                0 <= i < bytes.len() && !(pos <= i < pos + data.len()) ==> b[i] == bytes[i]) && (
            forall|i: int| pos <= i < pos + data.len() ==> b[i] == data[i - pos])
        }),
    decreases data.len(),
{
    if data.len() == 0 {
    } else {
        let updated = bytes.update(pos as int, data[0]);
        lemma_write_all_ok(updated, pos + 1, data.drop_first());
        let (b, p, ok) = write_all(bytes, pos, data);
        assert forall|i: int| pos <= i < pos + data.len() implies b[i] == data[i - pos] by {
            if i == pos {
                assert(b[i] == updated[i]);
            } else {
                assert(b[i] == data.drop_first()[i - (pos + 1)]);
            }
        }
    }
}

/// An incomplete `write_all` means the data did not fit below the limit.
pub proof fn lemma_write_all_fail(bytes: Seq<u8>, pos: nat, data: Seq<u8>)
    requires
        WRITE_LIMIT <= bytes.len(),
    ensures
        !write_all(bytes, pos, data).2 <==> (data.len() > 0 && pos + data.len() > WRITE_LIMIT),
        write_all(bytes, pos, data).0.len() == bytes.len(),
    decreases data.len(),
{
    if data.len() == 0 {
    } else if pos >= WRITE_LIMIT {
    } else {
        assert(bytes.update(pos as int, data[0]).len() == bytes.len());
        lemma_write_all_fail(bytes.update(pos as int, data[0]), pos + 1, data.drop_first());
    }
}

/// No write ever touches a byte at or past the write limit: whatever is
/// written, wherever the cursor stands, the bytes from the limit to the
/// capacity are left exactly as they were.
pub proof fn lemma_write_limit_preserved(bytes: Seq<u8>, pos: nat, data: Seq<u8>)
    requires
        WRITE_LIMIT <= bytes.len(),
    ensures
        forall|i: int|
            WRITE_LIMIT <= i < bytes.len() ==> write_all(bytes, pos, data).0[i] == bytes[i],
    decreases data.len(),
{
    if data.len() == 0 {
    } else if pos >= WRITE_LIMIT {
    } else {
        let updated = bytes.update(pos as int, data[0]);
        assert(updated.len() == bytes.len());
        lemma_write_limit_preserved(updated, pos + 1, data.drop_first());
        assert forall|i: int|
            WRITE_LIMIT <= i < bytes.len() implies write_all(bytes, pos, data).0[i]
            == bytes[i] by {
            assert(write_all(bytes, pos, data) == write_all(updated, pos + 1, data.drop_first()));
            assert(updated[i] == bytes[i]);
        }
    }
}

/// `write_all` only moves the cursor forward and only touches bytes from
/// `pos` up to the write limit.
pub proof fn lemma_write_all_frame(bytes: Seq<u8>, pos: nat, data: Seq<u8>)
    requires
        WRITE_LIMIT <= bytes.len(),
    ensures
        ({
            let (b, p, ok) = write_all(bytes, pos, data);
            pos <= p <= pos + data.len() && b.len() == bytes.len() && (forall|i: int|
                0 <= i < bytes.len() && !(pos <= i < p) ==> b[i] == bytes[i])
        }),
    decreases data.len(),
{
    if data.len() == 0 {
    } else if pos >= WRITE_LIMIT {
    } else {
        lemma_write_all_frame(bytes.update(pos as int, data[0]), pos + 1, data.drop_first());
    }
}

/// Overwriting the placeholder length with the true payload length gives
/// exactly what writing the true length up front would have given.
pub proof fn lemma_backpatch(o: Seq<u8>, po: nat, pre: Seq<u8>, payload: Seq<u8>, size: u16)
    requires
        WRITE_LIMIT <= o.len(),
        po + pre.len() + 2 + payload.len() <= WRITE_LIMIT,
        size as int == payload.len(),
    ensures
        ({
            let w0 = pre + be16(0) + payload;
            let w1 = pre + be16(size) + payload;
            let (b0, p0, ok0) = write_all(o, po, w0);
            let (b1, p1, ok1) = write_all(o, po, w1);
            ok0 && ok1 && p0 == p1 == po + w1.len() && b1 == b0.update(
                (po + pre.len()) as int,
                (size / 256) as u8,
            ).update((po + pre.len() + 1) as int, (size % 256) as u8)
        }),
{
    let w0 = pre + be16(0) + payload;
    let w1 = pre + be16(size) + payload;
    lemma_write_all_ok(o, po, w0);
    lemma_write_all_ok(o, po, w1);
    let (b0, p0, ok0) = write_all(o, po, w0);
    let (b1, p1, ok1) = write_all(o, po, w1);
    let patched = b0.update((po + pre.len()) as int, (size / 256) as u8).update(
        (po + pre.len() + 1) as int,
        (size % 256) as u8,
    );
    assert forall|i: int| 0 <= i < b1.len() implies b1[i] == patched[i] by {
        if po <= i < po + w1.len() {
            assert(b1[i] == w1[i - po]);
            if i == po + pre.len() {
            } else if i == po + pre.len() + 1 {
            } else {
                assert(w1[i - po] == w0[i - po]);
                assert(patched[i] == b0[i]);
            }
        }
    }
    assert(b1 =~= patched);
}

/// The big-endian `width`-byte integer stored at `pos`.
pub open spec fn be_at(bytes: Seq<u8>, pos: int, width: int) -> int
    decreases width,
{
    if width <= 0 {
        0
    } else {
        be_at(bytes, pos, width - 1) * 256 + bytes[pos + width - 1]
    }
}

/// The big-endian 2-byte encoding of `v`.
pub open spec fn be16(v: u16) -> Seq<u8> {
    seq![(v / 256) as u8, (v % 256) as u8]
}

/// The big-endian 4-byte encoding of `v`.
pub open spec fn be32(v: u32) -> Seq<u8> {
    seq![
        (v / 0x1000000 % 256) as u8,
        (v / 0x10000 % 256) as u8,
        (v / 256 % 256) as u8,
        (v % 256) as u8,
    ]
}

/// Where the cursor ends up after a failed multi-byte read that advanced
/// byte by byte until it hit the capacity bound.
pub open spec fn clamped_read_pos(pos: nat) -> nat {
    if pos >= PACKET_SIZE {
        pos
    } else {
        PACKET_SIZE as nat
    }
}

/// Budget of compression-pointer jumps allowed while decoding one name;
/// exceeding it aborts the name (guards against pointer cycles).
pub const MAX_JUMPS: usize = 5;

/// True if every byte of `b` is ASCII.
pub open spec fn is_ascii_bytes(b: Seq<u8>) -> bool {
    forall|i: int| 0 <= i < b.len() ==> b[i] < 0x80
}

/// The characters of an ASCII byte sequence, one per byte.
pub open spec fn bytes_as_chars(b: Seq<u8>) -> Seq<char> {
    b.map(|i: int, c: u8| c as char)
}

/// What lossy UTF-8 decoding yields on a byte sequence that is not pure
/// ASCII; a function of the bytes alone.
pub uninterp spec fn lossy_decode_other(b: Seq<u8>) -> Seq<char>;

/// What lossy UTF-8 decoding yields: ASCII bytes decode to themselves,
/// one character per byte; anything else is named, not spelled out.
pub open spec fn lossy_decode(b: Seq<u8>) -> Seq<char> {
    if is_ascii_bytes(b) {
        bytes_as_chars(b)
    } else {
        lossy_decode_other(b)
    }
}

/// The ASCII lowercase of one ASCII character.
pub open spec fn lower_ascii_char(c: char) -> char {
    if 'A' <= c && c <= 'Z' {
        (((c as u8) + 32) as u8) as char
    } else {
        c
    }
}

/// What Unicode lowercasing yields on a character sequence that is not
/// pure ASCII; a function of the characters alone.
pub uninterp spec fn lowercase_other(s: Seq<char>) -> Seq<char>;

/// What Unicode lowercasing yields: on ASCII text, the ASCII lowercase of
/// each character; anything else is named, not spelled out.
pub open spec fn lowercase_chars(s: Seq<char>) -> Seq<char> {
    if vstd::utf8::is_ascii_chars(s) {
        s.map(|i: int, c: char| lower_ascii_char(c))
    } else {
        lowercase_other(s)
    }
}

/// The characters a wire-format label's bytes decode to: lossy UTF-8
/// decoding followed by lowercasing.
pub open spec fn label_chars(b: Seq<u8>) -> Seq<char> {
    lowercase_chars(lossy_decode(b))
}

/// Decoding a domain name from `bytes` starting at `pos` with `jumps`
/// pointer jumps already taken: the name's characters (labels lowercased
/// and each followed by a dot) and the cursor position for the caller's
/// next read (just past the terminator, or past the first pointer).
pub open spec fn parse_name(bytes: Seq<u8>, pos: int, jumps: int) -> Result<
    (Seq<char>, int),
    DnsError,
>
    decreases 6 - jumps, (if pos >= PACKET_SIZE { 0int } else { PACKET_SIZE - pos }),
{
    if jumps > MAX_JUMPS {
        Err(DnsError::TooManyJumps)
    } else if pos < 0 || pos >= PACKET_SIZE {
        Err(DnsError::OutOfBounds)
    } else {
        let len = bytes[pos];
        if len & 0xC0 == 0xC0 {
            if pos + 1 >= PACKET_SIZE {
                Err(DnsError::OutOfBounds)
            } else {
                let target = (len ^ 0xC0) * 256 + bytes[pos + 1];
                match parse_name(bytes, target as int, jumps + 1) {
                    Ok((s, _)) => Ok((s, pos + 2)),
                    Err(e) => Err(e),
                }
            }
        } else if len == 0 {
            Ok((Seq::empty(), pos + 1))
        } else if pos + 1 + len > PACKET_SIZE {
            Err(DnsError::OutOfBounds)
        } else {
            let lbl = bytes.subrange(pos + 1, pos + 1 + len);
            match parse_name(bytes, pos + 1 + len, jumps) {
                Ok((s, e)) => Ok((label_chars(lbl) + seq!['.'] + s, e)),
                Err(e) => Err(e),
            }
        }
    }
}

/// Where the shared cursor stands after a name is read at `pos`, whether
/// the read succeeds or fails: just past the first compression pointer if
/// one was consumed (the cursor is advanced before the pointer is
/// followed), just past the terminator of a plainly read name, and at
/// `orig` — the position the read began at — if the read fails before
/// either.
pub open spec fn name_cursor(bytes: Seq<u8>, pos: int, orig: int) -> int
    decreases (if pos >= PACKET_SIZE {
        0int
    } else {
        PACKET_SIZE - pos
    }),
{
    if pos < 0 || pos >= PACKET_SIZE {
        orig
    } else {
        let len = bytes[pos];
        if len & 0xC0 == 0xC0 {
            pos + 2
        } else if len == 0 {
            pos + 1
        } else if pos + 1 + len > PACKET_SIZE {
            orig
        } else {
            name_cursor(bytes, pos + 1 + len, orig)
        }
    }
}

/// The index of the first dot in `b` at or after `start`, or `b.len()`.
pub open spec fn next_dot(b: Seq<u8>, start: int) -> int
    decreases b.len() - start,
{
    if start >= b.len() {
        b.len() as int
    } else if b[start] == 46 {
        start
    } else {
        next_dot(b, start + 1)
    }
}

/// `next_dot` lands between `start` and the end of the name.
pub proof fn lemma_next_dot_bounds(b: Seq<u8>, start: int)
    requires
        start <= b.len(),
    ensures
        start <= next_dot(b, start) <= b.len(),
    decreases b.len() - start,
{
    if start < b.len() && b[start] != 46 {
        lemma_next_dot_bounds(b, start + 1);
    }
}

/// The wire form of the part of a dotted name from `start` on: each
/// nonempty label as a length byte followed by its bytes, closed by a
/// single zero byte. Empty labels (the trailing dot of a fully-qualified
/// name) add nothing of their own.
pub open spec fn qname_wire_from(b: Seq<u8>, start: int) -> Seq<u8>
    decreases b.len() - start + 1,
    via qname_wire_from_dec
{
    if start > b.len() {
        seq![0u8]
    } else {
        let j = next_dot(b, start);
        let piece: Seq<u8> = if j == start {
            seq![]
        } else {
            seq![(j - start) as u8] + b.subrange(start, j)
        };
        if j >= b.len() {
            piece + seq![0u8]
        } else {
            piece + qname_wire_from(b, j + 1)
        }
    }
}

/// A name's wire form always holds at least its terminating zero byte.
pub proof fn lemma_qname_wire_nonempty(b: Seq<u8>, start: int)
    ensures
        qname_wire_from(b, start).len() >= 1,
    decreases b.len() - start + 1,
{
    if start > b.len() {
    } else {
        let j = next_dot(b, start);
        lemma_next_dot_bounds(b, start);
        if j < b.len() {
            lemma_qname_wire_nonempty(b, j + 1);
        }
    }
}

#[via_fn]
proof fn qname_wire_from_dec(b: Seq<u8>, start: int) {
    if start <= b.len() {
        lemma_next_dot_bounds(b, start);
    }
}

/// The wire form of a whole dotted name.
pub open spec fn qname_wire(b: Seq<u8>) -> Seq<u8> {
    qname_wire_from(b, 0)
}

/// True if every label of the part of the name from `start` on is at
/// most 63 bytes long.
pub open spec fn labels_ok_from(b: Seq<u8>, start: int) -> bool
    decreases b.len() - start + 1,
    via labels_ok_from_dec
{
    if start > b.len() {
        true
    } else {
        let j = next_dot(b, start);
        j - start <= 63 && (j >= b.len() || labels_ok_from(b, j + 1))
    }
}

#[via_fn]
proof fn labels_ok_from_dec(b: Seq<u8>, start: int) {
    if start <= b.len() {
        lemma_next_dot_bounds(b, start);
    }
}

/// True if every label of the name is at most 63 bytes long.
pub open spec fn labels_ok(b: Seq<u8>) -> bool {
    labels_ok_from(b, 0)
}

/// `next_dot` is the unique dot-free frontier.
pub proof fn lemma_next_dot(b: Seq<u8>, start: int, j: int)
    requires
        0 <= start <= j <= b.len(),
        forall|k: int| start <= k < j ==> b[k] != 46,
        j == b.len() || b[j] == 46,
    ensures
        next_dot(b, start) == j,
    decreases j - start,
{
    if start < j {
        lemma_next_dot(b, start + 1, j);
    }
}

/// Relies on `String::from_utf8_lossy`: ASCII bytes decode to themselves,
/// one character per byte; any other sequence decodes to a replacement
/// form that depends on the bytes alone.
#[verifier::external_body]
fn utf8_lossy(bytes: &[u8]) -> (r: String)
    ensures
        r@ == lossy_decode(bytes@),
        !is_ascii_bytes(bytes@) ==> r@ == lossy_decode_other(bytes@),
{
    String::from_utf8_lossy(bytes).into_owned()
}

/// Relies on `str::to_lowercase`: ASCII characters map to their ASCII
/// lowercase; the result depends on the characters alone.
#[verifier::external_body]
fn make_lowercase(s: &str) -> (r: String)
    ensures
        r@ == lowercase_chars(s@),
        !vstd::utf8::is_ascii_chars(s@) ==> r@ == lowercase_other(s@),
{
    s.to_lowercase()
}

/// A fixed-size byte array together with a cursor position.
///
/// Well-formed values always hold exactly [`PACKET_SIZE`] bytes; the cursor
/// may point anywhere, and every access checks its own bounds.
pub struct BytePacketBuffer {
    pub buf: Vec<u8>,
    pub pos: usize,
}

impl BytePacketBuffer {
    /// The structural invariant: the byte array has the fixed capacity.
    pub open spec fn wf(&self) -> bool {
        self.buf@.len() == PACKET_SIZE
    }

    /// A fresh zeroed buffer with the cursor at the start.
    pub fn new() -> (r: BytePacketBuffer)
        ensures
            r.wf(),
            r.pos == 0,
            r.buf@ == Seq::<u8>::new(PACKET_SIZE as nat, |i: int| 0u8),
    {
        let mut buf: Vec<u8> = Vec::new();
        let mut i: usize = 0;
        while i < PACKET_SIZE
            invariant
                i <= PACKET_SIZE,
                buf@.len() == i,
                forall|j: int| 0 <= j < i ==> buf@[j] == 0u8,
            decreases PACKET_SIZE - i,
        {
            buf.push(0u8);
            i = i + 1;
        }
        proof {
            assert(buf@ =~= Seq::<u8>::new(PACKET_SIZE as nat, |i: int| 0u8));
        }
        BytePacketBuffer { buf, pos: 0 }
    }

    /// Current position within the buffer.
    pub fn pos(&self) -> (r: usize)
        ensures
            r == self.pos,
    {
        self.pos
    }

    /// Advance the cursor by `steps` without reading.
    pub fn step(&mut self, steps: usize) -> (r: Result<(), DnsError>)
        requires
            old(self).pos + steps <= usize::MAX,
        ensures
            final(self).buf == old(self).buf,
            final(self).pos == old(self).pos + steps,
            r == Ok::<(), DnsError>(()),
    {
        self.pos = self.pos + steps;
        Ok(())
    }

    /// Move the cursor to an absolute position.
    pub fn seek(&mut self, pos: usize) -> (r: Result<(), DnsError>)
        ensures
            final(self).buf == old(self).buf,
            final(self).pos == pos,
            r == Ok::<(), DnsError>(()),
    {
        self.pos = pos;
        Ok(())
    }

    /// Read one byte and advance the cursor; fails at or past the capacity.
    pub fn read(&mut self) -> (r: Result<u8, DnsError>)
        requires
            old(self).wf(),
        ensures
            final(self).wf(),
            final(self).buf == old(self).buf,
            old(self).pos < PACKET_SIZE ==> r == Ok::<u8, DnsError>(
                old(self).buf@[old(self).pos as int],
            ) && final(self).pos == old(self).pos + 1,
            old(self).pos >= PACKET_SIZE ==> r == Err::<u8, DnsError>(DnsError::OutOfBounds)
                && final(self).pos == old(self).pos,
    {
        if self.pos >= PACKET_SIZE {
            return Err(DnsError::OutOfBounds);
        }
        let res = self.buf[self.pos];
        self.pos = self.pos + 1;
        Ok(res)
    }

    /// Read the byte at an absolute position without moving the cursor.
    pub fn get(&self, pos: usize) -> (r: Result<u8, DnsError>)
        requires
            self.wf(),
        ensures
            pos < PACKET_SIZE ==> r == Ok::<u8, DnsError>(self.buf@[pos as int]),
            pos >= PACKET_SIZE ==> r == Err::<u8, DnsError>(DnsError::OutOfBounds),
    {
        if pos >= PACKET_SIZE {
            return Err(DnsError::OutOfBounds);
        }
        Ok(self.buf[pos])
    }

    /// Borrow `len` bytes starting at `start` without moving the cursor.
    /// Fails exactly when some accessed position would reach the capacity.
    pub fn get_range(&self, start: usize, len: usize) -> (r: Result<&[u8], DnsError>)
        requires
            self.wf(),
            start + len <= usize::MAX,
        ensures
            start + len <= PACKET_SIZE ==> (r matches Ok(s) && s@ == self.buf@.subrange(
                start as int,
                start + len,
            )),
            start + len > PACKET_SIZE ==> r == Err::<&[u8], DnsError>(DnsError::OutOfBounds),
    {
        if start + len > PACKET_SIZE {
            return Err(DnsError::OutOfBounds);
        }
        Ok(vstd::slice::slice_subrange(self.buf.as_slice(), start, start + len))
    }

    /// Read a big-endian 16-bit value, advancing the cursor two steps.
    pub fn read_u16(&mut self) -> (r: Result<u16, DnsError>)
        requires
            old(self).wf(),
        ensures
            final(self).wf(),
            final(self).buf == old(self).buf,
            old(self).pos + 2 <= PACKET_SIZE ==> r == Ok::<u16, DnsError>(
                be_at(old(self).buf@, old(self).pos as int, 2) as u16,
            ) && final(self).pos == old(self).pos + 2,
            old(self).pos + 2 > PACKET_SIZE ==> r == Err::<u16, DnsError>(DnsError::OutOfBounds)
                && final(self).pos == clamped_read_pos(old(self).pos as nat),
    {
        let byte_high = self.read()? as u16;
        let byte_low = self.read()? as u16;
        let res = byte_high * 256 + byte_low;
        proof {
            let b = old(self).buf@;
            let p = old(self).pos as int;
            assert(be_at(b, p, 0) == 0);
            assert(be_at(b, p, 1) == b[p]);
            assert(be_at(b, p, 2) == b[p] * 256 + b[p + 1]);
        }
        Ok(res)
    }

    /// Read a big-endian 32-bit value, advancing the cursor four steps.
    pub fn read_u32(&mut self) -> (r: Result<u32, DnsError>)
        requires
            old(self).wf(),
        ensures
            final(self).wf(),
            final(self).buf == old(self).buf,
            old(self).pos + 4 <= PACKET_SIZE ==> r == Ok::<u32, DnsError>(
                be_at(old(self).buf@, old(self).pos as int, 4) as u32,
            ) && final(self).pos == old(self).pos + 4,
            old(self).pos + 4 > PACKET_SIZE ==> r == Err::<u32, DnsError>(DnsError::OutOfBounds)
                && final(self).pos == clamped_read_pos(old(self).pos as nat),
    {
        let b0 = self.read()? as u32;
        let b1 = self.read()? as u32;
        let b2 = self.read()? as u32;
        let b3 = self.read()? as u32;
        let res = ((b0 * 256 + b1) * 256 + b2) * 256 + b3;
        proof {
            let b = old(self).buf@;
            let p = old(self).pos as int;
            assert(be_at(b, p, 0) == 0);
            assert(be_at(b, p, 1) == b[p]);
            assert(be_at(b, p, 2) == be_at(b, p, 1) * 256 + b[p + 1]);
            assert(be_at(b, p, 3) == be_at(b, p, 2) * 256 + b[p + 2]);
            assert(be_at(b, p, 4) == be_at(b, p, 3) * 256 + b[p + 3]);
        }
        Ok(res)
    }

    /// Read a big-endian 64-bit value, advancing the cursor eight steps.
    pub fn read_u64(&mut self) -> (r: Result<u64, DnsError>)
        requires
            old(self).wf(),
        ensures
            final(self).wf(),
            final(self).buf == old(self).buf,
            old(self).pos + 8 <= PACKET_SIZE ==> r == Ok::<u64, DnsError>(
                be_at(old(self).buf@, old(self).pos as int, 8) as u64,
            ) && final(self).pos == old(self).pos + 8,
            old(self).pos + 8 > PACKET_SIZE ==> r == Err::<u64, DnsError>(DnsError::OutOfBounds)
                && final(self).pos == clamped_read_pos(old(self).pos as nat),
    {
        let b0 = self.read()? as u64;
        let b1 = self.read()? as u64;
        let b2 = self.read()? as u64;
        let b3 = self.read()? as u64;
        let b4 = self.read()? as u64;
        let b5 = self.read()? as u64;
        let b6 = self.read()? as u64;
        let b7 = self.read()? as u64;
        let res = ((((((b0 * 256 + b1) * 256 + b2) * 256 + b3) * 256 + b4) * 256 + b5) * 256 + b6)
            * 256 + b7;
        proof {
            let b = old(self).buf@;
            let p = old(self).pos as int;
            assert(be_at(b, p, 0) == 0);
            assert(be_at(b, p, 1) == b[p]);
            assert(be_at(b, p, 2) == be_at(b, p, 1) * 256 + b[p + 1]);
            assert(be_at(b, p, 3) == be_at(b, p, 2) * 256 + b[p + 2]);
            assert(be_at(b, p, 4) == be_at(b, p, 3) * 256 + b[p + 3]);
            assert(be_at(b, p, 5) == be_at(b, p, 4) * 256 + b[p + 4]);
            assert(be_at(b, p, 6) == be_at(b, p, 5) * 256 + b[p + 5]);
            assert(be_at(b, p, 7) == be_at(b, p, 6) * 256 + b[p + 6]);
            assert(be_at(b, p, 8) == be_at(b, p, 7) * 256 + b[p + 7]);
        }
        Ok(res)
    }

    /// Write one byte at the cursor and advance; fails at or past the
    /// write limit, leaving the buffer unchanged.
    fn write(&mut self, val: u8) -> (r: Result<(), DnsError>)
        requires
            old(self).wf(),
        ensures
            final(self).wf(),
            (final(self).buf@, final(self).pos as nat, r is Ok) == write_all(
                old(self).buf@,
                old(self).pos as nat,
                seq![val],
            ),
            r is Err ==> r == Err::<(), DnsError>(DnsError::OutOfBounds),
    {
        if self.pos >= WRITE_LIMIT {
            return Err(DnsError::OutOfBounds);
        }
        self.buf[self.pos] = val;
        self.pos = self.pos + 1;
        proof {
            let b = old(self).buf@;
            let p = old(self).pos as nat;
            assert(seq![val].drop_first() =~= Seq::<u8>::empty());
            assert(write_all(b, p, seq![val]) == write_all(
                b.update(p as int, val),
                p + 1,
                Seq::<u8>::empty(),
            ));
            assert(write_all(b.update(p as int, val), p + 1, Seq::<u8>::empty()) == (
                b.update(p as int, val),
                (p + 1) as nat,
                true,
            ));
        }
        Ok(())
    }

    /// Write one byte at the cursor.
    pub fn write_u8(&mut self, val: u8) -> (r: Result<(), DnsError>)
        requires
            old(self).wf(),
        ensures
            final(self).wf(),
            (final(self).buf@, final(self).pos as nat, r is Ok) == write_all(
                old(self).buf@,
                old(self).pos as nat,
                seq![val],
            ),
            r is Err ==> r == Err::<(), DnsError>(DnsError::OutOfBounds),
    {
        self.write(val)?;
        Ok(())
    }

    /// Write a big-endian 16-bit value at the cursor.
    pub fn write_u16(&mut self, val: u16) -> (r: Result<(), DnsError>)
        requires
            old(self).wf(),
        ensures
            final(self).wf(),
            (final(self).buf@, final(self).pos as nat, r is Ok) == write_all(
                old(self).buf@,
                old(self).pos as nat,
                be16(val),
            ),
            r is Err ==> r == Err::<(), DnsError>(DnsError::OutOfBounds),
    {
        let high = (val / 256) as u8;
        let low = (val % 256) as u8;
        proof {
            assert(be16(val) =~= seq![high] + seq![low]);
            lemma_write_all_split(old(self).buf@, old(self).pos as nat, seq![high], seq![low]);
        }
        self.write(high)?;
        self.write(low)?;
        Ok(())
    }

    /// Write a big-endian 32-bit value at the cursor.
    pub fn write_u32(&mut self, val: u32) -> (r: Result<(), DnsError>)
        requires
            old(self).wf(),
        ensures
            final(self).wf(),
            (final(self).buf@, final(self).pos as nat, r is Ok) == write_all(
                old(self).buf@,
                old(self).pos as nat,
                be32(val),
            ),
            r is Err ==> r == Err::<(), DnsError>(DnsError::OutOfBounds),
    {
        let b0 = (val / 0x1000000 % 256) as u8;
        let b1 = (val / 0x10000 % 256) as u8;
        let b2 = (val / 256 % 256) as u8;
        let b3 = (val % 256) as u8;
        proof {
            let b = old(self).buf@;
            let p = old(self).pos as nat;
            assert(be32(val) =~= seq![b0] + (seq![b1] + (seq![b2] + seq![b3])));
            lemma_write_all_split(b, p, seq![b0], seq![b1] + (seq![b2] + seq![b3]));
            let (s1, p1, ok1) = write_all(b, p, seq![b0]);
            lemma_write_all_split(s1, p1, seq![b1], seq![b2] + seq![b3]);
            let (s2, p2, ok2) = write_all(s1, p1, seq![b1]);
            lemma_write_all_split(s2, p2, seq![b2], seq![b3]);
        }
        self.write(b0)?;
        self.write(b1)?;
        self.write(b2)?;
        self.write(b3)?;
        Ok(())
    }

    /// Overwrite one byte at an absolute position, without moving the
    /// cursor; fails at or past the write limit.
    fn set(&mut self, pos: usize, val: u8) -> (r: Result<(), DnsError>)
        requires
            old(self).wf(),
        ensures
            final(self).wf(),
            final(self).pos == old(self).pos,
            pos < WRITE_LIMIT ==> r == Ok::<(), DnsError>(()) && final(self).buf@ == old(self).buf@.update(pos as int, val),
            pos >= WRITE_LIMIT ==> r == Err::<(), DnsError>(DnsError::OutOfBounds) && final(self).buf == old(self).buf,
    {
        if pos >= WRITE_LIMIT {
            return Err(DnsError::OutOfBounds);
        }
        self.buf[pos] = val;
        Ok(())
    }

    /// Overwrite a big-endian 16-bit value at an absolute position, without
    /// moving the cursor. Used to backpatch record-length fields.
    pub fn set_u16(&mut self, pos: usize, val: u16) -> (r: Result<(), DnsError>)
        requires
            old(self).wf(),
            pos + 1 <= usize::MAX,
        ensures
            final(self).wf(),
            final(self).pos == old(self).pos,
            pos + 2 <= WRITE_LIMIT ==> r == Ok::<(), DnsError>(()) && final(self).buf@ == old(self).buf@.update(pos as int, (val / 256) as u8).update(pos + 1, (val % 256) as u8),
            pos + 2 > WRITE_LIMIT ==> r == Err::<(), DnsError>(DnsError::OutOfBounds) && final(self).buf@ == (if pos < WRITE_LIMIT {
                old(self).buf@.update(pos as int, (val / 256) as u8)
            } else {
                old(self).buf@
            }),
    {
        self.set(pos, (val / 256) as u8)?;
        self.set(pos + 1, (val % 256) as u8)?;
        Ok(())
    }

    /// Read a domain name at the cursor, following compression pointers.
    ///
    /// Labels are length-prefixed; a length byte with its top two bits set
    /// is a pointer whose remaining 14 bits give an absolute offset to
    /// resume from. The cursor ends just past the name (or just past the
    /// first pointer); a local position follows the jumps. At most
    /// [`MAX_JUMPS`] jumps are allowed.
    pub fn read_qname(&mut self) -> (r: Result<String, DnsError>)
        requires
            old(self).wf(),
        ensures
            final(self).wf(),
            final(self).buf == old(self).buf,
            match parse_name(old(self).buf@, old(self).pos as int, 0) {
                Ok((chars, resume)) => r matches Ok(s) && s@ == chars && final(self).pos
                    == resume,
                Err(e) => r == Err::<String, DnsError>(e),
            },
            final(self).pos == name_cursor(
                old(self).buf@,
                old(self).pos as int,
                old(self).pos as int,
            ),
    {
        let mut outstr = String::new();
        let mut pos = self.pos();
        let mut jumped: bool = false;
        let mut jumps_performed: usize = 0;
        let ghost start_pos = self.pos as int;
        loop
            invariant
                self.wf(),
                self.buf == old(self).buf,
                start_pos == old(self).pos as int,
                jumps_performed <= 6,
                !jumped ==> jumps_performed == 0 && self.pos == start_pos,
                name_cursor(self.buf@, start_pos, start_pos) == (if jumped {
                    self.pos as int
                } else {
                    name_cursor(self.buf@, pos as int, start_pos)
                }),
                parse_name(self.buf@, start_pos, 0) == (match parse_name(
                    self.buf@,
                    pos as int,
                    jumps_performed as int,
                ) {
                    Ok((s, e)) => Ok::<(Seq<char>, int), DnsError>(
                        (outstr@ + s, if jumped { self.pos as int } else { e }),
                    ),
                    Err(e) => Err::<(Seq<char>, int), DnsError>(e),
                }),
            decreases
                    6 - jumps_performed,
                    (if pos >= PACKET_SIZE {
                        0int
                    } else {
                        PACKET_SIZE - pos
                    }),
        {
            let ghost cur = parse_name(self.buf@, pos as int, jumps_performed as int);
            // Untrusted input can hold a cycle of pointers; the jump
            // budget guards against looping on it.
            if jumps_performed > MAX_JUMPS {
                proof {
                    assert(cur == Err::<(Seq<char>, int), DnsError>(DnsError::TooManyJumps));
                }
                return Err(DnsError::TooManyJumps);
            }
            let len = match self.get(pos) {
                Ok(v) => v,
                Err(e) => {
                    proof {
                        assert(cur == Err::<(Seq<char>, int), DnsError>(DnsError::OutOfBounds));
                        assert(name_cursor(self.buf@, pos as int, start_pos) == start_pos);
                    }
                    return Err(e);
                },
            };
            if (len & 0xC0) == 0xC0 {
                // A pointer: advance the shared cursor past it (once),
                // then continue reading at the pointed-to offset.
                if !jumped {
                    self.seek(pos + 2)?;
                }
                let b2 = match self.get(pos + 1) {
                    Ok(v) => v,
                    Err(e) => {
                        proof {
                            assert(cur == Err::<(Seq<char>, int), DnsError>(
                                DnsError::OutOfBounds,
                            ));
                            assert(name_cursor(self.buf@, pos as int, start_pos) == pos + 2);
                        }
                        return Err(e);
                    },
                };
                let target = ((len ^ 0xC0) as usize) * 256 + (b2 as usize);
                proof {
                    let inner = parse_name(self.buf@, target as int, jumps_performed + 1);
                    assert(cur == (match inner {
                        Ok((s, _)) => Ok::<(Seq<char>, int), DnsError>((s, pos + 2)),
                        Err(e) => Err::<(Seq<char>, int), DnsError>(e),
                    }));
                    assert(name_cursor(self.buf@, pos as int, start_pos) == pos + 2);
                }
                pos = target;
                jumped = true;
                jumps_performed = jumps_performed + 1;
            } else {
                pos = pos + 1;
                if len == 0 {
                    proof {
                        assert(cur == Ok::<(Seq<char>, int), DnsError>(
                            (Seq::<char>::empty(), pos as int),
                        ));
                        assert(outstr@ + Seq::<char>::empty() =~= outstr@);
                        assert(name_cursor(self.buf@, pos - 1, start_pos) == pos as int);
                    }
                    if !jumped {
                        self.seek(pos)?;
                    }
                    return Ok(outstr);
                }
                let str_buffer = match self.get_range(pos, len as usize) {
                    Ok(v) => v,
                    Err(e) => {
                        proof {
                            assert(pos + len as int > PACKET_SIZE);
                            assert(cur == Err::<(Seq<char>, int), DnsError>(
                                DnsError::OutOfBounds,
                            ));
                            assert(name_cursor(self.buf@, pos - 1, start_pos) == start_pos);
                        }
                        return Err(e);
                    },
                };
                let tag_raw = utf8_lossy(str_buffer);
                let tag = make_lowercase(tag_raw.as_str());
                let ghost old_out = outstr@;
                outstr.append(tag.as_str());
                outstr.append(".");
                proof {
                    reveal_strlit(".");
                    assert("."@ =~= seq!['.']);
                    let lbl = self.buf@.subrange(pos as int, pos + len as int);
                    assert(tag@ == label_chars(lbl));
                    assert(outstr@ =~= old_out + label_chars(lbl) + seq!['.']);
                    let rest = parse_name(
                        self.buf@,
                        pos + len as int,
                        jumps_performed as int,
                    );
                    assert(cur == (match rest {
                        Ok((s, e)) => Ok::<(Seq<char>, int), DnsError>(
                            (label_chars(lbl) + seq!['.'] + s, e),
                        ),
                        Err(e) => Err::<(Seq<char>, int), DnsError>(e),
                    }));
                    if let Ok((s, e)) = rest {
                        assert(old_out + (label_chars(lbl) + seq!['.'] + s) =~= outstr@ + s);
                    }
                    assert(name_cursor(self.buf@, pos - 1, start_pos) == name_cursor(
                        self.buf@,
                        pos + len as int,
                        start_pos,
                    ));
                }
                pos = pos + len as usize;
            }
        }
    }

    /// Write the bytes `data[start..end]` at the cursor, one at a time.
    fn write_range(&mut self, data: &[u8], start: usize, end: usize) -> (r: Result<(), DnsError>)
        requires
            old(self).wf(),
            start <= end <= data@.len(),
        ensures
            final(self).wf(),
            (final(self).buf@, final(self).pos as nat, r is Ok) == write_all(
                old(self).buf@,
                old(self).pos as nat,
                data@.subrange(start as int, end as int),
            ),
            r is Err ==> r == Err::<(), DnsError>(DnsError::OutOfBounds),
    {
        let mut k = start;
        proof {
            assert(data@.subrange(start as int, start as int) =~= Seq::<u8>::empty());
        }
        while k < end
            invariant
                self.wf(),
                start <= k <= end <= data@.len(),
                (self.buf@, self.pos as nat, true) == write_all(
                    old(self).buf@,
                    old(self).pos as nat,
                    data@.subrange(start as int, k as int),
                ),
            decreases end - k,
        {
            proof {
                lemma_write_all_split(
                    old(self).buf@,
                    old(self).pos as nat,
                    data@.subrange(start as int, k as int),
                    seq![data@[k as int]],
                );
                assert(data@.subrange(start as int, k as int) + seq![data@[k as int]]
                    =~= data@.subrange(start as int, k + 1));
                lemma_write_all_split(
                    old(self).buf@,
                    old(self).pos as nat,
                    data@.subrange(start as int, k + 1),
                    data@.subrange(k + 1, end as int),
                );
                assert(data@.subrange(start as int, k + 1) + data@.subrange(k + 1, end as int)
                    =~= data@.subrange(start as int, end as int));
            }
            match self.write(data[k]) {
                Ok(u) => {
                },
                Err(e) => {
                    return Err(e);
                },
            }
            k = k + 1;
        }
        Ok(())
    }

    /// Write the labels of `name[start..]` in wire form, each nonempty
    /// label length-prefixed, closed by a zero byte.
    fn write_labels(&mut self, name: &[u8], start: usize) -> (r: Result<(), DnsError>)
        requires
            old(self).wf(),
            start <= name@.len(),
            labels_ok_from(name@, start as int),
        ensures
            final(self).wf(),
            (final(self).buf@, final(self).pos as nat, r is Ok) == write_all(
                old(self).buf@,
                old(self).pos as nat,
                qname_wire_from(name@, start as int),
            ),
            r is Err ==> r == Err::<(), DnsError>(DnsError::OutOfBounds),
        decreases name@.len() - start,
    {
        let n = name.len();
        let mut j = start;
        while j < n && name[j] != 46
            invariant
                start <= j <= n == name@.len(),
                forall|k: int| start <= k < j ==> name@[k] != 46,
            decreases n - j,
        {
            j = j + 1;
        }
        proof {
            lemma_next_dot(name@, start as int, j as int);
        }
        let ghost piece: Seq<u8> = if j == start {
            seq![]
        } else {
            seq![(j - start) as u8] + name@.subrange(start as int, j as int)
        };
        let ghost tail: Seq<u8> = if j >= name@.len() {
            seq![0u8]
        } else {
            qname_wire_from(name@, j + 1)
        };
        proof {
            assert(qname_wire_from(name@, start as int) == piece + tail);
            lemma_write_all_split(old(self).buf@, old(self).pos as nat, piece, tail);
        }
        if j > start {
            proof {
                assert(piece =~= seq![(j - start) as u8] + name@.subrange(start as int, j as int));
                lemma_write_all_split(
                    old(self).buf@,
                    old(self).pos as nat,
                    seq![(j - start) as u8],
                    name@.subrange(start as int, j as int),
                );
            }
            // Labels are limited to 63 bytes; the caller checked it.
            match self.write((j - start) as u8) {
                Ok(u) => {
                },
                Err(e) => {
                    proof {
                        assert(seq![(j - start) as u8] + name@.subrange(start as int, j as int)
                            =~= piece);
                    }
                    return Err(e);
                },
            }
            self.write_range(name, start, j)?;
        }
        if j < n {
            self.write_labels(name, j + 1)
        } else {
            self.write_u8(0)
        }
    }

    /// True if every dot-separated label of `name` is at most 63 bytes.
    fn labels_fit(name: &[u8]) -> (r: bool)
        ensures
            r == labels_ok(name@),
    {
        let n = name.len();
        let mut start: usize = 0;
        let mut i: usize = 0;
        while i < n
            invariant
                start <= i <= n == name@.len(),
                forall|k: int| start <= k < i ==> name@[k] != 46,
                labels_ok(name@) == labels_ok_from(name@, start as int),
            decreases n - i,
        {
            if name[i] == 46 {
                proof {
                    lemma_next_dot(name@, start as int, i as int);
                }
                if i - start > 63 {
                    return false;
                }
                start = i + 1;
            }
            i = i + 1;
        }
        proof {
            lemma_next_dot(name@, start as int, n as int);
        }
        n - start <= 63
    }

    /// Write a domain name at the cursor: each dot-separated label as a
    /// length byte (at most 63) followed by its bytes, then a zero byte.
    /// A name with a label over 63 bytes is rejected before anything is
    /// written. No compression is produced.
    pub fn write_qname(&mut self, qname: &str) -> (r: Result<(), DnsError>)
        requires
            old(self).wf(),
        ensures
            final(self).wf(),
            !labels_ok(qname.spec_bytes()) ==> r == Err::<(), DnsError>(DnsError::LabelTooLong)
                && *final(self) == *old(self),
            labels_ok(qname.spec_bytes()) ==> (final(self).buf@, final(self).pos as nat, r is Ok)
                == write_all(old(self).buf@, old(self).pos as nat, qname_wire(qname.spec_bytes()))
                && (r is Err ==> r == Err::<(), DnsError>(DnsError::OutOfBounds)),
    {
        let bytes: &[u8] = qname.as_bytes();
        if !Self::labels_fit(bytes) {
            return Err(DnsError::LabelTooLong);
        }
        self.write_labels(bytes, 0)
    }
}

} // verus!
