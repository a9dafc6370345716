//! The handshake sniffer: what host a client asks for, read from the bytes
//! that a peek at its socket shows, without taking any of them.
//!
//! A client opens either with the modern handshake packet,
//! `VarInt length | VarInt id | VarInt version | String address | u16 port |
//! VarInt next state`, or with the legacy ping, which starts with
//! `FE 01 FA 00 0B` and carries, after 27 bytes of preamble, a two-byte
//! length and `u8 version | u16 units | UTF-16BE host | u32 port`.

use crate::buffer;
use crate::buffer::big_endian;
use crate::error::ErrorKind;
use crate::prefixed;
use crate::text;
use crate::varint;
use crate::varint::Decoded;
use bytes::Bytes;
use vstd::prelude::*;
use vstd::slice::*;
use vstd::utf8::*;

verus! {

/// The host a client wants to reach.
#[derive(Hash, Eq, PartialEq, Debug, Clone)]
pub struct Host {
    pub domain: String,
    pub port: u16,
}

/// What the sniffer makes of the bytes peeked so far.
#[derive(Eq, PartialEq, Debug, Clone)]
pub enum Seek {
    /// The handshake is complete and names this host.
    Found(Host),
    /// No verdict yet: that many bytes, counted from the start of the
    /// stream, must be there before it pays to look again.
    Need(usize),
    /// The client is refused.
    Failed(ErrorKind),
}

/// The mathematical reading of a peeked byte sequence.
pub enum Parsed {
    /// A complete handshake for this domain and port.
    Host(Seq<char>, u16),
    /// A handshake may still come of it, once that many bytes are there.
    Need(nat),
    /// No handshake starts like this.
    Invalid,
}

/// The longest modern handshake body the sniffer accepts.
pub const MAX_PACKET: i32 = 275;

/// The longest server address, in bytes.
pub const MAX_DOMAIN: u32 = 256;

/// Where the length of a legacy payload stands.
pub const LEGACY_PREAMBLE: usize = 27;

/// One more than the longest legacy payload the sniffer accepts.
pub const LEGACY_LIMIT: u16 = 519;

/// Whether `bytes` opens with the five bytes of a legacy ping.
pub open spec fn is_legacy(bytes: Seq<u8>) -> bool {
    &&& bytes.len() >= 5
    &&& bytes[0] == 0xFE
    &&& bytes[1] == 0x01
    &&& bytes[2] == 0xFA
    &&& bytes[3] == 0x00
    &&& bytes[4] == 0x0B
}

/// The body of a modern handshake: two VarInts that are read and dropped,
/// the address, the port, and a last VarInt that must be there.
pub open spec fn modern_payload(p: Seq<u8>) -> Parsed {
    match varint::decode(p) {
        Decoded::Value(_, a) => match varint::decode(p.skip(a as int)) {
            Decoded::Value(_, b) => match prefixed::decode(
                p.skip(a as int).skip(b as int),
                MAX_DOMAIN as nat,
            ) {
                Some((domain, c)) => {
                    let rest = p.skip(a as int).skip(b as int).skip(c as int);
                    if rest.len() < 2 {
                        Parsed::Invalid
                    } else if varint::decode(rest.skip(2)) is Value {
                        Parsed::Host(domain, big_endian(rest.take(2)) as u16)
                    } else {
                        Parsed::Invalid
                    }
                },
                None => Parsed::Invalid,
            },
            _ => Parsed::Invalid,
        },
        _ => Parsed::Invalid,
    }
}

/// A modern handshake at the head of `bytes`.
pub open spec fn modern(bytes: Seq<u8>) -> Parsed {
    match varint::decode(bytes) {
        Decoded::Short => Parsed::Need(bytes.len() + 1),
        Decoded::Overlong => Parsed::Invalid,
        Decoded::Value(len, n) => if len < 0 || len > MAX_PACKET {
            Parsed::Invalid
        } else if bytes.len() < n + len {
            Parsed::Need((n + len) as nat)
        } else {
            modern_payload(bytes.subrange(n as int, n + len))
        },
    }
}

/// The code units that `bytes` hold, two bytes each, high byte first. An
/// odd byte at the end is left out.
pub open spec fn utf16_units(bytes: Seq<u8>) -> Seq<u16>
    decreases bytes.len(),
{
    if bytes.len() < 2 {
        seq![]
    } else {
        seq![big_endian(bytes.take(2)) as u16] + utf16_units(bytes.skip(2))
    }
}

/// The host that decoded text and a port make: none without text, and of
/// the port its low 16 bits.
pub open spec fn legacy_named(domain: Option<Seq<char>>, port: nat) -> Parsed {
    match domain {
        Some(d) => Parsed::Host(d, (port % 0x1_0000) as u16),
        None => Parsed::Invalid,
    }
}

/// The payload of a legacy ping, at least seven bytes long.
pub open spec fn legacy_payload(p: Seq<u8>) -> Parsed {
    let units = big_endian(p.subrange(1, 3)) as int;
    if p.len() - 3 < 2 * units + 4 {
        Parsed::Invalid
    } else {
        legacy_named(
            text::utf16_text(utf16_units(p.subrange(3, 3 + 2 * units))),
            big_endian(p.subrange(3 + 2 * units, 7 + 2 * units)),
        )
    }
}

/// A legacy ping at the head of `bytes`.
pub open spec fn legacy(bytes: Seq<u8>) -> Parsed {
    let at = LEGACY_PREAMBLE as int;
    if bytes.len() < at + 2 {
        Parsed::Need((at + 2) as nat)
    } else {
        let len = big_endian(bytes.subrange(at, at + 2)) as int;
        if len < 7 || len >= LEGACY_LIMIT {
            Parsed::Invalid
        } else if bytes.len() < at + 2 + len {
            Parsed::Need((at + 2 + len) as nat)
        } else {
            legacy_payload(bytes.subrange(at + 2, at + 2 + len))
        }
    }
}

/// The handshake at the head of `bytes`: five bytes decide which of the two
/// forms it is.
pub open spec fn handshake(bytes: Seq<u8>) -> Parsed {
    if bytes.len() < 5 {
        Parsed::Need(5)
    } else if is_legacy(bytes) {
        legacy(bytes)
    } else {
        modern(bytes)
    }
}

/// Whether a verdict of the sniffer is the one the reading `p` calls for, on
/// a stream that may still grow.
pub open spec fn agrees(r: Seek, p: Parsed) -> bool {
    match p {
        Parsed::Host(domain, port) => r matches Seek::Found(h) && h.domain@ == domain && h.port
            == port,
        Parsed::Need(k) => r == Seek::Need(k as usize) && k <= usize::MAX,
        Parsed::Invalid => r == Seek::Failed(ErrorKind::InvalidData),
    }
}

/// The part of `stream` that a read of `len` bytes at `pos` shows: less
/// than `len` bytes where the stream ends before.
pub open spec fn window(stream: Seq<u8>, pos: nat, len: nat) -> Seq<u8> {
    let from = if pos <= stream.len() { pos } else { stream.len() };
    let to = if pos + len <= stream.len() { pos + len } else { stream.len() };
    stream.subrange(from as int, to as int)
}

/// The number of bytes a decoded VarInt takes: none where there is none.
pub open spec fn taken(d: Decoded) -> nat {
    match d {
        Decoded::Value(_, n) => n,
        _ => 0,
    }
}

/// What a cursor reports for a decoded VarInt: a short input is
/// `UnexpectedEof`, five marked bytes are `InvalidData`.
pub open spec fn var_int_result(d: Decoded) -> Result<i32, ErrorKind> {
    match d {
        Decoded::Value(v, _) => Ok(v),
        Decoded::Short => Err(ErrorKind::UnexpectedEof),
        Decoded::Overlong => Err(ErrorKind::InvalidData),
    }
}

/// A reading position in the bytes peeked from a stream. Reading moves the
/// position; the bytes stay where they are.
pub struct PeekCursor<'a> {
    stream: &'a [u8],
    pos: usize,
}

impl<'a> PeekCursor<'a> {
    /// The bytes peeked.
    pub closed spec fn peeked(&self) -> Seq<u8> {
        self.stream@
    }

    /// The position, counted from the start of the stream.
    pub closed spec fn at(&self) -> nat {
        self.pos as nat
    }

    /// A cursor at `pos` over the peeked bytes `stream`.
    pub fn new(stream: &'a [u8], pos: usize) -> (c: Self)
        ensures
            c.peeked() == stream@,
            c.at() == pos,
    {
        PeekCursor { stream, pos }
    }

    /// The next `len` bytes, or as many of them as were peeked, and the
    /// position moved on by `len` either way.
    pub fn read(&mut self, len: usize) -> (r: Bytes)
        requires
            old(self).at() + len <= usize::MAX,
        ensures
            final(self).peeked() == old(self).peeked(),
            final(self).at() == old(self).at() + len,
            buffer::contents(r) == window(old(self).peeked(), old(self).at(), len as nat),
    {
        let have = self.stream.len();
        let to = if self.pos + len <= have {
            self.pos + len
        } else {
            have
        };
        let from = if self.pos <= have {
            self.pos
        } else {
            have
        };
        let mut buf = buffer::from_vec(slice_to_vec(slice_subrange(self.stream, 0, to)));
        buffer::advance(&mut buf, from);
        assert(self.stream@.subrange(0, to as int).skip(from as int) =~= self.stream@.subrange(
            from as int,
            to as int,
        ));
        self.pos = self.pos + len;
        buf
    }

    /// The VarInt at the position, and the position moved past it. Where
    /// the peeked bytes end before the VarInt does, that is
    /// `UnexpectedEof`; five marked bytes are `InvalidData`. The position
    /// stays on a failure.
    pub fn read_var_int(&mut self) -> (r: Result<i32, ErrorKind>)
        requires
            old(self).at() + 5 <= usize::MAX,
        ensures
            final(self).peeked() == old(self).peeked(),
            final(self).at() == old(self).at() + taken(
                varint::decode(window(old(self).peeked(), old(self).at(), 5)),
            ),
            r == var_int_result(varint::decode(window(old(self).peeked(), old(self).at(), 5))),
    {
        let start = self.pos;
        let mut bytes = self.read(5);
        let before = buffer::remaining(&bytes);
        let value = varint::read_var_int_buf(&mut bytes);
        match value {
            Some(v) => {
                let after = buffer::remaining(&bytes);
                self.pos = start + (before - after);
                Ok(v)
            },
            None => {
                self.pos = start;
                if before < 5 {
                    proof {
                        varint::lemma_decode_extend(
                            window(self.stream@, start as nat, 5),
                            Seq::empty(),
                        );
                    }
                    Err(ErrorKind::UnexpectedEof)
                } else {
                    Err(ErrorKind::InvalidData)
                }
            },
        }
    }

    /// Moves the position.
    pub fn set_pos(&mut self, pos: usize)
        ensures
            final(self).peeked() == old(self).peeked(),
            final(self).at() == pos,
    {
        self.pos = pos;
    }

    /// The position.
    pub fn get_pos(&self) -> (pos: usize)
        ensures
            pos == self.at(),
    {
        self.pos
    }
}

/// The code units in `buf`, two bytes each, high byte first.
fn read_units(buf: &mut Bytes) -> (units: Vec<u16>)
    ensures
        units@ == utf16_units(buffer::contents(*old(buf))),
        buffer::contents(*final(buf)).len() < 2,
{
    let mut units: Vec<u16> = Vec::new();
    while buffer::remaining(buf) >= 2
        invariant
            units@ + utf16_units(buffer::contents(*buf)) == utf16_units(
                buffer::contents(*old(buf)),
            ),
        decreases buffer::contents(*buf).len(),
    {
        let ghost left = buffer::contents(*buf);
        let ghost done = units@;
        let unit = buffer::get_u16(buf);
        units.push(unit);
        assert(done + utf16_units(left) =~= units@ + utf16_units(left.skip(2)));
    }
    assert(units@ + utf16_units(buffer::contents(*buf)) =~= units@);
    units
}

/// The verdict on a legacy ping whose host bytes were decoded to `domain`,
/// or could not be, and whose port field held `port`.
pub fn legacy_host(domain: Option<String>, port: u32) -> (r: Seek)
    ensures
        agrees(
            r,
            legacy_named(
                match domain {
                    Some(d) => Some(d@),
                    None => None,
                },
                port as nat,
            ),
        ),
{
    match domain {
        Some(domain) => Seek::Found(Host { domain, port: (port % 0x1_0000) as u16 }),
        None => Seek::Failed(ErrorKind::InvalidData),
    }
}

/// Reads a modern handshake from the bytes peeked so far.
pub fn seek_default(stream: &[u8]) -> (r: Seek)
    ensures
        agrees(r, modern(stream@)),
{
    let mut cursor = PeekCursor::new(stream, 0);
    proof {
        let head = window(stream@, 0, 5);
        let tail = stream@.subrange(head.len() as int, stream@.len() as int);
        assert(stream@ =~= head + tail);
        varint::lemma_decode_extend(head, tail);
        if varint::decode(head) is Short {
            assert(stream@ =~= head);
        }
    }
    let len = match cursor.read_var_int() {
        Ok(len) => len,
        Err(ErrorKind::UnexpectedEof) => {
            return Seek::Need(stream.len() + 1);
        },
        Err(ErrorKind::InvalidData) => {
            return Seek::Failed(ErrorKind::InvalidData);
        },
    };
    if len < 0 || len > MAX_PACKET {
        return Seek::Failed(ErrorKind::InvalidData);
    }
    let ghost n = cursor.at();
    let mut payload = cursor.read(len as usize);
    if buffer::remaining(&payload) < len as usize {
        return Seek::Need(cursor.get_pos());
    }
    let ghost p = stream@.subrange(n as int, n + len);
    assert(buffer::contents(payload) == p);
    if varint::read_var_int_buf(&mut payload).is_none() {
        return Seek::Failed(ErrorKind::InvalidData);
    }
    if varint::read_var_int_buf(&mut payload).is_none() {
        return Seek::Failed(ErrorKind::InvalidData);
    }
    let domain = match prefixed::read_string_buf(&mut payload, MAX_DOMAIN) {
        Ok(domain) => domain,
        Err(_) => {
            return Seek::Failed(ErrorKind::InvalidData);
        },
    };
    if buffer::remaining(&payload) < 2 {
        return Seek::Failed(ErrorKind::InvalidData);
    }
    let port = buffer::get_u16(&mut payload);
    if varint::read_var_int_buf(&mut payload).is_none() {
        return Seek::Failed(ErrorKind::InvalidData);
    }
    Seek::Found(Host { domain, port })
}

/// Reads a legacy ping from the bytes peeked so far.
pub fn seek_legacy(stream: &[u8]) -> (r: Seek)
    ensures
        agrees(r, legacy(stream@)),
{
    let mut cursor = PeekCursor::new(stream, LEGACY_PREAMBLE);
    let mut head = cursor.read(2);
    if buffer::remaining(&head) < 2 {
        return Seek::Need(LEGACY_PREAMBLE + 2);
    }
    let ghost at = LEGACY_PREAMBLE as int;
    assert(buffer::contents(head).take(2) =~= stream@.subrange(at, at + 2));
    let len = buffer::get_u16(&mut head);
    if len >= LEGACY_LIMIT {
        return Seek::Failed(ErrorKind::InvalidData);
    }
    if len < 7 {
        return Seek::Failed(ErrorKind::InvalidData);
    }
    let mut payload = cursor.read(len as usize);
    if buffer::remaining(&payload) < len as usize {
        return Seek::Need(cursor.get_pos());
    }
    let ghost p = stream@.subrange(at + 2, at + 2 + len);
    assert(buffer::contents(payload) == p);
    let _version = buffer::get_u8(&mut payload);
    assert(p.skip(1).take(2) =~= p.subrange(1, 3));
    let units = buffer::get_u16(&mut payload);
    assert(buffer::contents(payload) =~= p.skip(3));
    if buffer::remaining(&payload) < units as usize * 2 + 4 {
        return Seek::Failed(ErrorKind::InvalidData);
    }
    let mut name = buffer::split_to(&mut payload, units as usize * 2);
    assert(buffer::contents(name) =~= p.subrange(3, 3 + 2 * units));
    assert(buffer::contents(payload).take(4) =~= p.subrange(3 + 2 * units, 7 + 2 * units));
    let port = buffer::get_u32(&mut payload);
    let units = read_units(&mut name);
    legacy_host(text::from_utf16(&units), port)
}

/// Reads the host a client asks for from the bytes peeked so far, `closed`
/// telling whether the peer has closed, so that no more will come. While
/// the handshake is incomplete the verdict is `Need`, or `UnexpectedEof`
/// once the peer has closed.
pub fn seek_handshake(peeked: &[u8], closed: bool) -> (r: Seek)
    ensures
        closed && handshake(peeked@) is Need ==> r == Seek::Failed(ErrorKind::UnexpectedEof),
        !(closed && handshake(peeked@) is Need) ==> agrees(r, handshake(peeked@)),
{
    let found = if peeked.len() < 5 {
        Seek::Need(5)
    } else if peeked[0] == 0xFE && peeked[1] == 0x01 && peeked[2] == 0xFA && peeked[3] == 0x00
        && peeked[4] == 0x0B {
        seek_legacy(peeked)
    } else {
        seek_default(peeked)
    };
    match found {
        Seek::Need(n) => if closed {
            Seek::Failed(ErrorKind::UnexpectedEof)
        } else {
            Seek::Need(n)
        },
        other => other,
    }
}

/// The protocol version that a modern handshake body declares: its second
/// VarInt.
pub open spec fn payload_version(p: Seq<u8>) -> Option<i32> {
    match varint::decode(p.skip(taken(varint::decode(p)) as int)) {
        Decoded::Value(version, _) => Some(version),
        _ => None,
    }
}

/// The protocol version that a complete handshake at the head of `bytes`
/// declares: the second VarInt of a modern body, the first byte of a legacy
/// payload.
pub open spec fn declared_version(bytes: Seq<u8>) -> Option<i32> {
    if !(handshake(bytes) is Host) {
        None
    } else if is_legacy(bytes) {
        Some(bytes[LEGACY_PREAMBLE as int + 2] as i32)
    } else {
        match varint::decode(bytes) {
            Decoded::Value(len, n) => payload_version(bytes.subrange(n as int, n + len)),
            _ => None,
        }
    }
}

/// The version in the body of a modern handshake that the sniffer accepts.
fn modern_version(peeked: &[u8]) -> (version: Option<i32>)
    requires
        modern(peeked@) is Host,
    ensures
        varint::decode(peeked@) matches Decoded::Value(len, n) && version == payload_version(
            peeked@.subrange(n as int, n + len),
        ),
{
    let mut cursor = PeekCursor::new(peeked, 0);
    proof {
        let head = window(peeked@, 0, 5);
        let tail = peeked@.subrange(head.len() as int, peeked@.len() as int);
        assert(peeked@ =~= head + tail);
        varint::lemma_decode_extend(head, tail);
        if varint::decode(head) is Short {
            assert(peeked@ =~= head);
        }
    }
    let len = match cursor.read_var_int() {
        Ok(len) => len,
        Err(_) => {
            return None;
        },
    };
    let mut body = cursor.read(len as usize);
    let _id = varint::read_var_int_buf(&mut body);
    varint::read_var_int_buf(&mut body)
}

/// The protocol version that the client declares, once its handshake is
/// complete: it goes into the status that a client gets in place of a
/// backend's answer.
pub fn protocol_version(peeked: &[u8]) -> (version: Option<i32>)
    ensures
        version == declared_version(peeked@),
{
    match seek_handshake(peeked, false) {
        Seek::Found(_) => {},
        _ => {
            return None;
        },
    }
    if peeked[0] == 0xFE && peeked[1] == 0x01 && peeked[2] == 0xFA && peeked[3] == 0x00
        && peeked[4] == 0x0B {
        Some(peeked[LEGACY_PREAMBLE + 2] as i32)
    } else {
        modern_version(peeked)
    }
}

/// The number of bytes that a complete handshake at the head of `bytes`
/// takes up: the length prefix and the body of a modern packet, the
/// preamble, the length and the payload of a legacy ping.
pub open spec fn handshake_len(bytes: Seq<u8>) -> nat {
    if is_legacy(bytes) {
        let at = LEGACY_PREAMBLE as int;
        (at + 2 + big_endian(bytes.subrange(at, at + 2))) as nat
    } else {
        match varint::decode(bytes) {
            Decoded::Value(len, n) => (n + len) as nat,
            _ => 0,
        }
    }
}

/// The sniffer's verdict rests on the handshake alone. Bytes that follow a
/// handshake it accepts do not change the host it reads, so the stream can
/// be handed on as it is; what it has refused stays refused; and while it
/// waits, it waits for more bytes than it has.
pub proof fn lemma_handshake_extend(p: Seq<u8>, s: Seq<u8>)
    ensures
        !(handshake(p) is Need) ==> handshake(p + s) == handshake(p),
        handshake(p) matches Parsed::Need(k) ==> k > p.len(),
{
    let all = p + s;
    if p.len() >= 5 {
        assert(is_legacy(all) == is_legacy(p));
        if is_legacy(p) {
            let at = LEGACY_PREAMBLE as int;
            if p.len() >= at + 2 {
                assert(all.subrange(at, at + 2) =~= p.subrange(at, at + 2));
                let len = big_endian(p.subrange(at, at + 2)) as int;
                if p.len() >= at + 2 + len {
                    assert(all.subrange(at + 2, at + 2 + len) =~= p.subrange(at + 2, at + 2 + len));
                }
            }
        } else {
            varint::lemma_decode_extend(p, s);
            match varint::decode(p) {
                Decoded::Value(len, n) => {
                    if 0 <= len && p.len() >= n + len {
                        assert(all.subrange(n as int, n + len) =~= p.subrange(n as int, n + len));
                    }
                },
                _ => {},
            }
        }
    }
}

/// Where the sniffer accepts, the handshake is a prefix of what was peeked,
/// and that prefix alone is accepted with the same host. With
/// `lemma_handshake_extend`: the accepted bytes, followed by whatever came
/// after them, read as the accepted bytes do.
pub proof fn lemma_handshake_prefix(bytes: Seq<u8>)
    requires
        handshake(bytes) is Host,
    ensures
        5 <= handshake_len(bytes) <= bytes.len(),
        handshake(bytes.take(handshake_len(bytes) as int)) == handshake(bytes),
{
    let n = handshake_len(bytes) as int;
    let p = bytes.take(n);
    if is_legacy(bytes) {
        let at = LEGACY_PREAMBLE as int;
        assert(p.subrange(at, at + 2) =~= bytes.subrange(at, at + 2));
        assert(p.subrange(at + 2, n) =~= bytes.subrange(at + 2, n));
    } else {
        varint::lemma_decode_extend(bytes, Seq::empty());
        let k = taken(varint::decode(bytes)) as int;
        let head = bytes.take(k);
        assert(varint::decode(head) == varint::decode(bytes)) by {
            varint::lemma_decode_alone(bytes);
        }
        assert(p =~= head + bytes.subrange(k, n));
        varint::lemma_decode_extend(head, bytes.subrange(k, n));
        assert(p.subrange(k, n) =~= bytes.subrange(k, n));
        assert(modern_payload(bytes.subrange(k, n)) is Host);
        assert(n >= 5) by {
            lemma_payload_size(bytes.subrange(k, n));
        }
    }
}

proof fn lemma_payload_size(p: Seq<u8>)
    requires
        modern_payload(p) is Host,
    ensures
        p.len() >= 6,
{
    varint::lemma_decode_extend(p, Seq::empty());
    let a = taken(varint::decode(p));
    let q = p.skip(a as int);
    varint::lemma_decode_extend(q, Seq::empty());
    let b = taken(varint::decode(q));
    let field = q.skip(b as int);
    varint::lemma_decode_extend(field, Seq::empty());
    match prefixed::decode(field, MAX_DOMAIN as nat) {
        Some((_, c)) => {
            varint::lemma_decode_extend(field.skip(c as int).skip(2), Seq::empty());
        },
        None => {},
    }
}

/// A host read from a modern handshake has a domain of at most 256 bytes,
/// and the handshake was at most 280 bytes long.
pub proof fn lemma_modern_bounds(bytes: Seq<u8>)
    requires
        modern(bytes) is Host,
    ensures
        modern(bytes) matches Parsed::Host(domain, _) && encode_utf8(domain).len() <= MAX_DOMAIN,
        varint::decode(bytes) matches Decoded::Value(len, n) && n + len <= 5 + MAX_PACKET,
{
    varint::lemma_decode_extend(bytes, Seq::empty());
    match varint::decode(bytes) {
        Decoded::Value(len, n) => {
            let p = bytes.subrange(n as int, n + len);
            let a = taken(varint::decode(p));
            let b = taken(varint::decode(p.skip(a as int)));
            let field = p.skip(a as int).skip(b as int);
            match varint::decode(field) {
                Decoded::Value(size, m) => {
                    decode_utf8_encode_utf8(field.subrange(m as int, m + size));
                },
                _ => {},
            }
        },
        _ => {},
    }
}

} // verus!
