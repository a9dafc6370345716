//! Length-prefixed strings: a VarInt that gives the number of bytes, then
//! that many bytes of UTF-8.

use crate::buffer;
use crate::error::ErrorKind;
use crate::text;
use crate::varint;
use crate::varint::Decoded;
use bytes::Bytes;
use vstd::prelude::*;
use vstd::string::*;
use vstd::utf8::*;

verus! {

/// The string at the head of `bytes`, with the number of bytes it takes, as
/// long as its length is at most `max` bytes. There is none where the length
/// prefix is no VarInt, is negative or above `max`, where fewer bytes follow
/// than it announces, or where those bytes are not UTF-8.
pub open spec fn decode(bytes: Seq<u8>, max: nat) -> Option<(Seq<char>, nat)> {
    match varint::decode(bytes) {
        Decoded::Value(len, n) => {
            let body = bytes.subrange(n as int, n + len);
            if len < 0 || len > max || bytes.len() - n < len || !valid_utf8(body) {
                None
            } else {
                Some((decode_utf8(body), (n + len) as nat))
            }
        },
        _ => None,
    }
}

/// How many bytes a read at the head of `bytes` steps over: the prefix
/// alone where the length is refused, the prefix and the body otherwise.
pub open spec fn consumed(bytes: Seq<u8>, max: nat) -> nat {
    match varint::decode(bytes) {
        Decoded::Value(len, n) => if len < 0 || len > max || bytes.len() - n < len {
            n
        } else {
            (n + len) as nat
        },
        Decoded::Short => bytes.len(),
        Decoded::Overlong => 5,
    }
}

/// The bytes that encode `s`.
pub open spec fn encoding(s: Seq<char>) -> Seq<u8> {
    varint::encoding(encode_utf8(s).len() as i32) + encode_utf8(s)
}

/// The string codec round-trips. Whatever follows the encoding of a string
/// whose UTF-8 form has at most `max` bytes, the decoder reads the string
/// back and stops at the end of the encoding; a longer string is refused.
pub proof fn lemma_round_trip(s: Seq<char>, max: nat, rest: Seq<u8>)
    requires
        encode_utf8(s).len() <= i32::MAX,
    ensures
        encode_utf8(s).len() <= max ==> decode(encoding(s) + rest, max) == Some(
            (s, encoding(s).len()),
        ),
        encode_utf8(s).len() > max ==> decode(encoding(s) + rest, max) is None,
{
    let body = encode_utf8(s);
    let len = body.len() as i32;
    let prefix = varint::encoding(len);
    let all = encoding(s) + rest;
    varint::lemma_round_trip(len, body + rest);
    assert(all =~= prefix + (body + rest));
    assert(all.subrange(prefix.len() as int, prefix.len() + len) =~= body);
    encode_utf8_valid_utf8(s);
    encode_utf8_decode_utf8(s);
}

/// Appends the encoding of `s` to `out`.
pub fn write_string(s: &str, out: &mut Vec<u8>)
    requires
        encode_utf8(s@).len() <= i32::MAX,
    ensures
        final(out)@ == old(out)@ + encoding(s@),
{
    let body = s.as_bytes();
    let ghost before = out@;
    varint::write_var_int(body.len() as i32, out);
    out.extend_from_slice(body);
    assert(out@ =~= before + encoding(s@));
}

/// Reads the string at the head of `buf`, of at most `max` bytes, and steps
/// over it. A refusal is always `InvalidData`; `buf` has then lost what was
/// looked at.
pub fn read_string_buf(buf: &mut Bytes, max: u32) -> (r: Result<String, ErrorKind>)
    ensures
        buffer::contents(*final(buf)) == buffer::contents(*old(buf)).skip(
            consumed(buffer::contents(*old(buf)), max as nat) as int,
        ),
        match decode(buffer::contents(*old(buf)), max as nat) {
            Some((s, n)) => r matches Ok(got) && got@ == s,
            None => r == Err::<String, ErrorKind>(ErrorKind::InvalidData),
        },
{
    let ghost orig = buffer::contents(*buf);
    let len = match varint::read_var_int_buf(buf) {
        Some(len) => len,
        None => {
            assert(orig.skip(orig.len() as int).len() == 0);
            assert(buffer::contents(*buf) =~= orig.skip(consumed(orig, max as nat) as int));
            return Err(ErrorKind::InvalidData);
        },
    };
    let ghost n = varint::decode(orig)->Value_1;
    if len < 0 || len as u32 > max || buffer::remaining(buf) < len as usize {
        return Err(ErrorKind::InvalidData);
    }
    let body = buffer::slice(buf, 0, len as usize);
    let text = text::from_utf8(buffer::to_vec(&body));
    buffer::advance(buf, len as usize);
    proof {
        assert(orig.skip(n as int).subrange(0, len as int) =~= orig.subrange(n as int, n + len));
        assert(orig.skip(n as int).skip(len as int) =~= orig.skip(n + len));
    }
    match text {
        Some(s) => Ok(s),
        None => Err(ErrorKind::InvalidData),
    }
}

} // verus!
