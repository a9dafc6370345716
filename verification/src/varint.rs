//! VarInt: a signed 32-bit number in one to five bytes, seven bits a byte,
//! least significant group first, the high bit set on every byte but the
//! last.

use crate::buffer;
use bytes::Bytes;
use vstd::prelude::*;

verus! {

/// The two's-complement reading of `v` as a number below 2^32.
pub open spec fn unsigned(v: i32) -> nat {
    if v >= 0 {
        v as nat
    } else {
        (v + 0x1_0000_0000) as nat
    }
}

/// The signed number whose two's-complement reading is `u % 2^32`.
pub open spec fn signed(u: nat) -> i32 {
    let low = u % 0x1_0000_0000;
    if low < 0x8000_0000 {
        low as i32
    } else {
        (low - 0x1_0000_0000) as i32
    }
}

/// The seven-bit groups of `u`, least significant first, each but the last
/// marked with the continuation bit.
pub open spec fn groups(u: nat) -> Seq<u8>
    decreases u,
{
    if u < 128 {
        seq![u as u8]
    } else {
        seq![(u % 128 + 128) as u8] + groups(u / 128)
    }
}

/// The bytes that encode `v`.
pub open spec fn encoding(v: i32) -> Seq<u8> {
    groups(unsigned(v))
}

/// What the head of a byte sequence is, read as a VarInt.
pub enum Decoded {
    /// A complete VarInt: its value and the number of bytes it takes.
    Value(i32, nat),
    /// The input ends before a byte without the continuation bit.
    Short,
    /// Five bytes in a row carry the continuation bit.
    Overlong,
}

/// The number that seven-bit groups spell, least significant group first.
/// The continuation bits are not looked at.
pub open spec fn sum(gs: Seq<u8>) -> nat
    decreases gs.len(),
{
    if gs.len() == 0 {
        0
    } else {
        (gs[0] % 128) as nat + 128 * sum(gs.skip(1))
    }
}

/// The number of leading bytes of `bytes` that carry the continuation bit.
pub open spec fn marked(bytes: Seq<u8>) -> nat
    decreases bytes.len(),
{
    if bytes.len() == 0 || bytes[0] < 128 {
        0
    } else {
        1 + marked(bytes.skip(1))
    }
}

/// The VarInt at the head of `bytes`. Of a five-byte encoding only the low
/// 32 bits count: the last group carries three bits too many.
pub open spec fn decode(bytes: Seq<u8>) -> Decoded {
    let m = marked(bytes);
    if m >= 5 {
        Decoded::Overlong
    } else if m >= bytes.len() {
        Decoded::Short
    } else {
        Decoded::Value(signed(sum(bytes.take((m + 1) as int))), m + 1)
    }
}

/// 128 to the power `k`.
pub open spec fn cap(k: nat) -> nat
    decreases k,
{
    if k == 0 {
        1
    } else {
        128 * cap((k - 1) as nat)
    }
}

proof fn lemma_marked_prefix(bytes: Seq<u8>, k: nat)
    requires
        k <= bytes.len(),
        forall|j: int| 0 <= j < k ==> bytes[j] >= 128,
    ensures
        marked(bytes) >= k,
        k == bytes.len() ==> marked(bytes) == k,
        k < bytes.len() && bytes[k as int] < 128 ==> marked(bytes) == k,
    decreases k,
{
    if k > 0 {
        let rest = bytes.skip(1);
        assert forall|j: int| 0 <= j < k - 1 implies rest[j] >= 128 by {
            assert(rest[j] == bytes[j + 1]);
        }
        lemma_marked_prefix(rest, (k - 1) as nat);
    }
}

proof fn lemma_sum_bound(gs: Seq<u8>)
    ensures
        sum(gs) < cap(gs.len()),
    decreases gs.len(),
{
    if gs.len() > 0 {
        lemma_sum_bound(gs.skip(1));
    }
}

proof fn lemma_groups(u: nat, k: nat, rest: Seq<u8>)
    requires
        k >= 1,
        u < cap(k),
    ensures
        1 <= groups(u).len() <= k,
        marked(groups(u) + rest) == groups(u).len() - 1,
        sum((groups(u) + rest).take(groups(u).len() as int)) == u,
    decreases u,
{
    let g = groups(u);
    let all = g + rest;
    if u < 128 {
        assert(all[0] == u);
        assert(all.take(1).skip(1).len() == 0);
        assert(sum(all.take(1)) == (all.take(1)[0] % 128) as nat + 128 * sum(all.take(1).skip(1)));
    } else {
        let tail = groups(u / 128);
        assert(cap(k) == 128 * cap((k - 1) as nat));
        assert(cap(1) == 128 * cap(0));
        assert(k >= 2);
        lemma_groups(u / 128, (k - 1) as nat, rest);
        assert(all.skip(1) =~= tail + rest);
        assert(all[0] == (u % 128 + 128) as u8);
        assert(all.take(g.len() as int).skip(1) =~= (tail + rest).take(tail.len() as int));
        assert(all.take(g.len() as int)[0] == all[0]);
    }
}

proof fn lemma_signed_unsigned(v: i32)
    ensures
        unsigned(v) < 0x1_0000_0000,
        signed(unsigned(v)) == v,
{
}

/// Decoding inverts encoding: whatever follows the encoding of `v`, the
/// decoder reads `v` back and stops at the end of the encoding, which is
/// one to five bytes long.
pub proof fn lemma_round_trip(v: i32, rest: Seq<u8>)
    ensures
        1 <= encoding(v).len() <= 5,
        decode(encoding(v) + rest) == Decoded::Value(v, encoding(v).len()),
{
    lemma_signed_unsigned(v);
    assert(cap(5) == 34359738368) by {
        reveal_with_fuel(cap, 6);
    }
    lemma_groups(unsigned(v), 5, rest);
}

proof fn lemma_marked_extend(p: Seq<u8>, s: Seq<u8>)
    ensures
        marked(p) < p.len() ==> marked(p + s) == marked(p),
        marked(p + s) >= marked(p),
    decreases p.len(),
{
    if p.len() > 0 && p[0] >= 128 {
        assert((p + s)[0] == p[0]);
        assert((p + s).skip(1) =~= p.skip(1) + s);
        lemma_marked_extend(p.skip(1), s);
    } else if p.len() > 0 {
        assert((p + s)[0] == p[0]);
    }
}

/// A decoder that has made up its mind keeps to it: bytes that follow a
/// complete VarInt, or five marked bytes, change nothing.
pub proof fn lemma_decode_extend(p: Seq<u8>, s: Seq<u8>)
    ensures
        !(decode(p) is Short) ==> decode(p + s) == decode(p),
        decode(p) is Short ==> marked(p) == p.len() && p.len() < 5,
        decode(p) is Overlong ==> p.len() >= 5,
        decode(p) matches Decoded::Value(_, n) ==> 1 <= n <= 5 && n <= p.len(),
{
    lemma_marked_extend(p, s);
    lemma_marked_prefix(p, 0);
    lemma_marked_le(p);
    let m = marked(p);
    if m < 5 && m < p.len() {
        assert((p + s).take((m + 1) as int) =~= p.take((m + 1) as int));
    }
}

/// A VarInt is read from its own bytes as it is read from a longer input.
pub proof fn lemma_decode_alone(p: Seq<u8>)
    requires
        decode(p) is Value,
    ensures
        decode(p) matches Decoded::Value(_, n) && decode(p.take(n as int)) == decode(p),
{
    lemma_marked_le(p);
    let n = marked(p) + 1;
    let head = p.take(n as int);
    lemma_marked_first(p);
    assert forall|j: int| 0 <= j < n - 1 implies head[j] >= 128 by {
        assert(head[j] == p[j]);
    }
    assert(head[n - 1] == p[n - 1]);
    lemma_marked_prefix(head, (n - 1) as nat);
    assert(head.take(n as int) =~= p.take(n as int));
}

proof fn lemma_marked_first(p: Seq<u8>)
    ensures
        forall|j: int| 0 <= j < marked(p) ==> p[j] >= 128,
        marked(p) < p.len() ==> p[marked(p) as int] < 128,
    decreases p.len(),
{
    if p.len() > 0 && p[0] >= 128 {
        let rest = p.skip(1);
        lemma_marked_first(rest);
        lemma_marked_le(rest);
        assert forall|j: int| 0 <= j < marked(p) implies p[j] >= 128 by {
            if j > 0 {
                assert(rest[j - 1] == p[j]);
            }
        }
        if marked(p) < p.len() {
            assert(rest[marked(rest) as int] == p[marked(p) as int]);
        }
    }
}

proof fn lemma_marked_le(p: Seq<u8>)
    ensures
        marked(p) <= p.len(),
    decreases p.len(),
{
    if p.len() > 0 && p[0] >= 128 {
        lemma_marked_le(p.skip(1));
    }
}

/// Appends the encoding of `value` to `out`.
pub fn write_var_int(value: i32, out: &mut Vec<u8>)
    ensures
        final(out)@ == old(out)@ + encoding(value),
{
    let mut u: u64 = if value >= 0 {
        value as u64
    } else {
        (value as i64 + 0x1_0000_0000) as u64
    };
    while u >= 128
        invariant
            out@ + groups(u as nat) == old(out)@ + encoding(value),
        decreases u,
    {
        let ghost before = out@;
        out.push((u % 128 + 128) as u8);
        proof {
            assert(groups(u as nat) == seq![(u % 128 + 128) as u8] + groups((u / 128) as nat));
            assert(before + groups(u as nat) =~= out@ + groups((u / 128) as nat));
        }
        u = u / 128;
    }
    let ghost before = out@;
    out.push(u as u8);
    proof {
        assert(before + groups(u as nat) =~= out@);
    }
}

/// Reads the VarInt at the head of `buf` and steps over it. Where there is
/// none, the bytes looked at are gone from `buf`: all of it when the input
/// was short, five bytes when no byte of the first five ends the number.
pub fn read_var_int_buf(buf: &mut Bytes) -> (r: Option<i32>)
    ensures
        match decode(buffer::contents(*old(buf))) {
            Decoded::Value(v, n) => r == Some(v) && buffer::contents(*final(buf))
                == buffer::contents(*old(buf)).skip(n as int),
            Decoded::Short => r is None && buffer::contents(*final(buf)).len() == 0,
            Decoded::Overlong => r is None && buffer::contents(*final(buf))
                == buffer::contents(*old(buf)).skip(5),
        },
{
    let ghost orig = buffer::contents(*buf);
    let mut gs: Vec<u8> = Vec::new();
    let mut ended = false;
    while gs.len() < 5 && !ended
        invariant
            orig == buffer::contents(*old(buf)),
            gs.len() <= 5,
            gs.len() <= orig.len(),
            gs@ == orig.take(gs.len() as int),
            buffer::contents(*buf) == orig.skip(gs.len() as int),
            ended ==> gs.len() >= 1 && gs[gs.len() - 1] < 128,
            forall|j: int| 0 <= j < gs.len() - (if ended { 1int } else { 0int }) ==> gs[j] >= 128,
        decreases 5 - gs.len() + (if ended { 0int } else { 1int }),
    {
        if !buffer::has_remaining(buf) {
            proof {
                assert forall|j: int| 0 <= j < gs.len() implies orig[j] >= 128 by {
                    assert(gs[j] == orig[j]);
                }
                lemma_marked_prefix(orig, gs.len() as nat);
            }
            return None;
        }
        let ghost before = gs@;
        let byte = buffer::get_u8(buf);
        gs.push(byte);
        proof {
            assert(orig.skip(before.len() as int)[0] == orig[before.len() as int]);
            assert(gs@ =~= orig.take(gs.len() as int));
            assert(orig.skip(before.len() as int).skip(1) =~= orig.skip(gs.len() as int));
        }
        if byte < 128 {
            ended = true;
        }
    }
    let n = gs.len();
    proof {
        let k = if ended { (n - 1) as nat } else { n as nat };
        assert forall|j: int| 0 <= j < k implies orig[j] >= 128 by {
            assert(gs[j] == orig[j]);
        }
        lemma_marked_prefix(orig, k);
        if ended {
            assert(gs[n - 1] == orig[n - 1]);
        }
    }
    if !ended {
        return None;
    }
    let mut acc: u64 = 0;
    let mut j: usize = n;
    while j > 0
        invariant
            j <= n <= 5,
            n == gs.len(),
            acc == sum(gs@.subrange(j as int, n as int)),
        decreases j,
    {
        proof {
            let part = gs@.subrange(j as int, n as int);
            lemma_sum_bound(part);
            reveal_with_fuel(cap, 6);
            let wider = gs@.subrange(j - 1, n as int);
            assert(wider.skip(1) =~= part);
            assert(wider[0] == gs[j - 1]);
        }
        j = j - 1;
        acc = (gs[j] % 128) as u64 + 128 * acc;
    }
    proof {
        assert(gs@.subrange(0, n as int) =~= gs@);
        lemma_sum_bound(gs@);
        reveal_with_fuel(cap, 6);
    }
    let low: u64 = acc % 0x1_0000_0000;
    let value: i32 = if low < 0x8000_0000 {
        low as i32
    } else {
        (low as i64 - 0x1_0000_0000) as i32
    };
    Some(value)
}

} // verus!
