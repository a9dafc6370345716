//! The byte cursor the codec reads from: `bytes::Bytes`, with the contracts
//! the rest of the crate relies on.
//!
//! Nothing in this file is proved. Each function makes one call into the
//! `bytes` crate and states what that call does to the unread bytes.

use bytes::{Buf, Bytes};
use vstd::prelude::*;

verus! {

/// `bytes::Bytes`, known to the verifier as a type and nothing more.
#[verifier::external_type_specification]
#[verifier::external_body]
pub struct ExBytes(bytes::Bytes);

/// The bytes a `Bytes` value still holds, first unread byte first.
pub uninterp spec fn contents(b: Bytes) -> Seq<u8>;

/// The big-endian number that `digits` spell.
pub open spec fn big_endian(digits: Seq<u8>) -> nat
    decreases digits.len(),
{
    if digits.len() == 0 {
        0
    } else {
        256 * big_endian(digits.drop_last()) + digits.last() as nat
    }
}

/// `Bytes::from(Vec<u8>)`: the new cursor holds exactly the vector's bytes.
#[verifier::external_body]
pub(crate) fn from_vec(v: Vec<u8>) -> (b: Bytes)
    ensures
        contents(b) == v@,
{
    Bytes::from(v)
}

/// `Buf::remaining` on `Bytes`: the number of unread bytes.
#[verifier::external_body]
pub(crate) fn remaining(b: &Bytes) -> (n: usize)
    ensures
        n == contents(*b).len(),
{
    b.remaining()
}

/// `Buf::has_remaining` on `Bytes`: whether any byte is unread.
#[verifier::external_body]
pub(crate) fn has_remaining(b: &Bytes) -> (some: bool)
    ensures
        some == (contents(*b).len() > 0),
{
    b.has_remaining()
}

/// `Buf::advance` on `Bytes`: drops the first `cnt` unread bytes. It panics
/// when fewer are left, which the precondition excludes.
#[verifier::external_body]
pub(crate) fn advance(b: &mut Bytes, cnt: usize)
    requires
        cnt <= contents(*old(b)).len(),
    ensures
        contents(*final(b)) == contents(*old(b)).skip(cnt as int),
{
    b.advance(cnt)
}

/// `Buf::get_u8` on `Bytes`: hands out the first unread byte and steps over
/// it. It panics on an empty cursor, which the precondition excludes.
#[verifier::external_body]
pub(crate) fn get_u8(b: &mut Bytes) -> (r: u8)
    requires
        contents(*old(b)).len() >= 1,
    ensures
        r == contents(*old(b))[0],
        contents(*final(b)) == contents(*old(b)).skip(1),
{
    b.get_u8()
}

/// `Buf::get_u16` on `Bytes`: reads two bytes as a big-endian number and
/// steps over them. It panics when fewer than two are left.
#[verifier::external_body]
pub(crate) fn get_u16(b: &mut Bytes) -> (r: u16)
    requires
        contents(*old(b)).len() >= 2,
    ensures
        r as nat == big_endian(contents(*old(b)).take(2)),
        contents(*final(b)) == contents(*old(b)).skip(2),
{
    b.get_u16()
}

/// `Buf::get_u32` on `Bytes`: reads four bytes as a big-endian number and
/// steps over them. It panics when fewer than four are left.
#[verifier::external_body]
pub(crate) fn get_u32(b: &mut Bytes) -> (r: u32)
    requires
        contents(*old(b)).len() >= 4,
    ensures
        r as nat == big_endian(contents(*old(b)).take(4)),
        contents(*final(b)) == contents(*old(b)).skip(4),
{
    b.get_u32()
}

/// `Bytes::split_to`: the result holds the first `at` unread bytes and the
/// cursor keeps the rest. It panics when `at` exceeds the length.
#[verifier::external_body]
pub(crate) fn split_to(b: &mut Bytes, at: usize) -> (head: Bytes)
    requires
        at <= contents(*old(b)).len(),
    ensures
        contents(head) == contents(*old(b)).take(at as int),
        contents(*final(b)) == contents(*old(b)).skip(at as int),
{
    b.split_to(at)
}

/// `Bytes::slice` over `begin..end`: a cursor over that range of the unread
/// bytes. It panics unless `begin <= end <= len`.
#[verifier::external_body]
pub(crate) fn slice(b: &Bytes, begin: usize, end: usize) -> (part: Bytes)
    requires
        begin <= end <= contents(*b).len(),
    ensures
        contents(part) == contents(*b).subrange(begin as int, end as int),
{
    b.slice(begin..end)
}

/// `Bytes` dereferenced to a slice and copied with `to_vec`: the unread
/// bytes as a vector.
#[verifier::external_body]
pub(crate) fn to_vec(b: &Bytes) -> (v: Vec<u8>)
    ensures
        v@ == contents(*b),
{
    b.to_vec()
}

} // verus!
