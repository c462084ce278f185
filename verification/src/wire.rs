//! How plain values are laid out as bytes.
//!
//! Integers are little-endian and of fixed width. Byte strings and texts carry
//! their length in bytes in front, as eight bytes. Nothing is aligned or
//! padded, and readers leave whatever follows a value alone.

use vstd::prelude::*;
use vstd::slice::slice_subrange;
use vstd::utf8::{decode_utf8, encode_utf8, valid_utf8};

use crate::error::TransferError;

verus! {

/// The failure that `bincode` reports.
#[verifier::external_type_specification]
#[verifier::external_body]
pub struct ExBincodeErrorKind(bincode::ErrorKind);

/// The low `n` bytes of `x`, least significant first.
pub open spec fn le_bytes(x: nat, n: nat) -> Seq<u8>
    decreases n,
{
    if n == 0 {
        Seq::empty()
    } else {
        seq![(x % 256) as u8] + le_bytes(x / 256, (n - 1) as nat)
    }
}

/// The number whose bytes, least significant first, are `s`.
pub open spec fn le_value(s: Seq<u8>) -> nat
    decreases s.len(),
{
    if s.len() == 0 {
        0
    } else {
        s[0] as nat + 256 * le_value(s.drop_first())
    }
}

/// `256` to the power of `n`.
pub open spec fn pow256(n: nat) -> nat
    decreases n,
{
    if n == 0 {
        1
    } else {
        256 * pow256((n - 1) as nat)
    }
}

/// A byte string with its length in front.
pub open spec fn prefixed(s: Seq<u8>) -> Seq<u8> {
    le_bytes(s.len(), 8) + s
}

/// A text, as its UTF-8 bytes with their number in front.
pub open spec fn prefixed_text(s: Seq<char>) -> Seq<u8> {
    prefixed(encode_utf8(s))
}

/// Splits `n` bytes off the front.
pub open spec fn take_raw(s: Seq<u8>, n: nat) -> Option<(Seq<u8>, Seq<u8>)> {
    if s.len() >= n {
        Some((s.take(n as int), s.skip(n as int)))
    } else {
        None
    }
}

/// Splits a four-byte integer off the front.
pub open spec fn take_u32(s: Seq<u8>) -> Option<(u32, Seq<u8>)> {
    match take_raw(s, 4) {
        Some((front, rest)) => Some((le_value(front) as u32, rest)),
        None => None,
    }
}

/// Splits an eight-byte integer off the front.
pub open spec fn take_u64(s: Seq<u8>) -> Option<(u64, Seq<u8>)> {
    match take_raw(s, 8) {
        Some((front, rest)) => Some((le_value(front) as u64, rest)),
        None => None,
    }
}

/// Splits a byte string with its length off the front.
pub open spec fn take_prefixed(s: Seq<u8>) -> Option<(Seq<u8>, Seq<u8>)> {
    match take_u64(s) {
        Some((n, rest)) => take_raw(rest, n as nat),
        None => None,
    }
}

/// Splits a text with its length off the front. The bytes must be UTF-8.
pub open spec fn take_text(s: Seq<u8>) -> Option<(Seq<char>, Seq<u8>)> {
    match take_prefixed(s) {
        Some((bytes, rest)) => if valid_utf8(bytes) {
            Some((decode_utf8(bytes), rest))
        } else {
            None
        },
        None => None,
    }
}

/// `le_bytes` gives as many bytes as asked for.
pub proof fn lemma_le_bytes_len(x: nat, n: nat)
    ensures
        le_bytes(x, n).len() == n,
    decreases n,
{
    if n > 0 {
        lemma_le_bytes_len(x / 256, (n - 1) as nat);
    }
}

/// Reading the bytes of a number gives the number back.
pub proof fn lemma_le_bytes_value(x: nat, n: nat)
    requires
        x < pow256(n),
    ensures
        le_value(le_bytes(x, n)) == x,
    decreases n,
{
    if n > 0 {
        let rest = le_bytes(x / 256, (n - 1) as nat);
        assert(x / 256 < pow256((n - 1) as nat));
        lemma_le_bytes_value(x / 256, (n - 1) as nat);
        assert(le_bytes(x, n).drop_first() =~= rest);
    }
}

/// Writing the number that some bytes stand for gives the bytes back.
pub proof fn lemma_le_value_bytes(s: Seq<u8>)
    ensures
        le_bytes(le_value(s), s.len()) == s,
        le_value(s) < pow256(s.len()),
    decreases s.len(),
{
    if s.len() > 0 {
        let tail = s.drop_first();
        lemma_le_value_bytes(tail);
        let v = le_value(s);
        assert(v % 256 == s[0] as nat && v / 256 == le_value(tail));
        assert(seq![s[0]] + tail =~= s);
    }
}

/// The bounds of the four- and eight-byte integers.
pub proof fn lemma_pow256_bounds()
    ensures
        pow256(4) == 0x1_0000_0000,
        pow256(8) == 0x1_0000_0000_0000_0000,
{
    reveal_with_fuel(pow256, 9);
}

/// The bytes of an integer are its digits to the base of 256, least significant
/// first.
pub proof fn law_integers_are_little_endian(x: u64, y: u32)
    ensures
        ({
            let b = le_bytes(x as nat, 8);
            let c = le_bytes(y as nat, 4);
            &&& b.len() == 8
            &&& x == b[0] + 0x100 * b[1] + 0x1_0000 * b[2] + 0x100_0000 * b[3] + 0x1_0000_0000
                * b[4] + 0x100_0000_0000 * b[5] + 0x1_0000_0000_0000 * b[6]
                + 0x100_0000_0000_0000 * b[7]
            &&& c.len() == 4
            &&& y == c[0] + 0x100 * c[1] + 0x1_0000 * c[2] + 0x100_0000 * c[3]
            &&& le_value(b) == x
            &&& le_value(c) == y
        }),
{
    lemma_pow256_bounds();
    lemma_le_bytes_len(x as nat, 8);
    lemma_le_bytes_value(x as nat, 8);
    lemma_le_bytes_len(y as nat, 4);
    lemma_le_bytes_value(y as nat, 4);
    lemma_eight_digits(le_bytes(x as nat, 8));
    lemma_four_digits(le_bytes(y as nat, 4));
}

/// The value of four bytes.
proof fn lemma_four_digits(s: Seq<u8>)
    requires
        s.len() == 4,
    ensures
        le_value(s) == s[0] + 0x100 * s[1] + 0x1_0000 * s[2] + 0x100_0000 * s[3],
{
    let s1 = s.drop_first();
    let s2 = s1.drop_first();
    let s3 = s2.drop_first();
    let s4 = s3.drop_first();
    assert(le_value(s4) == 0);
    assert(le_value(s3) == s[3]);
    assert(le_value(s2) == s[2] + 256 * le_value(s3));
    assert(le_value(s1) == s[1] + 256 * le_value(s2));
    assert(le_value(s) == s[0] + 256 * le_value(s1));
}

/// The value of eight bytes.
proof fn lemma_eight_digits(s: Seq<u8>)
    requires
        s.len() == 8,
    ensures
        le_value(s) == s[0] + 0x100 * s[1] + 0x1_0000 * s[2] + 0x100_0000 * s[3] + 0x1_0000_0000
            * s[4] + 0x100_0000_0000 * s[5] + 0x1_0000_0000_0000 * s[6] + 0x100_0000_0000_0000
            * s[7],
{
    let s1 = s.drop_first();
    let s2 = s1.drop_first();
    let s3 = s2.drop_first();
    let s4 = s3.drop_first();
    lemma_four_digits(s4);
    assert(s4[0] == s[4] && s4[1] == s[5] && s4[2] == s[6] && s4[3] == s[7]);
    assert(le_value(s3) == s[3] + 256 * le_value(s4));
    assert(le_value(s2) == s[2] + 256 * le_value(s3));
    assert(le_value(s1) == s[1] + 256 * le_value(s2));
    assert(le_value(s) == s[0] + 256 * le_value(s1));
}

/// A character takes at most four bytes.
pub proof fn lemma_utf8_len(text: Seq<char>)
    ensures
        encode_utf8(text).len() <= 4 * text.len(),
    decreases text.len(),
{
    if text.len() > 0 {
        lemma_utf8_len(text.drop_first());
    }
}

/// Bytes that were put in front are the ones that are split off.
pub proof fn lemma_take_raw(front: Seq<u8>, rest: Seq<u8>)
    ensures
        take_raw(front + rest, front.len()) == Some((front, rest)),
{
    assert((front + rest).take(front.len() as int) =~= front);
    assert((front + rest).skip(front.len() as int) =~= rest);
}

/// Splitting bytes off and putting them back in front changes nothing.
pub proof fn lemma_raw_taken(s: Seq<u8>, n: nat)
    ensures
        take_raw(s, n) matches Some((front, rest)) ==> front.len() == n && front + rest == s,
{
    if s.len() >= n {
        assert(s.take(n as int) + s.skip(n as int) =~= s);
    }
}

/// A four-byte integer that was put in front is the one that is split off.
pub proof fn lemma_take_u32(x: u32, rest: Seq<u8>)
    ensures
        take_u32(le_bytes(x as nat, 4) + rest) == Some((x, rest)),
        le_bytes(x as nat, 4).len() == 4,
{
    lemma_pow256_bounds();
    lemma_le_bytes_len(x as nat, 4);
    lemma_le_bytes_value(x as nat, 4);
    lemma_take_raw(le_bytes(x as nat, 4), rest);
}

/// An eight-byte integer that was put in front is the one that is split off.
pub proof fn lemma_take_u64(x: u64, rest: Seq<u8>)
    ensures
        take_u64(le_bytes(x as nat, 8) + rest) == Some((x, rest)),
        le_bytes(x as nat, 8).len() == 8,
{
    lemma_pow256_bounds();
    lemma_le_bytes_len(x as nat, 8);
    lemma_le_bytes_value(x as nat, 8);
    lemma_take_raw(le_bytes(x as nat, 8), rest);
}

/// A byte string that was put in front is the one that is split off.
pub proof fn lemma_take_prefixed(data: Seq<u8>, rest: Seq<u8>)
    requires
        data.len() <= u64::MAX,
    ensures
        take_prefixed(prefixed(data) + rest) == Some((data, rest)),
        prefixed(data).len() == 8 + data.len(),
{
    lemma_take_u64(data.len() as u64, data + rest);
    assert(prefixed(data) + rest =~= le_bytes(data.len(), 8) + (data + rest));
    lemma_take_raw(data, rest);
}

/// A text that was put in front is the one that is split off.
pub proof fn lemma_take_text(text: Seq<char>, rest: Seq<u8>)
    requires
        encode_utf8(text).len() <= u64::MAX,
    ensures
        take_text(prefixed_text(text) + rest) == Some((text, rest)),
        prefixed_text(text).len() == 8 + encode_utf8(text).len(),
{
    lemma_take_prefixed(encode_utf8(text), rest);
    vstd::utf8::encode_utf8_valid_utf8(text);
    vstd::utf8::encode_utf8_decode_utf8(text);
}

/// Only the bytes of an integer have it split off their front.
pub proof fn lemma_u32_taken(s: Seq<u8>)
    ensures
        take_u32(s) matches Some((x, rest)) ==> le_bytes(x as nat, 4) + rest == s,
{
    lemma_raw_taken(s, 4);
    if s.len() >= 4 {
        lemma_pow256_bounds();
        lemma_le_value_bytes(s.take(4));
    }
}

/// Only the bytes of an integer have it split off their front.
pub proof fn lemma_u64_taken(s: Seq<u8>)
    ensures
        take_u64(s) matches Some((x, rest)) ==> le_bytes(x as nat, 8) + rest == s,
{
    lemma_raw_taken(s, 8);
    if s.len() >= 8 {
        lemma_pow256_bounds();
        lemma_le_value_bytes(s.take(8));
    }
}

/// Only the bytes of a byte string have it split off their front.
pub proof fn lemma_prefixed_taken(s: Seq<u8>)
    ensures
        take_prefixed(s) matches Some((data, rest)) ==> prefixed(data) + rest == s,
{
    lemma_u64_taken(s);
    if let Some((n, after)) = take_u64(s) {
        lemma_raw_taken(after, n as nat);
        if let Some((data, rest)) = take_raw(after, n as nat) {
            assert(prefixed(data) + rest =~= le_bytes(n as nat, 8) + (data + rest));
        }
    }
}

/// Only the bytes of a text have it split off their front.
pub proof fn lemma_text_taken(s: Seq<u8>)
    ensures
        take_text(s) matches Some((text, rest)) ==> prefixed_text(text) + rest == s,
{
    lemma_prefixed_taken(s);
    if let Some((bytes, rest)) = take_prefixed(s) {
        if valid_utf8(bytes) {
            vstd::utf8::decode_utf8_encode_utf8(bytes);
        }
    }
}

/// `bincode::serialize` of a `u32`: its four bytes, least significant first.
/// It does not fail.
#[verifier::external_body]
fn bincode_u32(x: u32) -> (r: Result<Vec<u8>, bincode::Error>)
    ensures
        r is Ok,
        r->Ok_0@ == le_bytes(x as nat, 4),
{
    bincode::serialize(&x)
}

/// `bincode::serialize` of a `u64`: its eight bytes, least significant first.
/// It does not fail.
#[verifier::external_body]
fn bincode_u64(x: u64) -> (r: Result<Vec<u8>, bincode::Error>)
    ensures
        r is Ok,
        r->Ok_0@ == le_bytes(x as nat, 8),
{
    bincode::serialize(&x)
}

/// `bincode::serialize` of a slice of bytes: their number as eight bytes, then
/// the bytes. It does not fail, and its result must be of a size that can be
/// allocated.
#[verifier::external_body]
fn bincode_bytes(data: &[u8]) -> (r: Result<Vec<u8>, bincode::Error>)
    requires
        data@.len() + 8 <= isize::MAX,
    ensures
        r is Ok,
        r->Ok_0@ == prefixed(data@),
{
    bincode::serialize(data)
}

/// `bincode::serialize` of a text: the number of its UTF-8 bytes as eight
/// bytes, then those bytes. It does not fail, and its result must be of a size
/// that can be allocated.
#[verifier::external_body]
fn bincode_text(text: &str) -> (r: Result<Vec<u8>, bincode::Error>)
    requires
        encode_utf8(text@).len() + 8 <= isize::MAX,
    ensures
        r is Ok,
        r->Ok_0@ == prefixed_text(text@),
{
    bincode::serialize(text)
}

/// `bincode::serialize` of an array of 32 bytes: the bytes as they are, with
/// no length. It does not fail.
#[verifier::external_body]
fn bincode_digest(digest: &[u8; 32]) -> (r: Result<Vec<u8>, bincode::Error>)
    ensures
        r is Ok,
        r->Ok_0@ == digest@,
{
    bincode::serialize(digest)
}

/// `bincode::deserialize` to a `u32`: reads the first four bytes, least
/// significant first, and ignores the rest. Fewer bytes are an error.
#[verifier::external_body]
fn bincode_read_u32(s: &[u8]) -> (r: Result<u32, bincode::Error>)
    ensures
        match take_u32(s@) {
            Some((x, _)) => r matches Ok(v) && v == x,
            None => r is Err,
        },
{
    bincode::deserialize(s)
}

/// `bincode::deserialize` to a `u64`: reads the first eight bytes, least
/// significant first, and ignores the rest. Fewer bytes are an error.
#[verifier::external_body]
fn bincode_read_u64(s: &[u8]) -> (r: Result<u64, bincode::Error>)
    ensures
        match take_u64(s@) {
            Some((x, _)) => r matches Ok(v) && v == x,
            None => r is Err,
        },
{
    bincode::deserialize(s)
}

/// `bincode::deserialize` to a `Vec<u8>`: reads a length of eight bytes and
/// then that many bytes, and ignores the rest. Fewer bytes are an error.
#[verifier::external_body]
fn bincode_read_bytes(s: &[u8]) -> (r: Result<Vec<u8>, bincode::Error>)
    ensures
        match take_prefixed(s@) {
            Some((data, _)) => r matches Ok(v) && v@ == data,
            None => r is Err,
        },
{
    bincode::deserialize(s)
}

/// `bincode::deserialize` to a `String`: reads a length of eight bytes and
/// then that many bytes of UTF-8, and ignores the rest. Fewer bytes, and bytes
/// that are not UTF-8, are an error.
#[verifier::external_body]
fn bincode_read_text(s: &[u8]) -> (r: Result<String, bincode::Error>)
    ensures
        match take_text(s@) {
            Some((text, _)) => r matches Ok(v) && v@ == text,
            None => r is Err,
        },
{
    bincode::deserialize(s)
}

/// `bincode::deserialize` to an array of 32 bytes: reads the first 32 bytes
/// and ignores the rest. Fewer bytes are an error.
#[verifier::external_body]
fn bincode_read_digest(s: &[u8]) -> (r: Result<[u8; 32], bincode::Error>)
    ensures
        match take_raw(s@, 32) {
            Some((digest, _)) => r matches Ok(v) && v@ == digest,
            None => r is Err,
        },
{
    bincode::deserialize(s)
}

/// `more` was appended, unless the whole would be too large to allocate.
pub open spec fn appended(
    before: Seq<u8>,
    after: Seq<u8>,
    more: Seq<u8>,
    r: Result<(), TransferError>,
) -> bool {
    &&& r is Ok <==> before.len() + more.len() <= isize::MAX
    &&& r is Ok ==> after == before + more
    &&& r matches Err(e) ==> e is Serialize
}

/// Appends what was serialised.
fn put_all(out: &mut Vec<u8>, more: Result<Vec<u8>, bincode::Error>) -> (r: Result<(), TransferError>)
    requires
        more is Ok,
        old(out)@.len() <= isize::MAX,
    ensures
        appended(old(out)@, final(out)@, more->Ok_0@, r),
{
    match more {
        Ok(bytes) => {
            if bytes.len() > isize::MAX as usize - out.len() {
                return Err(TransferError::Serialize);
            }
            out.extend_from_slice(bytes.as_slice());
            assert(out@ =~= old(out)@ + bytes@);
            Ok(())
        },
        Err(_) => Err(TransferError::Serialize),
    }
}

/// Appends a four-byte integer.
pub fn put_u32(out: &mut Vec<u8>, x: u32) -> (r: Result<(), TransferError>)
    requires
        old(out)@.len() <= isize::MAX,
    ensures
        appended(old(out)@, final(out)@, le_bytes(x as nat, 4), r),
{
    put_all(out, bincode_u32(x))
}

/// Appends an eight-byte integer.
pub fn put_u64(out: &mut Vec<u8>, x: u64) -> (r: Result<(), TransferError>)
    requires
        old(out)@.len() <= isize::MAX,
    ensures
        appended(old(out)@, final(out)@, le_bytes(x as nat, 8), r),
{
    put_all(out, bincode_u64(x))
}

/// Appends a byte string with its length in front.
pub fn put_bytes(out: &mut Vec<u8>, data: &[u8]) -> (r: Result<(), TransferError>)
    requires
        old(out)@.len() <= isize::MAX,
    ensures
        appended(old(out)@, final(out)@, prefixed(data@), r),
{
    proof {
        lemma_le_bytes_len(data@.len(), 8);
    }
    if data.len() > isize::MAX as usize - 8 {
        return Err(TransferError::Serialize);
    }
    put_all(out, bincode_bytes(data))
}

/// Appends a text with its length in front.
pub fn put_text(out: &mut Vec<u8>, text: &str) -> (r: Result<(), TransferError>)
    requires
        old(out)@.len() <= isize::MAX,
    ensures
        appended(old(out)@, final(out)@, prefixed_text(text@), r),
{
    proof {
        lemma_le_bytes_len(encode_utf8(text@).len(), 8);
    }
    if text.as_bytes().len() > isize::MAX as usize - 8 {
        return Err(TransferError::Serialize);
    }
    put_all(out, bincode_text(text))
}

/// Appends 32 bytes as they are.
pub fn put_digest(out: &mut Vec<u8>, digest: &[u8; 32]) -> (r: Result<(), TransferError>)
    requires
        old(out)@.len() <= isize::MAX,
    ensures
        appended(old(out)@, final(out)@, digest@, r),
{
    put_all(out, bincode_digest(digest))
}

/// Splits a four-byte integer off the front.
pub fn get_u32<'a>(s: &'a [u8]) -> (r: Result<(u32, &'a [u8]), TransferError>)
    ensures
        match take_u32(s@) {
            Some((x, rest)) => r matches Ok(p) && p.0 == x && p.1@ == rest,
            None => r matches Err(e) && e is Deserialize,
        },
{
    match bincode_read_u32(s) {
        Ok(x) => Ok((x, slice_subrange(s, 4, s.len()))),
        Err(_) => Err(TransferError::Deserialize),
    }
}

/// Splits an eight-byte integer off the front.
pub fn get_u64<'a>(s: &'a [u8]) -> (r: Result<(u64, &'a [u8]), TransferError>)
    ensures
        match take_u64(s@) {
            Some((x, rest)) => r matches Ok(p) && p.0 == x && p.1@ == rest,
            None => r matches Err(e) && e is Deserialize,
        },
{
    match bincode_read_u64(s) {
        Ok(x) => Ok((x, slice_subrange(s, 8, s.len()))),
        Err(_) => Err(TransferError::Deserialize),
    }
}

/// Splits a byte string with its length off the front.
pub fn get_bytes<'a>(s: &'a [u8]) -> (r: Result<(Vec<u8>, &'a [u8]), TransferError>)
    ensures
        match take_prefixed(s@) {
            Some((data, rest)) => r matches Ok(p) && p.0@ == data && p.1@ == rest,
            None => r matches Err(e) && e is Deserialize,
        },
{
    match bincode_read_bytes(s) {
        Ok(data) => {
            let size: usize = s.len();
            let end: usize = 8 + data.len();
            assert(s@.skip(8).skip(data@.len() as int) =~= s@.skip(end as int));
            Ok((data, slice_subrange(s, end, size)))
        },
        Err(_) => Err(TransferError::Deserialize),
    }
}

/// Splits a text with its length off the front.
pub fn get_text<'a>(s: &'a [u8]) -> (r: Result<(String, &'a [u8]), TransferError>)
    ensures
        match take_text(s@) {
            Some((text, rest)) => r matches Ok(p) && p.0@ == text && p.1@ == rest,
            None => r matches Err(e) && e is Deserialize,
        },
{
    match bincode_read_text(s) {
        Ok(text) => {
            proof {
                let (bytes, _) = take_prefixed(s@)->Some_0;
                vstd::utf8::decode_utf8_encode_utf8(bytes);
            }
            let size: usize = s.len();
            let end: usize = 8 + text.as_str().as_bytes().len();
            assert(s@.skip(8).skip(end - 8) =~= s@.skip(end as int));
            Ok((text, slice_subrange(s, end, size)))
        },
        Err(_) => Err(TransferError::Deserialize),
    }
}

/// Splits 32 bytes off the front.
pub fn get_digest<'a>(s: &'a [u8]) -> (r: Result<([u8; 32], &'a [u8]), TransferError>)
    ensures
        match take_raw(s@, 32) {
            Some((digest, rest)) => r matches Ok(p) && p.0@ == digest && p.1@ == rest,
            None => r matches Err(e) && e is Deserialize,
        },
{
    match bincode_read_digest(s) {
        Ok(digest) => Ok((digest, slice_subrange(s, 32, s.len()))),
        Err(_) => Err(TransferError::Deserialize),
    }
}

} // verus!
