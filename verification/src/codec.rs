//! Little-endian integers, and text in UTF-8.

use vstd::prelude::*;
use vstd::utf8::{decode_utf8, valid_utf8};

verus! {

/// The two bytes of `value`, lowest first.
pub open spec fn le16(value: u16) -> Seq<u8> {
    seq![(value % 256) as u8, (value / 256) as u8]
}

/// The four bytes of `value`, lowest first.
pub open spec fn le32(value: u32) -> Seq<u8> {
    seq![
        (value % 256) as u8,
        (value / 256 % 256) as u8,
        (value / 65536 % 256) as u8,
        (value / 16777216) as u8,
    ]
}

/// The number whose two bytes, lowest first, stand in `bytes` at `at`.
pub open spec fn le16_at(bytes: Seq<u8>, at: int) -> u16 {
    (bytes[at] + 256 * bytes[at + 1]) as u16
}

/// The number whose four bytes, lowest first, stand in `bytes` at `at`.
pub open spec fn le32_at(bytes: Seq<u8>, at: int) -> u32 {
    (bytes[at] + 256 * bytes[at + 1] + 65536 * bytes[at + 2] + 16777216 * bytes[at + 3]) as u32
}

/// `bytes` with the four bytes at `at` replaced by those of `value`.
pub open spec fn with_le32(bytes: Seq<u8>, at: int, value: u32) -> Seq<u8> {
    bytes.take(at) + le32(value) + bytes.skip(at + 4)
}

/// What `le32` writes, `le32_at` reads.
pub proof fn le32_is_read_back(value: u32, before: Seq<u8>, after: Seq<u8>)
    ensures
        le32_at(before + le32(value) + after, before.len() as int) == value,
{
    let all = before + le32(value) + after;
    let at = before.len() as int;
    assert(all[at] == le32(value)[0]);
    assert(all[at + 1] == le32(value)[1]);
    assert(all[at + 2] == le32(value)[2]);
    assert(all[at + 3] == le32(value)[3]);
}

/// What `le32_at` reads, `le32` writes.
pub proof fn le32_is_written_back(bytes: Seq<u8>, at: int)
    requires
        0 <= at,
        at + 4 <= bytes.len(),
    ensures
        le32(le32_at(bytes, at)) == bytes.subrange(at, at + 4),
{
    let (a, b, c, d) = (bytes[at], bytes[at + 1], bytes[at + 2], bytes[at + 3]);
    let v = le32_at(bytes, at);
    assert(v % 256 == a && v / 256 == b + 256 * c + 65536 * d);
    assert((v / 256) % 256 == b);
    assert(v / 65536 == c + 256 * d);
    assert((v / 65536) % 256 == c);
    assert(v / 16777216 == d);
    assert(le32(v) =~= bytes.subrange(at, at + 4));
}

/// The two bytes of a number add up to it, the second one counting 256ths.
pub proof fn le16_is_little_endian(value: u16)
    ensures
        le16(value).len() == 2,
        value == le16(value)[0] + 256 * le16(value)[1],
{
}

/// The four bytes of a number add up to it, each counting 256 times as much as
/// the one before it.
pub proof fn le32_is_little_endian(value: u32)
    ensures
        le32(value).len() == 4,
        value == le32(value)[0] + 256 * le32(value)[1] + 65536 * le32(value)[2] + 16777216 * le32(
            value,
        )[3],
{
    assert(value / 65536 == value / 256 / 256);
    assert(value / 16777216 == value / 65536 / 256);
}

/// What `le16` writes, `le16_at` reads.
pub proof fn le16_is_read_back(value: u16, before: Seq<u8>, after: Seq<u8>)
    ensures
        le16_at(before + le16(value) + after, before.len() as int) == value,
{
    let all = before + le16(value) + after;
    let at = before.len() as int;
    assert(all[at] == le16(value)[0]);
    assert(all[at + 1] == le16(value)[1]);
}

/// What `le16_at` reads, `le16` writes.
pub proof fn le16_is_written_back(bytes: Seq<u8>, at: int)
    requires
        0 <= at,
        at + 2 <= bytes.len(),
    ensures
        le16(le16_at(bytes, at)) == bytes.subrange(at, at + 2),
{
    assert(le16(le16_at(bytes, at)) =~= bytes.subrange(at, at + 2));
}

/// Overwriting four bytes puts the number there and leaves all else.
pub proof fn only_four_bytes_change(bytes: Seq<u8>, at: int, value: u32)
    requires
        0 <= at,
        at + 4 <= bytes.len(),
    ensures
        with_le32(bytes, at, value).len() == bytes.len(),
        with_le32(bytes, at, value).subrange(at, at + 4) == le32(value),
        le32_at(with_le32(bytes, at, value), at) == value,
        forall|i: int|
            0 <= i < at || at + 4 <= i < bytes.len() ==> #[trigger] with_le32(bytes, at, value)[i]
                == bytes[i],
{
    le32_is_read_back(value, bytes.take(at), bytes.skip(at + 4));
    assert(with_le32(bytes, at, value).subrange(at, at + 4) =~= le32(value));
}

/// Reads two bytes at `at`, lowest first.
pub fn read_le16(bytes: &[u8], at: usize) -> (value: u16)
    requires
        at + 2 <= bytes@.len(),
    ensures
        value == le16_at(bytes@, at as int),
{
    bytes[at] as u16 + 256 * (bytes[at + 1] as u16)
}

/// Reads four bytes at `at`, lowest first.
pub fn read_le32(bytes: &[u8], at: usize) -> (value: u32)
    requires
        at + 4 <= bytes@.len(),
    ensures
        value == le32_at(bytes@, at as int),
{
    bytes[at] as u32 + 256 * (bytes[at + 1] as u32) + 65536 * (bytes[at + 2] as u32) + 16777216 * (
    bytes[at + 3] as u32)
}

/// Appends the two bytes of `value`, lowest first.
pub fn push_le16(out: &mut Vec<u8>, value: u16)
    ensures
        final(out)@ == old(out)@ + le16(value),
{
    out.push((value % 256) as u8);
    out.push((value / 256) as u8);
    proof {
        assert(out@ =~= old(out)@ + le16(value));
    }
}

/// Appends the four bytes of `value`, lowest first.
pub fn push_le32(out: &mut Vec<u8>, value: u32)
    ensures
        final(out)@ == old(out)@ + le32(value),
{
    out.push((value % 256) as u8);
    out.push((value / 256 % 256) as u8);
    out.push((value / 65536 % 256) as u8);
    out.push((value / 16777216) as u8);
    proof {
        assert(out@ =~= old(out)@ + le32(value));
    }
}

/// Appends all of `bytes`.
pub fn push_bytes(out: &mut Vec<u8>, bytes: &[u8])
    ensures
        final(out)@ == old(out)@ + bytes@,
{
    out.extend_from_slice(bytes);
    proof {
        assert(out@ =~= old(out)@ + bytes@);
    }
}

/// Overwrites the four bytes at `at` with those of `value`, lowest first.
pub fn write_le32(bytes: &mut [u8], at: usize, value: u32)
    requires
        at + 4 <= old(bytes)@.len(),
    ensures
        final(bytes)@ == with_le32(old(bytes)@, at as int, value),
{
    bytes[at] = (value % 256) as u8;
    bytes[at + 1] = (value / 256 % 256) as u8;
    bytes[at + 2] = (value / 65536 % 256) as u8;
    bytes[at + 3] = (value / 16777216) as u8;
    proof {
        assert(bytes@ =~= with_le32(old(bytes)@, at as int, value));
    }
}

/// `std::str::from_utf8`, with the text copied into a `String`: text comes
/// back exactly where the bytes are valid UTF-8, and is what they encode.
#[verifier::external_body]
pub(crate) fn utf8_text(bytes: &[u8]) -> (text: Option<String>)
    ensures
        text is Some <==> valid_utf8(bytes@),
        text matches Some(t) ==> t@ == decode_utf8(bytes@),
{
    match std::str::from_utf8(bytes) {
        Ok(text) => Some(text.to_owned()),
        Err(_) => None,
    }
}

} // verus!
