//! Byte-level encodings of the header: little-endian integers, unsigned
//! LEB128 varints and gzip, each reached through the crate that implements it.
use vstd::prelude::*;
use byteorder::{ByteOrder, LittleEndian, WriteBytesExt};
use std::io::{Read, Write};

verus! {

#[verifier::external_type_specification]
#[verifier::external_body]
pub struct ExIoError(std::io::Error);

/// Little-endian bytes of a `u32`.
pub open spec fn le32(v: u32) -> Seq<u8> {
    seq![
        (v % 0x100) as u8,
        ((v / 0x100) % 0x100) as u8,
        ((v / 0x1_0000) % 0x100) as u8,
        (v / 0x100_0000) as u8,
    ]
}

/// The `u32` stored little-endian in `b[i..i + 4]`.
pub open spec fn le32_at(b: Seq<u8>, i: int) -> u32 {
    (b[i] + 0x100 * b[i + 1] + 0x1_0000 * b[i + 2] + 0x100_0000 * b[i + 3]) as u32
}

/// Unsigned LEB128 encoding of `v`: seven bits per byte, least significant
/// first, the high bit set on every byte but the last.
pub open spec fn leb128(v: nat) -> Seq<u8>
    decreases v,
{
    if v < 0x80 {
        seq![v as u8]
    } else {
        seq![(v % 0x80 + 0x80) as u8] + leb128(v / 0x80)
    }
}

/// The LEB128 encodings of all of `s`, one after the other.
pub open spec fn leb128_all(s: Seq<u64>) -> Seq<u8>
    decreases s.len(),
{
    if s.len() == 0 {
        Seq::empty()
    } else {
        leb128_all(s.drop_last()) + leb128(s.last() as nat)
    }
}

/// Reads one unsigned LEB128 number from the front of `s`, of which `k`
/// bytes of the same number were already read: the value and the count of
/// bytes it takes, or `None` where `s` ends first or the value passes 64 bits.
pub open spec fn leb128_read(s: Seq<u8>, k: nat) -> Option<(int, nat)>
    decreases 10 - k,
{
    if s.len() == 0 || k >= 10 {
        None
    } else if k == 9 && s[0] > 1 {
        None
    } else if s[0] < 0x80 {
        Some((s[0] as int, 1))
    } else {
        match leb128_read(s.drop_first(), k + 1) {
            Some((v, n)) => Some((s[0] - 0x80 + 0x80 * v, n + 1)),
            None => None,
        }
    }
}

/// Reads `n` LEB128 numbers one after the other from the front of `s`.
pub open spec fn leb128_read_many(s: Seq<u8>, n: nat) -> Option<Seq<u64>>
    decreases n,
{
    if n == 0 {
        Some(Seq::empty())
    } else {
        match leb128_read(s, 0) {
            Some((v, len)) => match leb128_read_many(s.subrange(len as int, s.len() as int), (n - 1) as nat) {
                Some(rest) => Some(seq![v as u64] + rest),
                None => None,
            },
            None => None,
        }
    }
}

/// Largest value plus one that a LEB128 number can hold when `k` of its
/// bytes were already read.
spec fn leb128_cap(k: nat) -> nat
    decreases 9 - k,
{
    if k >= 9 {
        2
    } else {
        0x80 * leb128_cap(k + 1)
    }
}

proof fn lemma_leb128_read_of(w: nat, k: nat, rest: Seq<u8>)
    requires
        k <= 9,
        w < leb128_cap(k),
    ensures
        leb128_read(leb128(w) + rest, k) == Some((w as int, leb128(w).len())),
    decreases w,
{
    let s = leb128(w) + rest;
    if w < 0x80 {
        assert(s[0] == w as u8);
    } else {
        assert(k < 9);
        assert(w / 0x80 < leb128_cap(k + 1));
        lemma_leb128_read_of(w / 0x80, k + 1, rest);
        assert(s.drop_first() == leb128(w / 0x80) + rest);
        assert(s[0] == (w % 0x80 + 0x80) as u8);
    }
}

/// One LEB128 number reads back from its encoding, whatever follows it.
pub proof fn lemma_leb128_round_trip(v: u64, rest: Seq<u8>)
    ensures
        leb128_read(leb128(v as nat) + rest, 0) == Some((v as int, leb128(v as nat).len())),
{
    reveal_with_fuel(leb128_cap, 10);
    assert(leb128_cap(0) == 0x1_0000_0000_0000_0000);
    lemma_leb128_read_of(v as nat, 0, rest);
}

proof fn lemma_leb128_all_front(s: Seq<u64>)
    requires
        s.len() > 0,
    ensures
        leb128_all(s) == leb128(s[0] as nat) + leb128_all(s.drop_first()),
    decreases s.len(),
{
    if s.len() > 1 {
        lemma_leb128_all_front(s.drop_last());
        assert(s.drop_last().drop_first() == s.drop_first().drop_last());
    } else {
        assert(s.drop_first() == Seq::<u64>::empty());
        assert(s.drop_last() == Seq::<u64>::empty());
    }
}

/// The encodings of two sequences, one after the other, encode their concatenation.
pub proof fn lemma_leb128_all_concat(a: Seq<u64>, b: Seq<u64>)
    ensures
        leb128_all(a + b) == leb128_all(a) + leb128_all(b),
    decreases b.len(),
{
    if b.len() == 0 {
        assert(a + b == a);
    } else {
        lemma_leb128_all_concat(a, b.drop_last());
        assert((a + b).drop_last() == a + b.drop_last());
    }
}

/// A sequence of numbers reads back from its LEB128 encodings, whatever follows.
pub proof fn lemma_leb128_read_many_of(s: Seq<u64>, rest: Seq<u8>)
    ensures
        leb128_read_many(leb128_all(s) + rest, s.len()) == Some(s),
    decreases s.len(),
{
    if s.len() > 0 {
        lemma_leb128_all_front(s);
        let head = leb128(s[0] as nat);
        let bytes = leb128_all(s) + rest;
        let tail = leb128_all(s.drop_first()) + rest;
        assert(bytes == head + tail);
        lemma_leb128_round_trip(s[0], tail);
        assert(bytes.subrange(head.len() as int, bytes.len() as int) == tail);
        lemma_leb128_read_many_of(s.drop_first(), rest);
        assert(seq![s[0]] + s.drop_first() == s);
    }
}

/// What gzip compression at the default level makes of `data`.
pub uninterp spec fn gzip_of(data: Seq<u8>) -> Seq<u8>;

/// What gzip decompression makes of `data`: the decompressed bytes, or
/// `None` where `data` is not a well-formed gzip stream.
pub uninterp spec fn gunzip_of(data: Seq<u8>) -> Option<Seq<u8>>;

/// Relies on byteorder's `LittleEndian::read_u32`: the first four bytes of
/// `b[pos..]` as a little-endian number.
#[verifier::external_body]
pub(crate) fn read_u32_le(b: &[u8], pos: usize) -> (r: u32)
    requires
        pos + 4 <= b@.len(),
    ensures
        r == le32_at(b@, pos as int),
{
    LittleEndian::read_u32(&b[pos..])
}

/// Relies on byteorder's `WriteBytesExt::write_u32::<LittleEndian>`: the
/// four little-endian bytes of `v` are appended; writing into a `Vec` does
/// not fail.
#[verifier::external_body]
pub(crate) fn write_u32_le(out: &mut Vec<u8>, v: u32) -> (r: Result<(), std::io::Error>)
    ensures
        r is Ok,
        final(out)@ == old(out)@ + le32(v),
{
    out.write_u32::<LittleEndian>(v)
}

/// Relies on `leb128::write::unsigned`: the LEB128 encoding of `v` is
/// appended; writing into a `Vec` does not fail.
#[verifier::external_body]
pub(crate) fn write_leb128(out: &mut Vec<u8>, v: u64) -> (r: Result<usize, std::io::Error>)
    ensures
        r is Ok,
        final(out)@ == old(out)@ + leb128(v as nat),
{
    leb128::write::unsigned(out, v)
}

/// Relies on `leb128::read::unsigned`: reads one number from the front of
/// `b[pos..]`; gives the value and the count of bytes left after it, or
/// `None` where the input ends first or the value passes 64 bits.
#[verifier::external_body]
pub(crate) fn read_leb128(b: &[u8], pos: usize) -> (r: Option<(u64, usize)>)
    requires
        pos <= b@.len(),
    ensures
        match leb128_read(b@.subrange(pos as int, b@.len() as int), 0) {
            Some((v, n)) => r == Some((v as u64, (b@.len() - pos - n) as usize)),
            None => r is None,
        },
{
    let mut rest = &b[pos..];
    match leb128::read::unsigned(&mut rest) {
        Ok(v) => Some((v, rest.len())),
        Err(_) => None,
    }
}

/// Relies on flate2's `GzEncoder` at `Compression::default()`, writing into
/// a `Vec`, which does not fail: the gzip stream of `data`, which
/// decompresses to `data`.
#[verifier::external_body]
pub(crate) fn gzip(data: &[u8]) -> (r: Result<Vec<u8>, std::io::Error>)
    ensures
        r is Ok,
        r->Ok_0@ == gzip_of(data@),
        gunzip_of(r->Ok_0@) == Some(data@),
{
    let mut enc = flate2::write::GzEncoder::new(Vec::new(), flate2::Compression::default());
    enc.write_all(data)?;
    enc.finish()
}

/// Relies on flate2's `bufread::GzDecoder`, read to the end: the
/// decompressed bytes of `data`, or an error where `data` is not a
/// well-formed gzip stream.
#[verifier::external_body]
pub(crate) fn gunzip(data: &[u8]) -> (r: Result<Vec<u8>, std::io::Error>)
    ensures
        r is Ok <==> gunzip_of(data@) is Some,
        r is Ok ==> r->Ok_0@ == gunzip_of(data@)->Some_0,
{
    let mut out = Vec::new();
    flate2::bufread::GzDecoder::new(data).read_to_end(&mut out)?;
    Ok(out)
}

} // verus!
