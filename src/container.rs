//! The container: header layout, lookup table, header writer and reader,
//! and range queries over the table.
use vstd::prelude::*;
use vstd::arithmetic::div_mod::lemma_add_mod_noop;
use crate::codec::{
    gunzip, gunzip_of, gzip, gzip_of, le32, le32_at, leb128, leb128_all, leb128_read,
    leb128_read_many, read_leb128, read_u32_le, write_leb128, write_u32_le,
};
use crate::codec::{lemma_leb128_all_concat, lemma_leb128_read_many_of};
use crate::delta::{delta_decode, delta_decoded, delta_encode, delta_encoded, lemma_delta_round_trip};

verus! {

/// The only header version.
pub const VERSION: u8 = 1;

/// The four magic bytes, "SCOC".
pub open spec fn magic() -> Seq<u8> {
    seq![0x53u8, 0x43u8, 0x4Fu8, 0x43u8]
}

/// Reduction of an integer into `u32`, as a truncating cast does.
pub open spec fn wrap32(v: int) -> u32 {
    (v % 0x1_0000_0000) as u32
}

/// The uncompressed lookup table: the chunk ids, then the end positions,
/// each delta-encoded with bias 1 and written as LEB128 numbers.
pub open spec fn table_bytes(chunk_ids: Seq<u64>, end_positions: Seq<u64>) -> Seq<u8> {
    leb128_all(delta_encoded(chunk_ids, 1)) + leb128_all(delta_encoded(end_positions, 1))
}

/// A whole header: magic, total length, version, chunk count, length of the
/// compressed table, the compressed table and the user data. The length
/// fields are `u32` and keep the low 32 bits of what they count.
pub open spec fn header_bytes(num_chunks: u32, table: Seq<u8>, user_data: Seq<u8>) -> Seq<u8> {
    magic() + le32(wrap32(17 + table.len() as int + user_data.len() as int)) + seq![1u8] + le32(num_chunks)
        + le32(wrap32(table.len() as int)) + table + user_data
}

/// Every value is at most every later one.
pub open spec fn non_decreasing(s: Seq<u64>) -> bool {
    forall|i: int, j: int| 0 <= i <= j < s.len() ==> s[i] <= s[j]
}

/// Every value is below every later one.
pub open spec fn strictly_increasing(s: Seq<u64>) -> bool {
    forall|i: int, j: int| 0 <= i < j < s.len() ==> s[i] < s[j]
}

/// The in-memory lookup table: chunk ids and cumulative end positions of the
/// chunk bodies, in parallel.
pub struct LookupTable {
    /// Ids of the chunks, non-decreasing.
    pub chunk_ids: Vec<u64>,
    /// End of each chunk body, counted from the start of the body section.
    pub end_positions: Vec<u64>,
}

impl LookupTable {
    /// Equal lengths, ids non-decreasing, end positions strictly increasing.
    pub open spec fn wf(&self) -> bool {
        &&& self.chunk_ids@.len() == self.end_positions@.len()
        &&& non_decreasing(self.chunk_ids@)
        &&& strictly_increasing(self.end_positions@)
    }
}

/// Why a header was rejected as invalid.
#[derive(Debug, PartialEq, Eq, Structural, Clone, Copy)]
pub enum HeaderProblem {
    /// The first four bytes are not "SCOC".
    BadMagic,
    /// The version byte is not 1.
    UnsupportedVersion(u8),
    /// The declared header length leaves no room for the declared table.
    TableOverrun,
}

/// Failures of writing or reading a header.
#[derive(Debug)]
pub enum ScoaError {
    /// The underlying sink or source failed.
    Io(std::io::Error),
    /// Wrong magic, unsupported version or inconsistent lengths.
    InvalidHeader(HeaderProblem),
    /// Fewer bytes than the header needs.
    InsufficientHeader,
    /// The compressed table cannot be decompressed or decoded into a valid table.
    DecodeError,
}

proof fn lemma_leb128_all_push(s: Seq<u64>, i: int)
    requires
        0 <= i < s.len(),
    ensures
        leb128_all(s.subrange(0, i + 1)) == leb128_all(s.subrange(0, i)) + leb128(s[i] as nat),
{
    assert(s.subrange(0, i + 1).drop_last() == s.subrange(0, i));
}

/// Appends the LEB128 encodings of all of `s` to `out`.
fn write_leb128_all(out: &mut Vec<u8>, s: &Vec<u64>) -> (r: Result<(), std::io::Error>)
    ensures
        r is Ok,
        final(out)@ == old(out)@ + leb128_all(s@),
{
    let ghost start = out@;
    let mut i: usize = 0;
    while i < s.len()
        invariant
            i <= s@.len(),
            out@ == start + leb128_all(s@.subrange(0, i as int)),
        decreases s@.len() - i,
    {
        match write_leb128(out, s[i]) {
            Ok(_) => {},
            Err(e) => {
                return Err(e);
            },
        }
        proof {
            lemma_leb128_all_push(s@, i as int);
        }
        i = i + 1;
    }
    assert(s@.subrange(0, s@.len() as int) == s@);
    Ok(())
}

/// Compresses a lookup table: both columns delta-encoded with bias 1, as
/// LEB128 numbers (all ids, then all end positions), gzip-compressed.
pub fn compress_lookup_table(chunk_ids: &[u64], end_positions: &[u64]) -> (r: Result<
    Vec<u8>,
    std::io::Error,
>)
    ensures
        r is Ok,
        r->Ok_0@ == gzip_of(table_bytes(chunk_ids@, end_positions@)),
        gunzip_of(r->Ok_0@) == Some(table_bytes(chunk_ids@, end_positions@)),
{
    let ids = delta_encode(chunk_ids, 1);
    let ends = delta_encode(end_positions, 1);
    let mut bin: Vec<u8> = Vec::new();
    match write_leb128_all(&mut bin, &ids) {
        Ok(()) => {},
        Err(e) => {
            return Err(e);
        },
    }
    match write_leb128_all(&mut bin, &ends) {
        Ok(()) => {},
        Err(e) => {
            return Err(e);
        },
    }
    assert(bin@ == table_bytes(chunk_ids@, end_positions@));
    gzip(bin.as_slice())
}

proof fn lemma_header_length(t: int, u: int)
    requires
        t >= 0,
        u >= 0,
    ensures
        (17 + (t % 0x1_0000_0000) + (u % 0x1_0000_0000)) % 0x1_0000_0000 == wrap32(17 + t + u),
        t % 0x1_0000_0000 == wrap32(t),
{
    let m: int = 0x1_0000_0000;
    lemma_add_mod_noop(17 + t, u, m);
    lemma_add_mod_noop(17, t, m);
    vstd::arithmetic::div_mod::lemma_mod_twice(t, m);
    vstd::arithmetic::div_mod::lemma_mod_twice(u, m);
    lemma_add_mod_noop(17 + t % m, u, m);
    vstd::arithmetic::div_mod::lemma_small_mod(17, m as nat);
}

/// Writes the header of a container with the given table and user data to
/// `writer`; the chunk bodies follow it. The table is taken as given.
pub fn write_header(
    writer: &mut Vec<u8>,
    num_chunks: u32,
    chunk_ids: Vec<u64>,
    end_positions: Vec<u64>,
    user_data: Vec<u8>,
) -> (r: Result<(), std::io::Error>)
    ensures
        r is Ok,
        final(writer)@ == old(writer)@ + header_bytes(
            num_chunks,
            gzip_of(table_bytes(chunk_ids@, end_positions@)),
            user_data@,
        ),
        gunzip_of(gzip_of(table_bytes(chunk_ids@, end_positions@))) == Some(
            table_bytes(chunk_ids@, end_positions@),
        ),
{
    let mut table = match compress_lookup_table(chunk_ids.as_slice(), end_positions.as_slice()) {
        Ok(t) => t,
        Err(e) => {
            return Err(e);
        },
    };
    let mut user_data = user_data;
    let ghost t = table@;
    let ghost u = user_data@;
    let ghost start = writer@;
    let m: u64 = 0x1_0000_0000;
    let tlen = (table.len() as u64 % m) as u32;
    let ulen = user_data.len() as u64 % m;
    let header_length = ((17 + tlen as u64 + ulen) % m) as u32;
    proof {
        lemma_header_length(t.len() as int, u.len() as int);
    }
    writer.push(0x53);
    writer.push(0x43);
    writer.push(0x4F);
    writer.push(0x43);
    match write_u32_le(writer, header_length) {
        Ok(()) => {},
        Err(e) => {
            return Err(e);
        },
    }
    writer.push(1);
    match write_u32_le(writer, num_chunks) {
        Ok(()) => {},
        Err(e) => {
            return Err(e);
        },
    }
    match write_u32_le(writer, tlen) {
        Ok(()) => {},
        Err(e) => {
            return Err(e);
        },
    }
    writer.append(&mut table);
    writer.append(&mut user_data);
    assert(writer@ == start + header_bytes(num_chunks, t, u));
    Ok(())
}

/// A table decoded from a header is accepted when its columns have equal
/// lengths, its ids do not decrease, its end positions increase strictly,
/// and every body offset, counted from the start of the container, fits in
/// `usize`.
pub open spec fn table_valid(chunk_ids: Seq<u64>, end_positions: Seq<u64>, header_length: u32) -> bool {
    &&& chunk_ids.len() == end_positions.len()
    &&& non_decreasing(chunk_ids)
    &&& strictly_increasing(end_positions)
    &&& end_positions.len() > 0 ==> header_length + end_positions.last() <= usize::MAX
}

/// The table held by the decompressed bytes `raw` of a header declaring
/// `num_chunks` chunks, where it decodes and is valid.
pub open spec fn decoded_table(raw: Seq<u8>, num_chunks: u32, header_length: u32) -> Option<
    (Seq<u64>, Seq<u64>),
> {
    match leb128_read_many(raw, 2 * num_chunks as nat) {
        Some(vals) => {
            let ids = delta_decoded(vals.subrange(0, num_chunks as int), 1);
            let ends = delta_decoded(vals.subrange(num_chunks as int, 2 * num_chunks as int), 1);
            if table_valid(ids, ends, header_length) {
                Some((ids, ends))
            } else {
                None
            }
        },
        None => None,
    }
}

/// The uncompressed table bytes that the writer lays out for a valid table
/// decode back to that table: header write and parse agree on the table
/// wherever decompression gives back what compression was handed.
pub proof fn lemma_table_round_trip(chunk_ids: Seq<u64>, end_positions: Seq<u64>, header_length: u32)
    requires
        table_valid(chunk_ids, end_positions, header_length),
        chunk_ids.len() <= u32::MAX,
    ensures
        decoded_table(table_bytes(chunk_ids, end_positions), chunk_ids.len() as u32, header_length)
            == Some((chunk_ids, end_positions)),
{
    let n = chunk_ids.len();
    let a = delta_encoded(chunk_ids, 1);
    let b = delta_encoded(end_positions, 1);
    lemma_leb128_all_concat(a, b);
    lemma_leb128_read_many_of(a + b, Seq::empty());
    assert(leb128_all(a + b) + Seq::<u8>::empty() == table_bytes(chunk_ids, end_positions));
    assert((a + b).subrange(0, n as int) == a);
    assert((a + b).subrange(n as int, 2 * n as int) == b);
    lemma_delta_round_trip(chunk_ids, 1);
    lemma_delta_round_trip(end_positions, 1);
}

/// The compressed table section of header `b`.
pub open spec fn table_section(b: Seq<u8>) -> Seq<u8> {
    b.subrange(17, 17 + declared_table_len(b))
}

/// The table held by header `b`: its table section decompresses and the
/// result decodes into a valid table.
pub open spec fn table_of(b: Seq<u8>) -> Option<(Seq<u64>, Seq<u64>)> {
    match gunzip_of(table_section(b)) {
        Some(raw) => decoded_table(raw, declared_chunks(b), declared_length(b)),
        None => None,
    }
}

proof fn lemma_le32_read(v: u32)
    ensures
        le32_at(le32(v), 0) == v,
{
    assert(v % 0x100 + 0x100 * ((v / 0x100) % 0x100) + 0x1_0000 * ((v / 0x1_0000) % 0x100)
        + 0x100_0000 * (v / 0x100_0000) == v) by (bit_vector);
}

/// A header laid out by the writer, followed by anything (the chunk bodies),
/// parses back: no fault, the declared lengths and count, the same table and
/// the same user data; the header length fits in its `u32` field.
pub proof fn lemma_header_round_trip(
    num_chunks: u32,
    chunk_ids: Seq<u64>,
    end_positions: Seq<u64>,
    user_data: Seq<u8>,
    rest: Seq<u8>,
)
    requires
        chunk_ids.len() == num_chunks,
        17 + gzip_of(table_bytes(chunk_ids, end_positions)).len() + user_data.len() <= u32::MAX,
        table_valid(
            chunk_ids,
            end_positions,
            (17 + gzip_of(table_bytes(chunk_ids, end_positions)).len() + user_data.len()) as u32,
        ),
        gunzip_of(gzip_of(table_bytes(chunk_ids, end_positions))) == Some(
            table_bytes(chunk_ids, end_positions),
        ),
    ensures
        ({
            let z = gzip_of(table_bytes(chunk_ids, end_positions));
            let b = header_bytes(num_chunks, z, user_data) + rest;
            &&& header_fault(b) is None
            &&& declared_length(b) == 17 + z.len() + user_data.len()
            &&& declared_chunks(b) == num_chunks
            &&& table_of(b) == Some((chunk_ids, end_positions))
            &&& b.subrange(17 + z.len() as int, declared_length(b) as int) == user_data
        }),
{
    let z = gzip_of(table_bytes(chunk_ids, end_positions));
    let hl = (17 + z.len() + user_data.len()) as u32;
    let zl = z.len() as u32;
    let b = header_bytes(num_chunks, z, user_data) + rest;
    vstd::arithmetic::div_mod::lemma_small_mod(hl as nat, 0x1_0000_0000);
    vstd::arithmetic::div_mod::lemma_small_mod(zl as nat, 0x1_0000_0000);
    assert(wrap32(17 + z.len() as int + user_data.len() as int) == hl);
    assert(wrap32(z.len() as int) == zl);
    lemma_le32_read(hl);
    lemma_le32_read(num_chunks);
    lemma_le32_read(zl);
    assert(b.subrange(0, 4) == magic());
    assert(b[4] == le32(hl)[0] && b[5] == le32(hl)[1] && b[6] == le32(hl)[2] && b[7] == le32(hl)[3]);
    assert(b[8] == 1);
    assert(b[9] == le32(num_chunks)[0] && b[10] == le32(num_chunks)[1] && b[11] == le32(num_chunks)[2]
        && b[12] == le32(num_chunks)[3]);
    assert(b[13] == le32(zl)[0] && b[14] == le32(zl)[1] && b[15] == le32(zl)[2] && b[16] == le32(zl)[3]);
    assert(declared_length(b) == hl);
    assert(declared_chunks(b) == num_chunks);
    assert(declared_table_len(b) == zl);
    assert(table_section(b) == z);
    assert(b.subrange(17 + z.len() as int, hl as int) == user_data);
    lemma_table_round_trip(chunk_ids, end_positions, hl);
}

/// Whether `b` starts with the magic bytes.
pub open spec fn has_magic(b: Seq<u8>) -> bool {
    b.len() >= 4 && b.subrange(0, 4) == magic()
}

/// The header length declared in `b`.
pub open spec fn declared_length(b: Seq<u8>) -> u32 {
    le32_at(b, 4)
}

/// The chunk count declared in `b`.
pub open spec fn declared_chunks(b: Seq<u8>) -> u32 {
    le32_at(b, 9)
}

/// The compressed table length declared in `b`.
pub open spec fn declared_table_len(b: Seq<u8>) -> u32 {
    le32_at(b, 13)
}

/// The error that the fixed fields of `b` call for, checked in order:
/// magic, length of the input, version, room for the table.
pub open spec fn header_fault(b: Seq<u8>) -> Option<ScoaError> {
    if !has_magic(b) {
        Some(ScoaError::InvalidHeader(HeaderProblem::BadMagic))
    } else if b.len() < 17 || b.len() < declared_length(b) {
        Some(ScoaError::InsufficientHeader)
    } else if b[8] != 1 {
        Some(ScoaError::InvalidHeader(HeaderProblem::UnsupportedVersion(b[8])))
    } else if declared_length(b) < 17 + declared_table_len(b) {
        Some(ScoaError::InvalidHeader(HeaderProblem::TableOverrun))
    } else {
        None
    }
}

/// A parsed header: its lengths, the lookup table and the user data.
pub struct ScoaReader {
    header_length: u32,
    num_chunks: u32,
    lookup_table: LookupTable,
    user_data: Vec<u8>,
}

impl ScoaReader {
    /// Total length of the header, where the chunk bodies begin.
    pub closed spec fn spec_header_length(&self) -> u32 {
        self.header_length
    }

    /// Number of chunks.
    pub closed spec fn spec_num_chunks(&self) -> u32 {
        self.num_chunks
    }

    /// Chunk ids of the table.
    pub closed spec fn spec_chunk_ids(&self) -> Seq<u64> {
        self.lookup_table.chunk_ids@
    }

    /// End positions of the table.
    pub closed spec fn spec_end_positions(&self) -> Seq<u64> {
        self.lookup_table.end_positions@
    }

    /// The user data.
    pub closed spec fn spec_user_data(&self) -> Seq<u8> {
        self.user_data@
    }

    /// The table is valid and has `num_chunks` rows.
    pub closed spec fn wf(&self) -> bool {
        &&& table_valid(self.spec_chunk_ids(), self.spec_end_positions(), self.header_length)
        &&& self.spec_chunk_ids().len() == self.num_chunks
    }

    /// Builds a reader from the decompressed table bytes `raw` of a header:
    /// reads `2 * num_chunks` LEB128 numbers, delta-decodes the ids and the
    /// end positions with bias 1, and checks the table.
    pub fn from_table_bytes(header_length: u32, num_chunks: u32, raw: &[u8], user_data: Vec<u8>) -> (r:
        Result<Self, ScoaError>)
        ensures
            match decoded_table(raw@, num_chunks, header_length) {
                None => r == Err::<Self, ScoaError>(ScoaError::DecodeError),
                Some((ids, ends)) => {
                    &&& r is Ok
                    &&& r->Ok_0.wf()
                    &&& r->Ok_0.spec_header_length() == header_length
                    &&& r->Ok_0.spec_num_chunks() == num_chunks
                    &&& r->Ok_0.spec_chunk_ids() == ids
                    &&& r->Ok_0.spec_end_positions() == ends
                    &&& r->Ok_0.spec_user_data() == user_data@
                },
            },
    {
        let total: u64 = 2 * num_chunks as u64;
        let mut vals: Vec<u64> = Vec::new();
        let mut pos: usize = 0;
        let mut i: u64 = 0;
        proof {
            assert(raw@.subrange(0, raw@.len() as int) == raw@);
            assert forall|t: Seq<u64>| vals@ + t == t by {
                assert(vals@ + t == t);
            }
        }
        while i < total
            invariant
                i <= total == 2 * num_chunks,
                pos <= raw@.len(),
                vals@.len() == i,
                leb128_read_many(raw@, total as nat) == match leb128_read_many(
                    raw@.subrange(pos as int, raw@.len() as int),
                    (total - i) as nat,
                ) {
                    Some(rest) => Some(vals@ + rest),
                    None => None::<Seq<u64>>,
                },
            decreases total - i,
        {
            let ghost rest_in = raw@.subrange(pos as int, raw@.len() as int);
            proof {
                lemma_leb128_read_len(rest_in, 0);
            }
            match read_leb128(raw, pos) {
                None => {
                    return Err(ScoaError::DecodeError);
                },
                Some((v, left)) => {
                    let ghost len = (raw@.len() - pos - left) as nat;
                    proof {
                        assert(rest_in.subrange(len as int, rest_in.len() as int) == raw@.subrange(
                            pos + len,
                            raw@.len() as int,
                        ));
                        let tail = leb128_read_many(
                            raw@.subrange(pos + len, raw@.len() as int),
                            (total - i - 1) as nat,
                        );
                        if let Some(t) = tail {
                            assert(vals@ + (seq![v] + t) == vals@.push(v) + t);
                        }
                    }
                    vals.push(v);
                    pos = raw.len() - left;
                },
            }
            i = i + 1;
        }
        proof {
            assert(vals@ + Seq::<u64>::empty() == vals@);
        }
        let n = num_chunks as usize;
        let count = vals.len();
        let ids = delta_decode(&vals.as_slice()[0..n], 1);
        let ends = delta_decode(&vals.as_slice()[n..count], 1);
        if !is_valid_table(&ids, &ends, header_length) {
            return Err(ScoaError::DecodeError);
        }
        Ok(ScoaReader {
            header_length,
            num_chunks,
            lookup_table: LookupTable { chunk_ids: ids, end_positions: ends },
            user_data,
        })
    }

    /// Parses a header from the first bytes of a container, which must hold
    /// at least the whole header.
    pub fn from_header_bytes(bytes: &[u8]) -> (r: Result<Self, ScoaError>)
        ensures
            header_fault(bytes@) is Some ==> r == Err::<Self, ScoaError>(
                header_fault(bytes@)->Some_0,
            ),
            header_fault(bytes@) is None ==> (r is Ok <==> table_of(bytes@) is Some),
            header_fault(bytes@) is None ==> match r {
                Ok(rd) => {
                    &&& rd.wf()
                    &&& rd.spec_header_length() == declared_length(bytes@)
                    &&& rd.spec_num_chunks() == declared_chunks(bytes@)
                    &&& table_of(bytes@) == Some((rd.spec_chunk_ids(), rd.spec_end_positions()))
                    &&& rd.spec_user_data() == bytes@.subrange(
                        17 + declared_table_len(bytes@),
                        declared_length(bytes@) as int,
                    )
                },
                Err(e) => e == ScoaError::DecodeError,
            },
    {
        if bytes.len() < 4 || bytes[0] != 0x53 || bytes[1] != 0x43 || bytes[2] != 0x4F || bytes[3]
            != 0x43 {
            proof {
                if bytes@.len() >= 4 {
                    if bytes@.subrange(0, 4) == magic() {
                        assert(bytes@.subrange(0, 4)[0] == bytes@[0]);
                        assert(bytes@.subrange(0, 4)[1] == bytes@[1]);
                        assert(bytes@.subrange(0, 4)[2] == bytes@[2]);
                        assert(bytes@.subrange(0, 4)[3] == bytes@[3]);
                    }
                }
            }
            return Err(ScoaError::InvalidHeader(HeaderProblem::BadMagic));
        }
        assert(bytes@.subrange(0, 4) == magic());
        if bytes.len() < 17 {
            return Err(ScoaError::InsufficientHeader);
        }
        let header_length = read_u32_le(bytes, 4);
        if bytes.len() < header_length as usize {
            return Err(ScoaError::InsufficientHeader);
        }
        let version = bytes[8];
        if version != VERSION {
            return Err(ScoaError::InvalidHeader(HeaderProblem::UnsupportedVersion(version)));
        }
        let num_chunks = read_u32_le(bytes, 9);
        let table_len = read_u32_le(bytes, 13);
        if (header_length as u64) < 17 + table_len as u64 {
            return Err(ScoaError::InvalidHeader(HeaderProblem::TableOverrun));
        }
        let table_end = 17 + table_len as usize;
        let compressed = &bytes[17..table_end];
        let user_data = copy_bytes(&bytes[table_end..header_length as usize]);
        match gunzip(compressed) {
            Err(_) => Err(ScoaError::DecodeError),
            Ok(raw) => Self::from_table_bytes(header_length, num_chunks, raw.as_slice(), user_data),
        }
    }

    /// Number of chunks.
    pub fn num_chunks(&self) -> (r: u32)
        ensures
            r == self.spec_num_chunks(),
    {
        self.num_chunks
    }

    /// The user data.
    pub fn user_data(&self) -> (r: &[u8])
        ensures
            r@ == self.spec_user_data(),
    {
        self.user_data.as_slice()
    }

    /// Total length of the header, where the chunk bodies begin.
    pub fn header_length(&self) -> (r: u32)
        ensures
            r == self.spec_header_length(),
    {
        self.header_length
    }

    /// A well-formed reader holds a valid table of `num_chunks` rows.
    pub proof fn lemma_wf(&self)
        requires
            self.wf(),
        ensures
            table_valid(self.spec_chunk_ids(), self.spec_end_positions(), self.spec_header_length()),
            self.spec_chunk_ids().len() == self.spec_num_chunks(),
    {
    }

    /// The lookup table.
    pub fn lookup_table(&self) -> (r: &LookupTable)
        ensures
            r.chunk_ids@ == self.spec_chunk_ids(),
            r.end_positions@ == self.spec_end_positions(),
    {
        &self.lookup_table
    }

    /// The chunks whose ids lie in `[id_begin, id_end)`, or `None` where
    /// there are none (an empty or inverted range included).
    pub fn bisect_range(&self, id_begin: u64, id_end: u64) -> (r: Option<Chunks<'_>>)
        requires
            self.wf(),
        ensures
            r is None <==> forall|i: int|
                0 <= i < self.spec_chunk_ids().len() ==> !(id_begin <= #[trigger] self.spec_chunk_ids()[i]
                    < id_end),
            r is Some ==> {
                let c = r->Some_0;
                &&& c.wf()
                &&& c.spec_chunk_ids() == self.spec_chunk_ids()
                &&& c.spec_end_positions() == self.spec_end_positions()
                &&& c.spec_body_offset() == self.spec_header_length()
                &&& c.spec_pos_begin() == start_of(self.spec_end_positions(), c.spec_idx_begin() as int)
                &&& c.spec_pos_end() == self.spec_end_positions()[c.spec_idx_end() - 1]
                &&& c.spec_idx_begin() < c.spec_idx_end() <= self.spec_chunk_ids().len()
                &&& is_partition_point(self.spec_chunk_ids(), id_begin, c.spec_idx_begin() as int)
                &&& is_partition_point(self.spec_chunk_ids(), id_end, c.spec_idx_end() as int)
            },
    {
        let idx_begin = partition_point(self.lookup_table.chunk_ids.as_slice(), id_begin);
        let idx_end = partition_point(self.lookup_table.chunk_ids.as_slice(), id_end);
        if idx_begin < idx_end {
            proof {
                let ids = self.spec_chunk_ids();
                assert(id_begin <= ids[idx_begin as int] < id_end);
            }
            Some(
                Chunks::new(&self.lookup_table, self.header_length, idx_begin as u32, idx_end as u32),
            )
        } else {
            None
        }
    }
}

/// `p` splits `s` into the values below `v` and those at least `v`.
pub open spec fn is_partition_point(s: Seq<u64>, v: u64, p: int) -> bool {
    &&& 0 <= p <= s.len()
    &&& forall|i: int| 0 <= i < p ==> #[trigger] s[i] < v
    &&& forall|i: int| p <= i < s.len() ==> #[trigger] s[i] >= v
}

/// Binary search for the first value of a sorted `s` that is at least `v`.
fn partition_point(s: &[u64], v: u64) -> (r: usize)
    requires
        non_decreasing(s@),
    ensures
        is_partition_point(s@, v, r as int),
{
    let mut lo: usize = 0;
    let mut hi: usize = s.len();
    while lo < hi
        invariant
            0 <= lo <= hi <= s@.len(),
            non_decreasing(s@),
            forall|i: int| 0 <= i < lo ==> #[trigger] s@[i] < v,
            forall|i: int| hi <= i < s@.len() ==> #[trigger] s@[i] >= v,
        decreases hi - lo,
    {
        let mid = lo + (hi - lo) / 2;
        if s[mid] < v {
            lo = mid + 1;
        } else {
            hi = mid;
        }
    }
    lo
}

/// Where chunk `i` begins, counted from the start of the body section.
pub open spec fn start_of(end_positions: Seq<u64>, i: int) -> u64 {
    if i == 0 {
        0
    } else {
        end_positions[i - 1]
    }
}

/// The chunks `[idx_begin, idx_end)` of a reader's table and the bytes that
/// hold their bodies.
pub struct Chunks<'a> {
    lookup_table: &'a LookupTable,
    body_offset: u32,
    idx_begin: u32,
    idx_end: u32,
    pos_begin: u64,
    pos_end: u64,
}

impl<'a> Chunks<'a> {
    /// First chunk index of the range.
    pub closed spec fn spec_idx_begin(&self) -> u32 {
        self.idx_begin
    }

    /// One past the last chunk index of the range.
    pub closed spec fn spec_idx_end(&self) -> u32 {
        self.idx_end
    }

    /// Where the body section begins: the header length.
    pub closed spec fn spec_body_offset(&self) -> u32 {
        self.body_offset
    }

    /// Start of the first body, counted from the start of the body section.
    pub closed spec fn spec_pos_begin(&self) -> u64 {
        self.pos_begin
    }

    /// End of the last body, counted from the start of the body section.
    pub closed spec fn spec_pos_end(&self) -> u64 {
        self.pos_end
    }

    /// Chunk ids of the table.
    pub closed spec fn spec_chunk_ids(&self) -> Seq<u64> {
        self.lookup_table.chunk_ids@
    }

    /// End positions of the table.
    pub closed spec fn spec_end_positions(&self) -> Seq<u64> {
        self.lookup_table.end_positions@
    }

    /// A non-empty index range of a valid table, with the body window it spans.
    pub closed spec fn wf(&self) -> bool {
        &&& table_valid(self.spec_chunk_ids(), self.spec_end_positions(), self.body_offset)
        &&& self.idx_begin < self.idx_end <= self.spec_chunk_ids().len()
        &&& self.pos_begin == start_of(self.spec_end_positions(), self.idx_begin as int)
        &&& self.pos_end == self.spec_end_positions()[self.idx_end - 1]
    }

    /// A well-formed view spans a non-empty index range of a valid table,
    /// and its body window runs from the start of its first chunk to the end
    /// of its last.
    pub proof fn lemma_wf(&self)
        requires
            self.wf(),
        ensures
            table_valid(self.spec_chunk_ids(), self.spec_end_positions(), self.spec_body_offset()),
            self.spec_idx_begin() < self.spec_idx_end() <= self.spec_chunk_ids().len(),
            self.spec_pos_begin() == start_of(self.spec_end_positions(), self.spec_idx_begin() as int),
            self.spec_pos_end() == self.spec_end_positions()[self.spec_idx_end() - 1],
            self.spec_pos_begin() <= self.spec_pos_end(),
    {
        self.lemma_positions();
    }

    fn new(lookup_table: &'a LookupTable, body_offset: u32, idx_begin: u32, idx_end: u32) -> (r:
        Self)
        requires
            table_valid(lookup_table.chunk_ids@, lookup_table.end_positions@, body_offset),
            idx_begin < idx_end <= lookup_table.chunk_ids@.len(),
        ensures
            r.wf(),
            r.spec_chunk_ids() == lookup_table.chunk_ids@,
            r.spec_end_positions() == lookup_table.end_positions@,
            r.spec_body_offset() == body_offset,
            r.spec_idx_begin() == idx_begin,
            r.spec_idx_end() == idx_end,
    {
        let pos_begin = if idx_begin == 0 {
            0
        } else {
            lookup_table.end_positions[(idx_begin - 1) as usize]
        };
        let pos_end = if idx_end as usize == lookup_table.chunk_ids.len() {
            lookup_table.end_positions[lookup_table.end_positions.len() - 1]
        } else {
            lookup_table.end_positions[(idx_end - 1) as usize]
        };
        Chunks { lookup_table, body_offset, idx_begin, idx_end, pos_begin, pos_end }
    }

    /// First chunk index of the range.
    pub fn idx_begin(&self) -> (r: u32)
        ensures
            r == self.spec_idx_begin(),
    {
        self.idx_begin
    }

    /// One past the last chunk index of the range.
    pub fn idx_end(&self) -> (r: u32)
        ensures
            r == self.spec_idx_end(),
    {
        self.idx_end
    }

    /// Offset in the container of the first body byte of the range.
    pub fn body_begin(&self) -> (r: usize)
        requires
            self.wf(),
        ensures
            r == self.spec_body_offset() + self.spec_pos_begin(),
            r == self.spec_body_offset() + start_of(
                self.spec_end_positions(),
                self.spec_idx_begin() as int,
            ),
    {
        proof {
            self.lemma_positions();
        }
        self.body_offset as usize + self.pos_begin as usize
    }

    /// Offset in the container one past the last body byte of the range.
    pub fn body_end(&self) -> (r: usize)
        requires
            self.wf(),
        ensures
            r == self.spec_body_offset() + self.spec_pos_end(),
            r == self.spec_body_offset() + self.spec_end_positions()[self.spec_idx_end() - 1],
    {
        proof {
            self.lemma_positions();
        }
        self.body_offset as usize + self.pos_end as usize
    }

    /// Number of body bytes of the range.
    pub fn body_size(&self) -> (r: usize)
        requires
            self.wf(),
        ensures
            r == self.spec_pos_end() - self.spec_pos_begin(),
            r == self.spec_end_positions()[self.spec_idx_end() - 1] - start_of(
                self.spec_end_positions(),
                self.spec_idx_begin() as int,
            ),
    {
        proof {
            self.lemma_positions();
        }
        (self.pos_end - self.pos_begin) as usize
    }

    proof fn lemma_positions(&self)
        requires
            self.wf(),
        ensures
            self.pos_begin <= self.pos_end,
            self.body_offset + self.pos_end <= usize::MAX,
    {
        let ends = self.spec_end_positions();
        if self.idx_begin > 0 {
            assert(ends[self.idx_begin - 1] < ends[self.idx_end - 1]);
        }
        if self.idx_end < ends.len() {
            assert(ends[self.idx_end - 1] < ends.last());
        }
    }

    /// Each chunk of the range with its body, cut from `buf`, which holds the
    /// bytes `[body_begin, body_end)` of the container.
    pub fn iter_chunks<'b>(&self, buf: &'b [u8]) -> (r: Vec<(u64, &'b [u8])>)
        requires
            self.wf(),
            buf@.len() == self.spec_pos_end() - self.spec_pos_begin(),
        ensures
            r@.len() == self.spec_idx_end() - self.spec_idx_begin(),
            forall|k: int|
                0 <= k < r@.len() ==> {
                    let i = self.spec_idx_begin() + k;
                    &&& (#[trigger] r@[k]).0 == self.spec_chunk_ids()[i]
                    &&& 0 <= start_of(self.spec_end_positions(), i) - self.spec_pos_begin()
                        <= self.spec_end_positions()[i] - self.spec_pos_begin() <= buf@.len()
                    &&& r@[k].1@ == buf@.subrange(
                        start_of(self.spec_end_positions(), i) - self.spec_pos_begin(),
                        self.spec_end_positions()[i] - self.spec_pos_begin(),
                    )
                    &&& r@[k].1@.len() == self.spec_end_positions()[i] - start_of(
                        self.spec_end_positions(),
                        i,
                    )
                },
    {
        let ghost ends = self.spec_end_positions();
        let mut r: Vec<(u64, &'b [u8])> = Vec::new();
        let mut prev_pos_end = self.pos_begin;
        let mut i: usize = self.idx_begin as usize;
        while i < self.idx_end as usize
            invariant
                self.wf(),
                ends == self.spec_end_positions(),
                buf@.len() == self.pos_end - self.pos_begin,
                self.idx_begin <= i <= self.idx_end,
                r@.len() == i - self.idx_begin,
                prev_pos_end == start_of(ends, i as int),
                forall|k: int|
                    0 <= k < r@.len() ==> {
                        let j = self.spec_idx_begin() + k;
                        &&& (#[trigger] r@[k]).0 == self.spec_chunk_ids()[j]
                        &&& 0 <= start_of(ends, j) - self.spec_pos_begin() <= ends[j]
                            - self.spec_pos_begin() <= buf@.len()
                        &&& r@[k].1@ == buf@.subrange(
                            start_of(ends, j) - self.spec_pos_begin(),
                            ends[j] - self.spec_pos_begin(),
                        )
                    },
            decreases self.idx_end - i,
        {
            let chunk_id = self.lookup_table.chunk_ids[i];
            let end_position = self.lookup_table.end_positions[i];
            proof {
                if i > self.idx_begin {
                    assert(ends[i - 1] < ends[i as int]);
                }
                if self.idx_begin > 0 {
                    assert(ends[self.idx_begin - 1] <= ends[i - 1] || i == self.idx_begin);
                }
                if i < self.idx_end - 1 {
                    assert(ends[i as int] < ends[self.idx_end - 1]);
                }
            }
            let start = (prev_pos_end - self.pos_begin) as usize;
            let end = (end_position - self.pos_begin) as usize;
            r.push((chunk_id, &buf[start..end]));
            prev_pos_end = end_position;
            i = i + 1;
        }
        r
    }
}

/// Count of bytes that a successful LEB128 read takes.
proof fn lemma_leb128_read_len(s: Seq<u8>, k: nat)
    ensures
        leb128_read(s, k) is Some ==> 1 <= leb128_read(s, k)->Some_0.1 <= s.len(),
    decreases 10 - k,
{
    if s.len() > 0 && k < 10 && !(k == 9 && s[0] > 1) && s[0] >= 0x80 {
        lemma_leb128_read_len(s.drop_first(), k + 1);
    }
}

/// A copy of `b`.
fn copy_bytes(b: &[u8]) -> (r: Vec<u8>)
    ensures
        r@ == b@,
{
    let mut r: Vec<u8> = Vec::new();
    let mut i: usize = 0;
    while i < b.len()
        invariant
            i <= b@.len(),
            r@ == b@.subrange(0, i as int),
        decreases b@.len() - i,
    {
        r.push(b[i]);
        i = i + 1;
    }
    r
}

/// Whether `ids`, `ends` and `header_length` form a valid table.
fn is_valid_table(ids: &Vec<u64>, ends: &Vec<u64>, header_length: u32) -> (r: bool)
    ensures
        r == table_valid(ids@, ends@, header_length),
{
    if ids.len() != ends.len() {
        return false;
    }
    let mut i: usize = 1;
    while i < ids.len()
        invariant
            1 <= i,
            ids@.len() == ends@.len(),
            i <= ids@.len() || ids@.len() == 0,
            forall|a: int, b: int| 0 <= a <= b < i && b < ids@.len() ==> ids@[a] <= ids@[b],
            forall|a: int, b: int| 0 <= a < b < i && b < ends@.len() ==> ends@[a] < ends@[b],
        decreases ids@.len() - i,
    {
        if ids[i - 1] > ids[i] || ends[i - 1] >= ends[i] {
            return false;
        }
        i = i + 1;
    }
    if ends.len() > 0 {
        let last = ends[ends.len() - 1];
        if last > (usize::MAX - header_length as usize) as u64 {
            return false;
        }
    }
    true
}

} // verus!
