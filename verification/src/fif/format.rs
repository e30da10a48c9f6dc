//! The FIF byte layout: little-endian `u32` fields, the header, and errors.

use vstd::prelude::*;
use vstd::utf8::encode_utf8;

verus! {

/// The only version of the format this library reads and writes.
pub const SUPPORTED_VERSION: u32 = 1;

/// The size of the header in bytes.
pub const HEADER_SIZE: u64 = 32;

/// The four bytes every FIF file begins with: `FIF\0`.
pub open spec fn magic() -> Seq<u8> {
    seq![70u8, 73u8, 70u8, 0u8]
}

/// The little-endian encoding of `x`.
pub open spec fn le_u32(x: u32) -> Seq<u8> {
    seq![
        (x & 0xff) as u8,
        ((x >> 8) & 0xff) as u8,
        ((x >> 16) & 0xff) as u8,
        ((x >> 24) & 0xff) as u8,
    ]
}

/// The `u32` whose little-endian encoding is `b0 b1 b2 b3`.
pub open spec fn u32_from_le(b0: u8, b1: u8, b2: u8, b3: u8) -> u32 {
    (b0 as u32) | ((b1 as u32) << 8) | ((b2 as u32) << 16) | ((b3 as u32) << 24)
}

/// The little-endian `u32` stored at `pos` in `src`.
pub open spec fn u32_at(src: Seq<u8>, pos: int) -> u32 {
    u32_from_le(src[pos], src[pos + 1], src[pos + 2], src[pos + 3])
}

/// Decoding the encoding of `x` gives `x` back.
pub proof fn lemma_le_u32_roundtrip(x: u32)
    ensures
        le_u32(x).len() == 4,
        u32_at(le_u32(x), 0) == x,
{
    let b = le_u32(x);
    assert(b[0] == (x & 0xff) as u8);
    assert(b[1] == ((x >> 8) & 0xff) as u8);
    assert(b[2] == ((x >> 16) & 0xff) as u8);
    assert(b[3] == ((x >> 24) & 0xff) as u8);
    assert(u32_from_le(
        (x & 0xff) as u8,
        ((x >> 8) & 0xff) as u8,
        ((x >> 16) & 0xff) as u8,
        ((x >> 24) & 0xff) as u8,
    ) == x) by (bit_vector);
}

/// The fixed-size header at the start of a FIF file, after the magic bytes.
#[derive(Clone, Copy, PartialEq, Eq, Debug)]
pub struct Header {
    pub version: u32,
    pub document_count: u32,
    pub document_table_offset: u32,
    pub term_count: u32,
    pub term_table_offset: u32,
    pub posting_count: u32,
    pub posting_table_offset: u32,
}

/// A part of a FIF file that a read can fall outside of.
#[derive(Clone, Copy, PartialEq, Eq, Debug)]
pub enum Region {
    DocumentTable,
    TermTable,
    PostingTable,
    Field,
    Text,
    PostingList,
}

/// Why a FIF file could not be read or written.
#[derive(Clone, Copy, PartialEq, Eq, Debug)]
pub enum FifError {
    /// The file ends inside the header.
    UnexpectedEof,
    /// The file does not start with `FIF\0`.
    NotFif,
    /// The header names a version other than the supported one.
    UnsupportedVersion(u32),
    /// The header's term count and posting count differ.
    CountMismatch,
    /// A non-empty table starts inside the header.
    InvalidTableOffset(Region),
    /// A table's byte length does not fit in 64 bits.
    TableTooLarge(Region),
    /// The end offset of a region does not fit in 64 bits.
    OffsetOverflow(Region),
    /// A table entry's offset does not fit in 64 bits.
    EntryOffsetOverflow,
    /// A region lies outside the file.
    OutOfBounds(Region),
    /// A stored string is not valid UTF-8.
    InvalidUtf8,
    /// A stored string has no terminating zero byte.
    Unterminated,
    /// The index is too large for the format's 32-bit offsets.
    TooLarge,
}

/// The header fields as stored in `src` (which holds at least 32 bytes).
pub open spec fn header_fields(src: Seq<u8>) -> Header {
    Header {
        version: u32_at(src, 4),
        document_count: u32_at(src, 8),
        document_table_offset: u32_at(src, 12),
        term_count: u32_at(src, 16),
        term_table_offset: u32_at(src, 20),
        posting_count: u32_at(src, 24),
        posting_table_offset: u32_at(src, 28),
    }
}

/// What is wrong, if anything, with a table of `count` entries of
/// `entry_size` bytes at `offset` in a file of `len` bytes.
pub open spec fn table_error(len: int, offset: u32, count: u32, entry_size: int, region: Region) -> Option<FifError> {
    if count == 0 {
        None
    } else if offset < HEADER_SIZE {
        Some(FifError::InvalidTableOffset(region))
    } else if offset + count * entry_size > len {
        Some(FifError::OutOfBounds(region))
    } else {
        None
    }
}

/// The header of `src`, or the error that reading and checking it gives.
pub open spec fn parse_header(src: Seq<u8>) -> Result<Header, FifError> {
    if src.len() < 4 {
        Err(FifError::UnexpectedEof)
    } else if src.take(4) != magic() {
        Err(FifError::NotFif)
    } else if src.len() < HEADER_SIZE {
        Err(FifError::UnexpectedEof)
    } else {
        let h = header_fields(src);
        if h.version != SUPPORTED_VERSION {
            Err(FifError::UnsupportedVersion(h.version))
        } else if h.term_count != h.posting_count {
            Err(FifError::CountMismatch)
        } else if let Some(e) = table_error(
            src.len() as int,
            h.document_table_offset,
            h.document_count,
            4,
            Region::DocumentTable,
        ) {
            Err(e)
        } else if let Some(e) = table_error(
            src.len() as int,
            h.term_table_offset,
            h.term_count,
            4,
            Region::TermTable,
        ) {
            Err(e)
        } else if let Some(e) = table_error(
            src.len() as int,
            h.posting_table_offset,
            h.posting_count,
            8,
            Region::PostingTable,
        ) {
            Err(e)
        } else {
            Ok(h)
        }
    }
}

// ---------------------------------------------------------------------------
// The bytes the encoder writes for an index.
// ---------------------------------------------------------------------------

/// `n` zero bytes.
pub open spec fn zeros(n: nat) -> Seq<u8> {
    Seq::new(n, |i: int| 0u8)
}

/// The UTF-8 bytes of `s` followed by a zero byte.
pub open spec fn nul_terminated(s: Seq<char>) -> Seq<u8> {
    encode_utf8(s).push(0u8)
}

/// The zero-terminated strings of `ss`, one after another.
pub open spec fn strings_block(ss: Seq<Seq<char>>) -> Seq<u8>
    decreases ss.len(),
{
    if ss.len() == 0 {
        seq![]
    } else {
        strings_block(ss.drop_last()) + nul_terminated(ss.last())
    }
}

/// The little-endian encodings of `xs` (each taken modulo 2^32), one after
/// another.
pub open spec fn u32s_block(xs: Seq<int>) -> Seq<u8>
    decreases xs.len(),
{
    if xs.len() == 0 {
        seq![]
    } else {
        u32s_block(xs.drop_last()) + le_u32(xs.last() as u32)
    }
}

/// The posting table: for each list, its offset and its length.
pub open spec fn pairs_block(offsets: Seq<int>, lists: Seq<Seq<usize>>) -> Seq<u8>
    decreases lists.len(),
{
    if lists.len() == 0 {
        seq![]
    } else {
        pairs_block(offsets, lists.drop_last()) + le_u32(offsets[lists.len() - 1] as u32) + le_u32(
            lists.last().len() as u32,
        )
    }
}

/// All the lists of `lists`, one after another.
pub open spec fn flatten(lists: Seq<Seq<usize>>) -> Seq<usize>
    decreases lists.len(),
{
    if lists.len() == 0 {
        seq![]
    } else {
        flatten(lists.drop_last()) + lists.last()
    }
}

/// The document ids of `ids` as integers.
pub open spec fn ids_as_ints(ids: Seq<usize>) -> Seq<int> {
    ids.map_values(|x: usize| x as int)
}

/// Where each string of `ss` starts when they are stored from `base` on.
pub open spec fn string_offsets(base: int, ss: Seq<Seq<char>>) -> Seq<int> {
    Seq::new(ss.len(), |i: int| base + strings_block(ss.take(i)).len())
}

/// Where each list of `lists` starts when they are stored from `base` on.
pub open spec fn list_offsets(base: int, lists: Seq<Seq<usize>>) -> Seq<int> {
    Seq::new(lists.len(), |k: int| base + 4 * flatten(lists.take(k)).len())
}

/// Where the term table starts, for `d` documents.
pub open spec fn term_table_start(d: int) -> int {
    HEADER_SIZE + 4 * d
}

/// Where the posting table starts, for `d` documents and `t` terms.
pub open spec fn posting_table_start(d: int, t: int) -> int {
    term_table_start(d) + 4 * t
}

/// Where the stored strings start, for `d` documents and `t` terms.
pub open spec fn data_start(d: int, t: int) -> int {
    posting_table_start(d, t) + 8 * t
}

/// The header the encoder writes for `d` documents and `t` terms. The term
/// and posting table offsets are left zero when there are no terms.
pub open spec fn header_block(d: int, t: int) -> Seq<u8> {
    magic() + le_u32(SUPPORTED_VERSION) + le_u32(d as u32) + le_u32(HEADER_SIZE as u32) + le_u32(
        t as u32,
    ) + le_u32(if t > 0 { term_table_start(d) as u32 } else { 0 }) + le_u32(t as u32) + le_u32(
        if t > 0 { posting_table_start(d, t) as u32 } else { 0 },
    )
}

/// The FIF encoding of an index with document paths `paths`, terms `keys`
/// and posting lists `lists` (the list of term `k` is `lists[k]`):
/// the header, the document, term and posting tables, the zero-terminated
/// document paths, the zero-terminated terms, then the posting lists.
pub open spec fn encoding(paths: Seq<Seq<char>>, keys: Seq<Seq<char>>, lists: Seq<Seq<usize>>) -> Seq<u8> {
    let d = paths.len() as int;
    let t = keys.len() as int;
    let term_data = data_start(d, t) + strings_block(paths).len();
    let list_data = term_data + strings_block(keys).len();
    header_block(d, t) + u32s_block(string_offsets(data_start(d, t), paths)) + u32s_block(
        string_offsets(term_data, keys),
    ) + pairs_block(list_offsets(list_data, lists), lists) + strings_block(paths) + strings_block(
        keys,
    ) + u32s_block(ids_as_ints(flatten(lists)))
}

/// The length of that encoding.
pub open spec fn encoding_len(paths: Seq<Seq<char>>, keys: Seq<Seq<char>>, lists: Seq<Seq<usize>>) -> int {
    data_start(paths.len() as int, keys.len() as int) + strings_block(paths).len()
        + strings_block(keys).len() + 4 * flatten(lists).len()
}

/// Whether the index fits the format: every offset and every document id
/// fits in 32 bits.
pub open spec fn fits_format(paths: Seq<Seq<char>>, keys: Seq<Seq<char>>, lists: Seq<Seq<usize>>) -> bool {
    &&& encoding_len(paths, keys, lists) <= u32::MAX
    &&& forall|i: int| 0 <= i < flatten(lists).len() ==> flatten(lists)[i] <= u32::MAX
}

/// The encoding of zero is four zero bytes.
pub proof fn lemma_le_u32_zero()
    ensures
        le_u32(0) == zeros(4),
{
    assert((0u32 & 0xff) as u8 == 0u8 && ((0u32 >> 8) & 0xff) as u8 == 0u8 && ((0u32 >> 16) & 0xff)
        as u8 == 0u8 && ((0u32 >> 24) & 0xff) as u8 == 0u8) by (bit_vector);
    assert(le_u32(0) =~= zeros(4));
}

/// Each `u32` takes four bytes.
pub proof fn lemma_u32s_block_len(xs: Seq<int>)
    ensures
        u32s_block(xs).len() == 4 * xs.len(),
    decreases xs.len(),
{
    if xs.len() > 0 {
        lemma_u32s_block_len(xs.drop_last());
    }
}

/// Encoding two sequences of `u32`s one after the other.
pub proof fn lemma_u32s_block_add(a: Seq<int>, b: Seq<int>)
    ensures
        u32s_block(a + b) == u32s_block(a) + u32s_block(b),
    decreases b.len(),
{
    if b.len() == 0 {
        assert(a + b =~= a);
    } else {
        lemma_u32s_block_add(a, b.drop_last());
        assert((a + b).drop_last() =~= a + b.drop_last());
    }
}

/// Each posting table entry takes eight bytes.
pub proof fn lemma_pairs_block_len(offsets: Seq<int>, lists: Seq<Seq<usize>>)
    ensures
        pairs_block(offsets, lists).len() == 8 * lists.len(),
    decreases lists.len(),
{
    if lists.len() > 0 {
        lemma_pairs_block_len(offsets, lists.drop_last());
    }
}

/// The strings of a prefix take no more room than all of them.
pub proof fn lemma_strings_block_prefix(ss: Seq<Seq<char>>, i: int)
    requires
        0 <= i <= ss.len(),
    ensures
        strings_block(ss.take(i)).len() <= strings_block(ss).len(),
    decreases ss.len(),
{
    if i < ss.len() {
        lemma_strings_block_prefix(ss.drop_last(), i);
        assert(ss.drop_last().take(i) =~= ss.take(i));
    } else {
        assert(ss.take(i) =~= ss);
    }
}

/// Flattening two sequences of lists one after the other.
pub proof fn lemma_flatten_add(a: Seq<Seq<usize>>, b: Seq<Seq<usize>>)
    ensures
        flatten(a + b) == flatten(a) + flatten(b),
    decreases b.len(),
{
    if b.len() == 0 {
        assert(a + b =~= a);
        assert(flatten(a) + flatten(b) =~= flatten(a));
    } else {
        lemma_flatten_add(a, b.drop_last());
        assert((a + b).drop_last() =~= a + b.drop_last());
    }
}

/// The flattening of the first `k` lists, then list `k`, start the
/// flattening of all of them.
pub proof fn lemma_flatten_split(lists: Seq<Seq<usize>>, k: int)
    requires
        0 <= k < lists.len(),
    ensures
        flatten(lists) == flatten(lists.take(k)) + lists[k] + flatten(lists.skip(k + 1)),
        flatten(lists.take(k + 1)) == flatten(lists.take(k)) + lists[k],
{
    assert(lists =~= lists.take(k) + (seq![lists[k]] + lists.skip(k + 1)));
    lemma_flatten_add(lists.take(k), seq![lists[k]] + lists.skip(k + 1));
    lemma_flatten_add(seq![lists[k]], lists.skip(k + 1));
    assert(seq![lists[k]].drop_last() =~= Seq::<Seq<usize>>::empty());
    assert(flatten(Seq::<Seq<usize>>::empty()) =~= Seq::<usize>::empty());
    assert(flatten(seq![lists[k]]) =~= lists[k]);
    assert(lists.take(k + 1).drop_last() =~= lists.take(k));
}

/// The lists of a prefix hold no more ids than all of them.
pub proof fn lemma_flatten_prefix(lists: Seq<Seq<usize>>, k: int)
    requires
        0 <= k <= lists.len(),
    ensures
        flatten(lists.take(k)).len() <= flatten(lists).len(),
{
    assert(lists =~= lists.take(k) + lists.skip(k));
    lemma_flatten_add(lists.take(k), lists.skip(k));
}

/// Appends the little-endian encoding of `x`.
pub fn push_u32(out: &mut Vec<u8>, x: u32)
    ensures
        final(out)@ == old(out)@ + le_u32(x),
{
    out.push((x & 0xff) as u8);
    out.push(((x >> 8) & 0xff) as u8);
    out.push(((x >> 16) & 0xff) as u8);
    out.push(((x >> 24) & 0xff) as u8);
    assert(final(out)@ == old(out)@ + le_u32(x));
}

/// Reads the little-endian `u32` at `pos`.
pub fn read_u32(src: &Vec<u8>, pos: usize) -> (r: u32)
    requires
        pos + 4 <= src@.len(),
    ensures
        r == u32_at(src@, pos as int),
{
    let n = src.len();
    assert(pos + 4 <= n);
    let b0 = src[pos];
    let b1 = src[pos + 1];
    let b2 = src[pos + 2];
    let b3 = src[pos + 3];
    (b0 as u32) | ((b1 as u32) << 8) | ((b2 as u32) << 16) | ((b3 as u32) << 24)
}

} // verus!
