//! Random access to a FIF file, read on demand.

use vstd::prelude::*;
use vstd::utf8::*;
use vstd::arithmetic::power2::{lemma2_to64, lemma_pow2_pos, lemma_pow2_unfold, pow2};
use crate::fif::format::{
    magic, parse_header, read_u32, u32_at, header_fields, FifError, Header, Region,
    HEADER_SIZE, SUPPORTED_VERSION,
};

verus! {

// ---------------------------------------------------------------------------
// What a read gives, stated over the bytes of the file.
// ---------------------------------------------------------------------------

/// The error, if any, of requiring `n` bytes at `offset` in a file of `len`
/// bytes.
pub open spec fn range_error(len: int, offset: int, n: int, region: Region) -> Option<FifError> {
    if offset + n > u64::MAX {
        Some(FifError::OffsetOverflow(region))
    } else if offset + n > len {
        Some(FifError::OutOfBounds(region))
    } else {
        None
    }
}

/// The error, if any, of a table of `count` entries of `entry_size` bytes at
/// `offset`, with every overflow spelled out.
pub open spec fn table_check(len: int, offset: u32, count: u32, entry_size: int, region: Region) -> Option<FifError> {
    if count == 0 {
        None
    } else if offset < HEADER_SIZE {
        Some(FifError::InvalidTableOffset(region))
    } else if count * entry_size > u64::MAX {
        Some(FifError::TableTooLarge(region))
    } else {
        range_error(len, offset as int, count * entry_size, region)
    }
}

/// `Ok(())` when there is no error.
pub open spec fn as_result(e: Option<FifError>) -> Result<(), FifError> {
    match e {
        Some(e) => Err(e),
        None => Ok(()),
    }
}

/// The `u32` field at `pos`, or the error of reading past the end.
pub open spec fn field_at(src: Seq<u8>, pos: int) -> Result<u32, FifError> {
    if pos + 4 > src.len() {
        Err(FifError::OutOfBounds(Region::Field))
    } else {
        Ok(u32_at(src, pos))
    }
}

/// The position of the first zero byte at or after `i`, if there is one.
pub open spec fn nul_from(src: Seq<u8>, i: int) -> Option<int>
    decreases src.len() - i,
{
    if i < 0 || i >= src.len() {
        None
    } else if src[i] == 0 {
        Some(i)
    } else {
        nul_from(src, i + 1)
    }
}

/// The zero-terminated UTF-8 string that starts at `offset`.
pub open spec fn string_at(src: Seq<u8>, offset: int) -> Result<Seq<char>, FifError> {
    if offset + 1 > src.len() {
        Err(FifError::OutOfBounds(Region::Text))
    } else {
        match nul_from(src, offset) {
            None => Err(FifError::Unterminated),
            Some(end) => {
                let bytes = src.subrange(offset, end);
                if valid_utf8(bytes) {
                    Ok(decode_utf8(bytes))
                } else {
                    Err(FifError::InvalidUtf8)
                }
            },
        }
    }
}

/// The string named by entry `index` of a table of string offsets.
pub open spec fn entry_string(src: Seq<u8>, table_offset: u32, count: u32, index: u32) -> Result<Option<Seq<char>>, FifError> {
    if index >= count {
        Ok(None)
    } else {
        match field_at(src, table_offset + 4 * index) {
            Err(e) => Err(e),
            Ok(offset) => match string_at(src, offset as int) {
                Err(e) => Err(e),
                Ok(s) => Ok(Some(s)),
            },
        }
    }
}

/// The path of document `index`.
pub open spec fn document_at(src: Seq<u8>, h: Header, index: u32) -> Result<Option<Seq<char>>, FifError> {
    entry_string(src, h.document_table_offset, h.document_count, index)
}

/// The term with index `index`.
pub open spec fn term_at(src: Seq<u8>, h: Header, index: u32) -> Result<Option<Seq<char>>, FifError> {
    entry_string(src, h.term_table_offset, h.term_count, index)
}

/// The posting list of the term with index `index`.
pub open spec fn postings_at(src: Seq<u8>, h: Header, index: u32) -> Result<Option<Seq<u32>>, FifError> {
    if index >= h.posting_count {
        Ok(None)
    } else {
        let entry = h.posting_table_offset + 8 * index;
        match field_at(src, entry) {
            Err(e) => Err(e),
            Ok(offset) => match field_at(src, entry + 4) {
                Err(e) => Err(e),
                Ok(count) => if offset + 4 * count > src.len() {
                    Err(FifError::OutOfBounds(Region::PostingList))
                } else {
                    Ok(Some(Seq::new(count as nat, |i: int| u32_at(src, offset + 4 * i))))
                },
            },
        }
    }
}

/// The outcome of comparing two byte strings.
#[derive(Clone, Copy, PartialEq, Eq, Debug)]
pub enum Order {
    Less,
    Equal,
    Greater,
}

/// Lexicographic order of byte strings, the order of `str` values.
pub open spec fn lex_order(a: Seq<u8>, b: Seq<u8>) -> Order
    decreases a.len(),
{
    if a.len() == 0 {
        if b.len() == 0 {
            Order::Equal
        } else {
            Order::Less
        }
    } else if b.len() == 0 {
        Order::Greater
    } else if a[0] < b[0] {
        Order::Less
    } else if a[0] > b[0] {
        Order::Greater
    } else {
        lex_order(a.drop_first(), b.drop_first())
    }
}

/// Byte strings compare equal exactly when they are equal.
pub proof fn lemma_lex_order_equal(a: Seq<u8>, b: Seq<u8>)
    ensures
        (lex_order(a, b) == Order::Equal) <==> a == b,
    decreases a.len(),
{
    if a.len() > 0 && b.len() > 0 && a[0] == b[0] {
        lemma_lex_order_equal(a.drop_first(), b.drop_first());
        if a.drop_first() == b.drop_first() {
            assert(a =~= seq![a[0]] + a.drop_first());
            assert(b =~= seq![b[0]] + b.drop_first());
        }
    }
    if a.len() > 0 && b.len() > 0 && a[0] != b[0] {
        assert(a != b);
    }
    if a.len() == 0 && b.len() == 0 {
        assert(a =~= b);
    }
}

/// `a` comes before `b` exactly when `b` comes after `a`.
pub proof fn lemma_lex_order_flip(a: Seq<u8>, b: Seq<u8>)
    ensures
        (lex_order(a, b) == Order::Less) <==> (lex_order(b, a) == Order::Greater),
    decreases a.len(),
{
    if a.len() > 0 && b.len() > 0 && a[0] == b[0] {
        lemma_lex_order_flip(a.drop_first(), b.drop_first());
    }
}

/// The order of byte strings is transitive.
pub proof fn lemma_lex_order_trans(a: Seq<u8>, b: Seq<u8>, c: Seq<u8>)
    requires
        lex_order(a, b) == Order::Less,
        lex_order(b, c) == Order::Less,
    ensures
        lex_order(a, c) == Order::Less,
    decreases a.len(),
{
    if a.len() > 0 && b.len() > 0 && c.len() > 0 && a[0] == b[0] && b[0] == c[0] {
        lemma_lex_order_trans(a.drop_first(), b.drop_first(), c.drop_first());
    }
}

/// Byte strings are ordered by their first differing byte, compared as an
/// unsigned number: when `a` and `b` agree before position `i` and
/// `a[i] < b[i]`, `a` comes first.
pub proof fn lemma_lex_order_first_difference(a: Seq<u8>, b: Seq<u8>, i: int)
    requires
        0 <= i < a.len(),
        i < b.len(),
        a.take(i) == b.take(i),
        a[i] < b[i],
    ensures
        lex_order(a, b) == Order::Less,
    decreases i,
{
    if i > 0 {
        assert(a[0] == a.take(i)[0]);
        assert(b[0] == b.take(i)[0]);
        assert(a.drop_first().take(i - 1) =~= b.drop_first().take(i - 1)) by {
            assert forall|k: int| 0 <= k < i - 1 implies a.drop_first()[k] == b.drop_first()[k] by {
                assert(a.take(i)[k + 1] == b.take(i)[k + 1]);
                assert(a.take(i)[k + 1] == a[k + 1]);
                assert(b.take(i)[k + 1] == b[k + 1]);
                assert(a.drop_first()[k] == a[k + 1]);
                assert(b.drop_first()[k] == b[k + 1]);
            }
        }
        lemma_lex_order_first_difference(a.drop_first(), b.drop_first(), i - 1);
    }
}

/// A proper prefix comes before the longer string.
pub proof fn lemma_lex_order_prefix(a: Seq<u8>, b: Seq<u8>)
    requires
        a.len() < b.len(),
        b.take(a.len() as int) == a,
    ensures
        lex_order(a, b) == Order::Less,
    decreases a.len(),
{
    if a.len() > 0 {
        assert(b[0] == b.take(a.len() as int)[0]);
        assert(b.drop_first().take(a.len() - 1) =~= a.drop_first()) by {
            assert forall|k: int| 0 <= k < a.len() - 1 implies b.drop_first()[k] == a.drop_first()[k] by {
                assert(b.take(a.len() as int)[k + 1] == a[k + 1]);
            }
        }
        lemma_lex_order_prefix(a.drop_first(), b.drop_first());
    }
}

/// The binary search for `needle` among the terms with index in
/// `low..high`.
pub open spec fn search(src: Seq<u8>, h: Header, needle: Seq<u8>, low: int, high: int) -> Result<Option<u32>, FifError>
    decreases high - low,
{
    if low >= high {
        Ok(None)
    } else {
        let middle = low + (high - low) / 2;
        match term_at(src, h, middle as u32) {
            Err(e) => Err(e),
            Ok(None) => Ok(None),
            Ok(Some(t)) => match lex_order(encode_utf8(t), needle) {
                Order::Less => search(src, h, needle, middle + 1, high),
                Order::Greater => search(src, h, needle, low, middle),
                Order::Equal => Ok(Some(middle as u32)),
            },
        }
    }
}

/// The index of the term whose UTF-8 bytes are `needle`, as binary search
/// finds it.
pub open spec fn find_term_result(src: Seq<u8>, h: Header, needle: Seq<u8>) -> Result<Option<u32>, FifError> {
    search(src, h, needle, 0, h.term_count as int)
}

/// The posting list of the term whose bytes are `needle`.
pub open spec fn postings_for(src: Seq<u8>, h: Header, needle: Seq<u8>) -> Result<Option<Seq<u32>>, FifError> {
    match find_term_result(src, h, needle) {
        Err(e) => Err(e),
        Ok(None) => Ok(None),
        Ok(Some(i)) => postings_at(src, h, i),
    }
}

/// Whether binary search for `x` in `s[low..high]` finds it.
pub open spec fn bisect(s: Seq<u32>, x: u32, low: int, high: int) -> bool
    decreases high - low,
{
    if low >= high || low < 0 || high > s.len() {
        false
    } else {
        let middle = low + (high - low) / 2;
        if s[middle] == x {
            true
        } else if s[middle] < x {
            bisect(s, x, middle + 1, high)
        } else {
            bisect(s, x, low, middle)
        }
    }
}

/// The documents of `matches` that binary search finds in `postings`.
pub open spec fn keep_found(matches: Seq<u32>, postings: Seq<u32>) -> Seq<u32> {
    matches.filter(|d: u32| bisect(postings, d, 0, postings.len() as int))
}

/// The AND search over the query terms from `i` on, starting from `matches`.
pub open spec fn and_rest(src: Seq<u8>, h: Header, query: Seq<Seq<u8>>, i: int, matches: Seq<u32>) -> Result<Seq<u32>, FifError>
    decreases query.len() - i,
{
    if i < 0 || i >= query.len() {
        Ok(matches)
    } else {
        match postings_for(src, h, query[i]) {
            Err(e) => Err(e),
            Ok(None) => Ok(seq![]),
            Ok(Some(p)) => and_rest(src, h, query, i + 1, keep_found(matches, p)),
        }
    }
}

/// The documents that hold every query term, in the order of the first
/// term's posting list.
pub open spec fn and_search_result(src: Seq<u8>, h: Header, query: Seq<Seq<u8>>) -> Result<Seq<u32>, FifError> {
    if query.len() == 0 {
        Ok(seq![])
    } else {
        match postings_for(src, h, query[0]) {
            Err(e) => Err(e),
            Ok(None) => Ok(seq![]),
            Ok(Some(first)) => and_rest(src, h, query, 1, first),
        }
    }
}

/// The UTF-8 bytes of each query term.
pub open spec fn query_bytes(query: Seq<String>) -> Seq<Seq<u8>> {
    query.map_values(|t: String| encode_utf8(t@))
}

/// `r` is the string read that `s` describes.
pub open spec fn text_matches(r: Result<Option<String>, FifError>, s: Result<Option<Seq<char>>, FifError>) -> bool {
    match (r, s) {
        (Ok(None), Ok(None)) => true,
        (Ok(Some(a)), Ok(Some(b))) => a@ == b,
        (Err(e1), Err(e2)) => e1 == e2,
        _ => false,
    }
}

/// `r` is the list read that `s` describes.
pub open spec fn list_matches(r: Result<Option<Vec<u32>>, FifError>, s: Result<Option<Seq<u32>>, FifError>) -> bool {
    match (r, s) {
        (Ok(None), Ok(None)) => true,
        (Ok(Some(a)), Ok(Some(b))) => a@ == b,
        (Err(e1), Err(e2)) => e1 == e2,
        _ => false,
    }
}

// ---------------------------------------------------------------------------
// Helpers.
// ---------------------------------------------------------------------------

pub proof fn lemma_nul_from_skip(src: Seq<u8>, a: int, b: int)
    requires
        0 <= a <= b,
        forall|k: int| a <= k < b ==> src[k] != 0,
        b <= src.len(),
    ensures
        nul_from(src, a) == nul_from(src, b),
    decreases b - a,
{
    if a < b {
        lemma_nul_from_skip(src, a + 1, b);
    }
}

/// Builds a `String` from UTF-8 bytes (`String::from_utf8`).
///
/// Trusted: the result is present exactly when the bytes are valid UTF-8,
/// and then holds the characters they encode.
#[verifier::external_body]
fn string_from_utf8(bytes: Vec<u8>) -> (r: Option<String>)
    ensures
        r is Some <==> valid_utf8(bytes@),
        r matches Some(s) ==> s@ == decode_utf8(bytes@),
{
    String::from_utf8(bytes).ok()
}

/// Compares two byte strings lexicographically.
pub fn compare_bytes(a: &[u8], b: &[u8]) -> (r: Order)
    ensures
        r == lex_order(a@, b@),
{
    let mut i: usize = 0;
    assert(a@.skip(0) == a@);
    assert(b@.skip(0) == b@);
    while i < a.len() && i < b.len()
        invariant
            i <= a@.len(),
            i <= b@.len(),
            lex_order(a@, b@) == lex_order(a@.skip(i as int), b@.skip(i as int)),
        decreases a@.len() - i,
    {
        if a[i] < b[i] {
            return Order::Less;
        }
        if a[i] > b[i] {
            return Order::Greater;
        }
        assert(a@.skip(i as int).drop_first() == a@.skip(i + 1));
        assert(b@.skip(i as int).drop_first() == b@.skip(i + 1));
        i = i + 1;
    }
    if i < a.len() {
        Order::Greater
    } else if i < b.len() {
        Order::Less
    } else {
        Order::Equal
    }
}

/// Whether binary search finds `x` in `s` (the search of
/// `slice::binary_search`, which is exact on sorted slices).
pub fn binary_contains(s: &Vec<u32>, x: u32) -> (r: bool)
    ensures
        r == bisect(s@, x, 0, s@.len() as int),
{
    let mut low: usize = 0;
    let mut high: usize = s.len();
    while low < high
        invariant
            low <= high <= s@.len(),
            bisect(s@, x, low as int, high as int) == bisect(s@, x, 0, s@.len() as int),
        decreases high - low,
    {
        let middle = low + (high - low) / 2;
        if s[middle] == x {
            return true;
        } else if s[middle] < x {
            low = middle + 1;
        } else {
            high = middle;
        }
    }
    false
}

/// The documents of `matches` that binary search finds in `postings`, in
/// their order.
pub fn retain_found(matches: &Vec<u32>, postings: &Vec<u32>) -> (r: Vec<u32>)
    ensures
        r@ == keep_found(matches@, postings@),
{
    let mut kept: Vec<u32> = Vec::new();
    let mut j: usize = 0;
    while j < matches.len()
        invariant
            j <= matches@.len(),
            kept@ == matches@.take(j as int).filter(
                |d: u32| bisect(postings@, d, 0, postings@.len() as int),
            ),
        decreases matches@.len() - j,
    {
        let d = matches[j];
        let found = binary_contains(postings, d);
        proof {
            reveal(Seq::filter);
            assert(matches@.take(j + 1).drop_last() == matches@.take(j as int));
        }
        if found {
            kept.push(d);
        }
        j = j + 1;
    }
    assert(matches@.take(j as int) == matches@);
    kept
}

/// Checks that `len` bytes at `offset` lie inside a file of `source_len`
/// bytes.
fn ensure_range(source_len: u64, offset: u64, len: u64, region: Region) -> (r: Result<(), FifError>)
    ensures
        r == as_result(range_error(source_len as int, offset as int, len as int, region)),
{
    match offset.checked_add(len) {
        None => Err(FifError::OffsetOverflow(region)),
        Some(end) => if end > source_len {
            Err(FifError::OutOfBounds(region))
        } else {
            Ok(())
        },
    }
}

/// The byte offset of entry `index` of a table at `table_offset`.
fn table_entry(table_offset: u32, index: u32, entry_size: u64) -> (r: Result<u64, FifError>)
    ensures
        index * entry_size + table_offset <= u64::MAX ==> r == Ok::<u64, FifError>(
            (table_offset + index * entry_size) as u64,
        ),
        index * entry_size + table_offset > u64::MAX ==> r == Err::<u64, FifError>(
            FifError::EntryOffsetOverflow,
        ),
{
    match (index as u64).checked_mul(entry_size) {
        None => Err(FifError::EntryOffsetOverflow),
        Some(relative) => match (table_offset as u64).checked_add(relative) {
            None => Err(FifError::EntryOffsetOverflow),
            Some(entry) => Ok(entry),
        },
    }
}

/// Checks that a table of `count` entries lies after the header and inside
/// the file.
fn validate_table(source_len: u64, offset: u32, count: u32, entry_size: u64, region: Region) -> (r: Result<(), FifError>)
    ensures
        r == as_result(table_check(source_len as int, offset, count, entry_size as int, region)),
{
    if count == 0 {
        return Ok(());
    }
    if (offset as u64) < HEADER_SIZE {
        return Err(FifError::InvalidTableOffset(region));
    }
    match (count as u64).checked_mul(entry_size) {
        None => Err(FifError::TableTooLarge(region)),
        Some(byte_len) => ensure_range(source_len, offset as u64, byte_len, region),
    }
}

// ---------------------------------------------------------------------------
// Reading on demand. A reader holds the header and the file's length, never
// the file: each read is a task that asks its caller for the bytes it needs,
// one request at a time, and finishes with its result.
// ---------------------------------------------------------------------------

/// A request for the `len` bytes at `offset` of the file.
#[derive(Clone, Copy, PartialEq, Eq, Debug)]
pub struct Request {
    pub offset: u64,
    pub len: u64,
}

/// What a task does next: ask for bytes, or finish with its result.
#[derive(Debug)]
pub enum Step<T> {
    Read(Request),
    Done(T),
}

/// `reply` holds the bytes of `src` that `req` asks for.
pub open spec fn answers(src: Seq<u8>, req: Request, reply: Seq<u8>) -> bool {
    &&& req.offset + req.len <= src.len()
    &&& reply == src.subrange(req.offset as int, req.offset + req.len)
}

/// `src` is a file of `file_len` bytes and `reply` answers the request
/// `pending`, if there is one, over it.
pub open spec fn fits(src: Seq<u8>, file_len: u64, pending: Option<Request>, reply: Seq<u8>) -> bool {
    &&& src.len() == file_len
    &&& match pending {
        None => true,
        Some(req) => answers(src, req, reply),
    }
}

/// A string read, given as a string or an error.
pub open spec fn some_text(r: Result<Seq<char>, FifError>) -> Result<Option<Seq<char>>, FifError> {
    match r {
        Err(e) => Err(e),
        Ok(s) => Ok(Some(s)),
    }
}

/// The string named by the string offset stored at `entry`.
pub open spec fn entry_text(src: Seq<u8>, entry: int) -> Result<Option<Seq<char>>, FifError> {
    match field_at(src, entry) {
        Err(e) => Err(e),
        Ok(offset) => some_text(string_at(src, offset as int)),
    }
}

/// `pos` lies in the string named by the string offset stored at `entry`:
/// at or after its start, with no zero byte before it.
pub open spec fn within_string(src: Seq<u8>, entry: int, pos: int) -> bool {
    let start = u32_at(src, entry) as int;
    &&& start <= pos
    &&& forall|k: int| start <= k < pos ==> src[k] != 0
}

/// `req` reads the table entry at `entry`, or one byte of the string it
/// names.
pub open spec fn reads_entry_or_string(src: Seq<u8>, entry: int, req: Request) -> bool {
    ||| req.offset == entry && req.len == 4
    ||| req.len == 1 && within_string(src, entry, req.offset as int)
}

/// The string whose first bytes are `bytes`, the next one being at `pos`.
pub open spec fn rest_of_string(src: Seq<u8>, bytes: Seq<u8>, pos: int) -> Result<Seq<char>, FifError> {
    match nul_from(src, pos) {
        None => Err(FifError::Unterminated),
        Some(end) => {
            let all = bytes + src.subrange(pos, end);
            if valid_utf8(all) {
                Ok(decode_utf8(all))
            } else {
                Err(FifError::InvalidUtf8)
            }
        },
    }
}

proof fn lemma_nul_from_bounds(src: Seq<u8>, i: int)
    ensures
        nul_from(src, i) matches Some(e) ==> i <= e < src.len() && src[e] == 0,
    decreases src.len() - i,
{
    if 0 <= i < src.len() && src[i] != 0 {
        lemma_nul_from_bounds(src, i + 1);
    }
}

proof fn lemma_rest_of_string_start(src: Seq<u8>, offset: int)
    requires
        0 <= offset,
        offset + 1 <= src.len(),
    ensures
        rest_of_string(src, Seq::empty(), offset) == string_at(src, offset),
{
    if let Some(end) = nul_from(src, offset) {
        assert(Seq::<u8>::empty() + src.subrange(offset, end) =~= src.subrange(offset, end));
    }
}

proof fn lemma_rest_of_string_next(src: Seq<u8>, bytes: Seq<u8>, pos: int)
    requires
        0 <= pos < src.len(),
        src[pos] != 0,
    ensures
        rest_of_string(src, bytes.push(src[pos]), pos + 1) == rest_of_string(src, bytes, pos),
        pos + 1 == src.len() ==> rest_of_string(src, bytes, pos) == Err::<Seq<char>, FifError>(
            FifError::Unterminated,
        ),
{
    assert(nul_from(src, pos) == nul_from(src, pos + 1));
    lemma_nul_from_bounds(src, pos + 1);
    if let Some(end) = nul_from(src, pos + 1) {
        assert(bytes.push(src[pos]) + src.subrange(pos + 1, end) =~= bytes + src.subrange(pos, end));
    }
}

proof fn lemma_rest_of_string_end(src: Seq<u8>, bytes: Seq<u8>, pos: int)
    requires
        0 <= pos < src.len(),
        src[pos] == 0,
    ensures
        rest_of_string(src, bytes, pos) == (if valid_utf8(bytes) {
            Ok::<Seq<char>, FifError>(decode_utf8(bytes))
        } else {
            Err::<Seq<char>, FifError>(FifError::InvalidUtf8)
        }),
{
    assert(bytes + src.subrange(pos, pos) =~= bytes);
}

/// The `u32` that a four-byte reply holds is the field it answers for.
proof fn lemma_reply_field(src: Seq<u8>, reply: Seq<u8>, at: int, k: int)
    requires
        0 <= at,
        0 <= k,
        k + 4 <= reply.len(),
        at + reply.len() <= src.len(),
        reply == src.subrange(at, at + reply.len()),
    ensures
        u32_at(reply, k) == u32_at(src, at + k),
{
    assert(reply[k] == src[at + k]);
    assert(reply[k + 1] == src[at + k + 1]);
    assert(reply[k + 2] == src[at + k + 2]);
    assert(reply[k + 3] == src[at + k + 3]);
}

/// The bytes of `file` that `request` asks for.
fn bytes_at(file: &Vec<u8>, request: Request) -> (r: Vec<u8>)
    requires
        request.offset + request.len <= file@.len(),
    ensures
        r@ == file@.subrange(request.offset as int, request.offset + request.len),
{
    let n = file.len();
    assert(request.offset + request.len <= n);
    let start = request.offset as usize;
    let end = (request.offset + request.len) as usize;
    let mut bytes: Vec<u8> = Vec::new();
    let mut i = start;
    while i < end
        invariant
            start <= i <= end <= file@.len(),
            start == request.offset,
            end == request.offset + request.len,
            bytes@ == file@.subrange(start as int, i as int),
        decreases end - i,
    {
        bytes.push(file[i]);
        i = i + 1;
        assert(bytes@ == file@.subrange(start as int, i as int));
    }
    bytes
}

enum TextPhase {
    Start { table_offset: u32, count: u32, index: u32 },
    Entry { entry: u64 },
    Text { bytes: Vec<u8>, pos: u64 },
    Finished,
}

/// Reading the string named by one entry of a table of string offsets: a
/// document's path or a term. It reads the entry, then the string one byte
/// at a time up to its terminating zero.
pub struct TextRead {
    file_len: u64,
    phase: TextPhase,
    entry: Ghost<int>,
}

impl TextRead {
    /// The length of the file read.
    pub closed spec fn file_len(&self) -> u64 {
        self.file_len
    }

    /// Nothing has been asked yet.
    pub closed spec fn fresh(&self) -> bool {
        self.phase is Start
    }

    /// Nothing has been asked yet, and the index is at or past the count:
    /// the read finishes at once with `None`.
    pub closed spec fn past_end(&self) -> bool {
        match self.phase {
            TextPhase::Start { count, index, .. } => index >= count,
            _ => false,
        }
    }

    /// A bound on the steps left: every request lowers it.
    pub closed spec fn remaining(&self) -> nat {
        match self.phase {
            TextPhase::Start { .. } => (self.file_len + 3) as nat,
            TextPhase::Entry { .. } => (self.file_len + 2) as nat,
            TextPhase::Text { pos, .. } => if pos <= self.file_len {
                (self.file_len - pos) as nat
            } else {
                0
            },
            TextPhase::Finished => 0,
        }
    }

    /// Where the table entry that the read starts from lies.
    pub closed spec fn entry(&self) -> int {
        match self.phase {
            TextPhase::Start { table_offset, index, .. } => table_offset + 4 * index,
            _ => self.entry@,
        }
    }

    /// The read so far agrees with the file `src`: the string bytes taken
    /// are those of the string that the entry names.
    pub closed spec fn consistent(&self, src: Seq<u8>) -> bool {
        match self.phase {
            TextPhase::Start { .. } => true,
            TextPhase::Entry { entry } => self.entry@ == entry,
            TextPhase::Text { bytes, pos } => {
                &&& u32_at(src, self.entry@) + bytes@.len() == pos
                &&& within_string(src, self.entry@, pos as int)
            },
            TextPhase::Finished => true,
        }
    }

    /// The request that the next step expects answered.
    pub closed spec fn pending(&self) -> Option<Request> {
        match self.phase {
            TextPhase::Entry { entry } => Some(Request { offset: entry, len: 4 }),
            TextPhase::Text { pos, .. } => Some(Request { offset: pos, len: 1 }),
            _ => None,
        }
    }

    /// The result that the read gives on the file `src`.
    pub closed spec fn outcome(&self, src: Seq<u8>) -> Result<Option<Seq<char>>, FifError> {
        match self.phase {
            TextPhase::Start { table_offset, count, index } => entry_string(src, table_offset, count, index),
            TextPhase::Entry { entry } => entry_text(src, entry as int),
            TextPhase::Text { bytes, pos } => some_text(rest_of_string(src, bytes@, pos as int)),
            TextPhase::Finished => Ok(None),
        }
    }

    fn new(file_len: u64, table_offset: u32, count: u32, index: u32) -> (t: TextRead)
        ensures
            t.file_len() == file_len,
            t.fresh(),
            t.pending() is None,
            forall|src: Seq<u8>| #[trigger] t.outcome(src) == entry_string(src, table_offset, count, index),
            t.remaining() == file_len + 3,
            t.past_end() == (index >= count),
            t.entry() == table_offset + 4 * index,
            forall|src: Seq<u8>| #[trigger] t.consistent(src),
    {
        TextRead {
            file_len,
            phase: TextPhase::Start { table_offset, count, index },
            entry: Ghost(table_offset + 4 * index),
        }
    }

    /// Runs the task on a file held in memory, answering each request with
    /// the bytes asked for; the result is what the task gives on that file.
    pub fn run(self, file: &Vec<u8>) -> (r: Result<Option<String>, FifError>)
        requires
            self.pending() is None,
            file@.len() == self.file_len(),
        ensures
            text_matches(r, self.outcome(file@)),
    {
        let mut task = self;
        let ghost goal = task.outcome(file@);
        let mut reply: Vec<u8> = Vec::new();
        loop
            invariant
                file@.len() == task.file_len(),
                fits(file@, task.file_len(), task.pending(), reply@),
                task.outcome(file@) == goal,
                goal == self.outcome(file@),
            decreases task.remaining(),
        {
            match task.step(reply) {
                Step::Read(request) => {
                    reply = bytes_at(file, request);
                },
                Step::Done(result) => {
                    return result;
                },
            }
        }
    }

    /// Takes the reply to the pending request (anything when there is none)
    /// and returns the next request or the result.
    pub fn step(&mut self, reply: Vec<u8>) -> (r: Step<Result<Option<String>, FifError>>)
        ensures
            final(self).file_len() == old(self).file_len(),
            old(self).fresh() ==> !(r matches Step::Done(Ok(Some(_)))),
            old(self).past_end() ==> r matches Step::Done(Ok(None)),
            r matches Step::Read(_) ==> final(self).remaining() < old(self).remaining(),
            r matches Step::Read(_) ==> final(self).entry() == old(self).entry(),
            old(self).fresh() ==> (r matches Step::Read(req) ==> req.offset == old(self).entry() && req.len == 4
                && forall|src: Seq<u8>| #[trigger] final(self).consistent(src)),
            forall|src: Seq<u8>|
                #[trigger] fits(src, old(self).file_len(), old(self).pending(), reply@) && old(self).consistent(src)
                    ==> (r matches Step::Read(req) ==> final(self).consistent(src)
                        && reads_entry_or_string(src, old(self).entry(), req)),
            r matches Step::Read(req) ==> final(self).pending() == Some(req)
                && req.offset + req.len <= old(self).file_len() && 1 <= req.len <= 4,
            forall|src: Seq<u8>| #[trigger] fits(src, old(self).file_len(), old(self).pending(), reply@)
                ==> match r {
                    Step::Read(_) => final(self).outcome(src) == old(self).outcome(src),
                    Step::Done(v) => text_matches(v, old(self).outcome(src)),
                },
    {
        let mut phase = TextPhase::Finished;
        std::mem::swap(&mut phase, &mut self.phase);
        match phase {
            TextPhase::Start { table_offset, count, index } => self.open_entry(table_offset, count, index, reply),
            TextPhase::Entry { entry } => self.read_u32_at(entry, reply),
            TextPhase::Text { bytes, pos } => self.read_string_at(bytes, pos, reply),
            TextPhase::Finished => Step::Done(Ok(None)),
        }
    }

    /// Checks the entry and asks for it.
    fn open_entry(&mut self, table_offset: u32, count: u32, index: u32, reply: Vec<u8>) -> (r: Step<Result<Option<String>, FifError>>)
        ensures
            final(self).file_len() == old(self).file_len(),
            !(r matches Step::Done(Ok(Some(_)))),
            index >= count ==> r matches Step::Done(Ok(None)),
            r matches Step::Read(req) ==> final(self).entry() == table_offset + 4 * index
                && req.offset == table_offset + 4 * index && req.len == 4
                && forall|src: Seq<u8>| #[trigger] final(self).consistent(src),
            r matches Step::Read(_) ==> final(self).remaining() < old(self).file_len() + 3,
            r matches Step::Read(req) ==> final(self).pending() == Some(req)
                && req.offset + req.len <= old(self).file_len() && 1 <= req.len <= 4,
            forall|src: Seq<u8>| #[trigger] fits(src, old(self).file_len(), None, reply@) ==> match r {
                Step::Read(_) => final(self).outcome(src) == entry_string(src, table_offset, count, index),
                Step::Done(v) => text_matches(v, entry_string(src, table_offset, count, index)),
            },
    {
        if index >= count {
            return Step::Done(Ok(None));
        }
        let entry = match table_entry(table_offset, index, 4) {
            Err(e) => return Step::Done(Err(e)),
            Ok(entry) => entry,
        };
        match ensure_range(self.file_len, entry, 4, Region::Field) {
            Err(e) => return Step::Done(Err(e)),
            Ok(()) => {},
        }
        self.phase = TextPhase::Entry { entry };
        self.entry = Ghost(entry as int);
        Step::Read(Request { offset: entry, len: 4 })
    }

    /// Takes the string offset stored in the entry and asks for the
    /// string's first byte.
    fn read_u32_at(&mut self, entry: u64, reply: Vec<u8>) -> (r: Step<Result<Option<String>, FifError>>)
        requires
            old(self).phase is Finished,
        ensures
            final(self).file_len() == old(self).file_len(),
            r matches Step::Read(_) ==> final(self).remaining() < old(self).file_len() + 2,
            final(self).entry() == old(self).entry(),
            old(self).entry() == entry ==> forall|src: Seq<u8>|
                #[trigger] fits(src, old(self).file_len(), Some(Request { offset: entry, len: 4 }), reply@)
                    ==> (r matches Step::Read(req) ==> final(self).consistent(src)
                        && reads_entry_or_string(src, old(self).entry(), req)),
            r matches Step::Read(req) ==> final(self).pending() == Some(req)
                && req.offset + req.len <= old(self).file_len() && 1 <= req.len <= 4,
            forall|src: Seq<u8>| #[trigger] fits(src, old(self).file_len(), Some(Request { offset: entry, len: 4 }), reply@)
                ==> match r {
                    Step::Read(_) => final(self).outcome(src) == entry_text(src, entry as int),
                    Step::Done(v) => text_matches(v, entry_text(src, entry as int)),
                },
    {
        if reply.len() != 4 {
            return Step::Done(Err(FifError::UnexpectedEof));
        }
        let offset = read_u32(&reply, 0);
        let ghost fl = self.file_len;
        assert forall|src: Seq<u8>| #[trigger] fits(src, fl, Some(Request { offset: entry, len: 4 }), reply@)
            implies field_at(src, entry as int) == Ok::<u32, FifError>(offset) by {
            lemma_reply_field(src, reply@, entry as int, 0);
        }
        match ensure_range(self.file_len, offset as u64, 1, Region::Text) {
            Err(e) => return Step::Done(Err(e)),
            Ok(()) => {},
        }
        self.phase = TextPhase::Text { bytes: Vec::new(), pos: offset as u64 };
        assert forall|src: Seq<u8>| #[trigger] fits(src, fl, Some(Request { offset: entry, len: 4 }), reply@)
            implies self.outcome(src) == entry_text(src, entry as int) by {
            lemma_rest_of_string_start(src, offset as int);
        }
        Step::Read(Request { offset: offset as u64, len: 1 })
    }

    /// Takes the next byte of the string: the end of the string at a zero,
    /// else a request for the byte after it.
    fn read_string_at(&mut self, bytes: Vec<u8>, pos: u64, reply: Vec<u8>) -> (r: Step<Result<Option<String>, FifError>>)
        requires
            old(self).phase is Finished,
        ensures
            final(self).file_len() == old(self).file_len(),
            r matches Step::Read(_) ==> pos < old(self).file_len() && final(self).remaining() < old(self).file_len() - pos,
            final(self).entry() == old(self).entry(),
            forall|src: Seq<u8>|
                #[trigger] fits(src, old(self).file_len(), Some(Request { offset: pos, len: 1 }), reply@)
                    && u32_at(src, old(self).entry()) + bytes@.len() == pos
                    && within_string(src, old(self).entry(), pos as int)
                    ==> (r matches Step::Read(req) ==> final(self).consistent(src)
                        && reads_entry_or_string(src, old(self).entry(), req)),
            r matches Step::Read(req) ==> final(self).pending() == Some(req)
                && req.offset + req.len <= old(self).file_len() && 1 <= req.len <= 4,
            forall|src: Seq<u8>| #[trigger] fits(src, old(self).file_len(), Some(Request { offset: pos, len: 1 }), reply@)
                ==> match r {
                    Step::Read(_) => final(self).outcome(src) == some_text(rest_of_string(src, bytes@, pos as int)),
                    Step::Done(v) => text_matches(v, some_text(rest_of_string(src, bytes@, pos as int))),
                },
    {
        if reply.len() != 1 || pos >= self.file_len {
            return Step::Done(Err(FifError::UnexpectedEof));
        }
        let ghost fl = self.file_len;
        let ghost before = bytes@;
        let b = reply[0];
        assert forall|src: Seq<u8>| #[trigger] fits(src, fl, Some(Request { offset: pos, len: 1 }), reply@)
            implies src[pos as int] == b by {
            assert(reply@[0] == src[pos as int]);
        }
        if b == 0 {
            assert forall|src: Seq<u8>| #[trigger] fits(src, fl, Some(Request { offset: pos, len: 1 }), reply@)
                implies rest_of_string(src, before, pos as int) == (if valid_utf8(before) {
                    Ok::<Seq<char>, FifError>(decode_utf8(before))
                } else {
                    Err::<Seq<char>, FifError>(FifError::InvalidUtf8)
                }) by {
                lemma_rest_of_string_end(src, before, pos as int);
            }
            return match string_from_utf8(bytes) {
                Some(s) => Step::Done(Ok(Some(s))),
                None => Step::Done(Err(FifError::InvalidUtf8)),
            };
        }
        assert forall|src: Seq<u8>| #[trigger] fits(src, fl, Some(Request { offset: pos, len: 1 }), reply@)
            implies rest_of_string(src, before.push(b), pos + 1) == rest_of_string(src, before, pos as int)
                && (pos + 1 == fl ==> rest_of_string(src, before, pos as int) == Err::<Seq<char>, FifError>(
                    FifError::Unterminated,
                )) by {
            lemma_rest_of_string_next(src, before, pos as int);
        }
        let mut bytes = bytes;
        bytes.push(b);
        let next = pos + 1;
        if next >= self.file_len {
            return Step::Done(Err(FifError::Unterminated));
        }
        self.phase = TextPhase::Text { bytes, pos: next };
        Step::Read(Request { offset: next, len: 1 })
    }
}

/// The posting list of `count` ids stored at `offset`.
pub open spec fn list_at(src: Seq<u8>, offset: u32, count: u32) -> Result<Option<Seq<u32>>, FifError> {
    if offset + 4 * count > src.len() {
        Err(FifError::OutOfBounds(Region::PostingList))
    } else {
        Ok(Some(Seq::new(count as nat, |i: int| u32_at(src, offset + 4 * i))))
    }
}

/// The posting list named by the posting-table entry at `entry`.
pub open spec fn entry_list(src: Seq<u8>, entry: int) -> Result<Option<Seq<u32>>, FifError> {
    match field_at(src, entry) {
        Err(e) => Err(e),
        Ok(offset) => match field_at(src, entry + 4) {
            Err(e) => Err(e),
            Ok(count) => list_at(src, offset, count),
        },
    }
}

enum ListPhase {
    Start { header: Header, index: u32 },
    Entry { entry: u64 },
    Ids { offset: u32, count: u32 },
    Finished,
}

/// Reading the posting list of one term: the posting-table entry, then the
/// list's ids in one request.
pub struct ListRead {
    file_len: u64,
    phase: ListPhase,
}

impl ListRead {
    /// The length of the file read.
    pub closed spec fn file_len(&self) -> u64 {
        self.file_len
    }

    /// Nothing has been asked yet.
    pub closed spec fn fresh(&self) -> bool {
        self.phase is Start
    }

    /// Nothing has been asked yet, and the index is at or past the count:
    /// the read finishes at once with `None`.
    pub closed spec fn past_end(&self) -> bool {
        match self.phase {
            ListPhase::Start { header, index } => index >= header.posting_count,
            _ => false,
        }
    }

    /// A bound on the steps left: every request lowers it.
    pub closed spec fn remaining(&self) -> nat {
        match self.phase {
            ListPhase::Start { .. } => 3,
            ListPhase::Entry { .. } => 2,
            ListPhase::Ids { .. } => 1,
            ListPhase::Finished => 0,
        }
    }

    /// The request that the next step expects answered.
    pub closed spec fn pending(&self) -> Option<Request> {
        match self.phase {
            ListPhase::Entry { entry } => Some(Request { offset: entry, len: 8 }),
            ListPhase::Ids { offset, count } => Some(Request { offset: offset as u64, len: (4 * count) as u64 }),
            _ => None,
        }
    }

    /// The result that the read gives on the file `src`.
    pub closed spec fn outcome(&self, src: Seq<u8>) -> Result<Option<Seq<u32>>, FifError> {
        match self.phase {
            ListPhase::Start { header, index } => postings_at(src, header, index),
            ListPhase::Entry { entry } => entry_list(src, entry as int),
            ListPhase::Ids { offset, count } => Ok(Some(Seq::new(count as nat, |i: int| u32_at(src, offset + 4 * i)))),
            ListPhase::Finished => Ok(None),
        }
    }

    fn new(file_len: u64, header: Header, index: u32) -> (t: ListRead)
        ensures
            t.file_len() == file_len,
            t.fresh(),
            t.pending() is None,
            forall|src: Seq<u8>| #[trigger] t.outcome(src) == postings_at(src, header, index),
            t.remaining() == 3,
            t.past_end() == (index >= header.posting_count),
    {
        ListRead { file_len, phase: ListPhase::Start { header, index } }
    }

    /// Runs the task on a file held in memory, answering each request with
    /// the bytes asked for; the result is what the task gives on that file.
    pub fn run(self, file: &Vec<u8>) -> (r: Result<Option<Vec<u32>>, FifError>)
        requires
            self.pending() is None,
            file@.len() == self.file_len(),
        ensures
            list_matches(r, self.outcome(file@)),
    {
        let mut task = self;
        let ghost goal = task.outcome(file@);
        let mut reply: Vec<u8> = Vec::new();
        loop
            invariant
                file@.len() == task.file_len(),
                fits(file@, task.file_len(), task.pending(), reply@),
                task.outcome(file@) == goal,
                goal == self.outcome(file@),
            decreases task.remaining(),
        {
            match task.step(reply) {
                Step::Read(request) => {
                    reply = bytes_at(file, request);
                },
                Step::Done(result) => {
                    return result;
                },
            }
        }
    }

    /// Takes the reply to the pending request (anything when there is none)
    /// and returns the next request or the result.
    pub fn step(&mut self, reply: Vec<u8>) -> (r: Step<Result<Option<Vec<u32>>, FifError>>)
        ensures
            final(self).file_len() == old(self).file_len(),
            final(self).remaining() <= 3,
            old(self).fresh() ==> !(r matches Step::Done(Ok(Some(_)))),
            old(self).past_end() ==> r matches Step::Done(Ok(None)),
            r matches Step::Read(_) ==> final(self).remaining() < old(self).remaining(),
            r matches Step::Read(req) ==> final(self).pending() == Some(req)
                && req.offset + req.len <= old(self).file_len(),
            forall|src: Seq<u8>| #[trigger] fits(src, old(self).file_len(), old(self).pending(), reply@)
                ==> match r {
                    Step::Read(_) => final(self).outcome(src) == old(self).outcome(src),
                    Step::Done(v) => list_matches(v, old(self).outcome(src)),
                },
    {
        let mut phase = ListPhase::Finished;
        std::mem::swap(&mut phase, &mut self.phase);
        match phase {
            ListPhase::Start { header, index } => {
                let r = self.open_entry(header, index);
                assert forall|src: Seq<u8>| #[trigger] fits(src, old(self).file_len(), old(self).pending(), reply@)
                    implies match r {
                        Step::Read(_) => self.outcome(src) == old(self).outcome(src),
                        Step::Done(v) => list_matches(v, old(self).outcome(src)),
                    } by {
                    assert(old(self).outcome(src) == postings_at(src, header, index));
                }
                r
            },
            ListPhase::Entry { entry } => self.read_entry(entry, reply),
            ListPhase::Ids { offset, count } => Self::read_ids(self.file_len, offset, count, reply),
            ListPhase::Finished => Step::Done(Ok(None)),
        }
    }

    /// Checks the entry and asks for it.
    fn open_entry(&mut self, header: Header, index: u32) -> (r: Step<Result<Option<Vec<u32>>, FifError>>)
        ensures
            final(self).file_len() == old(self).file_len(),
            !(r matches Step::Done(Ok(Some(_)))),
            index >= header.posting_count ==> r matches Step::Done(Ok(None)),
            r matches Step::Read(_) ==> final(self).remaining() == 2,
            r matches Step::Read(req) ==> final(self).pending() == Some(req)
                && req.offset + req.len <= old(self).file_len(),
            forall|src: Seq<u8>| src.len() == old(self).file_len() ==> match r {
                Step::Read(_) => final(self).outcome(src) == #[trigger] postings_at(src, header, index),
                Step::Done(v) => list_matches(v, postings_at(src, header, index)),
            },
    {
        if index >= header.posting_count {
            return Step::Done(Ok(None));
        }
        let entry = match table_entry(header.posting_table_offset, index, 8) {
            Err(e) => return Step::Done(Err(e)),
            Ok(entry) => entry,
        };
        match ensure_range(self.file_len, entry, 8, Region::Field) {
            Err(e) => return Step::Done(Err(e)),
            Ok(()) => {},
        }
        self.phase = ListPhase::Entry { entry };
        Step::Read(Request { offset: entry, len: 8 })
    }

    /// Takes the list's offset and length and asks for its ids.
    fn read_entry(&mut self, entry: u64, reply: Vec<u8>) -> (r: Step<Result<Option<Vec<u32>>, FifError>>)
        ensures
            final(self).file_len() == old(self).file_len(),
            r matches Step::Read(_) ==> final(self).remaining() == 1,
            r matches Step::Read(req) ==> final(self).pending() == Some(req)
                && req.offset + req.len <= old(self).file_len(),
            forall|src: Seq<u8>| #[trigger] fits(src, old(self).file_len(), Some(Request { offset: entry, len: 8 }), reply@)
                ==> match r {
                    Step::Read(_) => final(self).outcome(src) == entry_list(src, entry as int),
                    Step::Done(v) => list_matches(v, entry_list(src, entry as int)),
                },
    {
        if reply.len() != 8 {
            return Step::Done(Err(FifError::UnexpectedEof));
        }
        let offset = read_u32(&reply, 0);
        let count = read_u32(&reply, 4);
        let ghost fl = self.file_len;
        assert forall|src: Seq<u8>| #[trigger] fits(src, fl, Some(Request { offset: entry, len: 8 }), reply@)
            implies field_at(src, entry as int) == Ok::<u32, FifError>(offset)
                && field_at(src, entry + 4) == Ok::<u32, FifError>(count) by {
            lemma_reply_field(src, reply@, entry as int, 0);
            lemma_reply_field(src, reply@, entry as int, 4);
        }
        let byte_len = (count as u64) * 4;
        match ensure_range(self.file_len, offset as u64, byte_len, Region::PostingList) {
            Err(e) => return Step::Done(Err(e)),
            Ok(()) => {},
        }
        if count == 0 {
            let ids: Vec<u32> = Vec::new();
            assert forall|src: Seq<u8>| #[trigger] fits(src, fl, Some(Request { offset: entry, len: 8 }), reply@)
                implies list_matches(Ok(Some(ids)), entry_list(src, entry as int)) by {
                assert(ids@ =~= Seq::new(count as nat, |i: int| u32_at(src, offset + 4 * i)));
            }
            return Step::Done(Ok(Some(ids)));
        }
        self.phase = ListPhase::Ids { offset, count };
        Step::Read(Request { offset: offset as u64, len: byte_len })
    }

    /// Takes the list's ids.
    fn read_ids(file_len: u64, offset: u32, count: u32, reply: Vec<u8>) -> (r: Step<Result<Option<Vec<u32>>, FifError>>)
        ensures
            r is Done,
            forall|src: Seq<u8>| #[trigger] fits(src, file_len, Some(Request { offset: offset as u64, len: (4 * count) as u64 }), reply@)
                ==> (r matches Step::Done(v) && list_matches(
                    v,
                    Ok(Some(Seq::new(count as nat, |i: int| u32_at(src, offset + 4 * i)))),
                )),
    {
        if (reply.len() as u64) != (count as u64) * 4 {
            return Step::Done(Err(FifError::UnexpectedEof));
        }
        let mut ids: Vec<u32> = Vec::new();
        let mut i: u32 = 0;
        let mut pos: usize = 0;
        while i < count
            invariant
                reply@.len() == 4 * count,
                i <= count,
                pos == 4 * i,
                ids@ == Seq::new(i as nat, |k: int| u32_at(reply@, 4 * k)),
            decreases count - i,
        {
            ids.push(read_u32(&reply, pos));
            pos = pos + 4;
            i = i + 1;
            assert(ids@ =~= Seq::new(i as nat, |k: int| u32_at(reply@, 4 * k)));
        }
        assert forall|src: Seq<u8>| #[trigger] fits(src, file_len, Some(Request { offset: offset as u64, len: (4 * count) as u64 }), reply@)
            implies ids@ == Seq::new(count as nat, |k: int| u32_at(src, offset + 4 * k)) by {
            assert forall|k: int| 0 <= k < count implies #[trigger] u32_at(reply@, 4 * k) == u32_at(src, offset + 4 * k) by {
                lemma_reply_field(src, reply@, offset as int, 4 * k);
            }
            assert(ids@ =~= Seq::new(count as nat, |k: int| u32_at(src, offset + 4 * k)));
        }
        Step::Done(Ok(Some(ids)))
    }
}

/// The search for `needle` among the terms with index in `low..high`,
/// given what reading the middle term gave.
pub open spec fn after_term(
    src: Seq<u8>,
    h: Header,
    needle: Seq<u8>,
    low: int,
    high: int,
    term: Result<Option<Seq<char>>, FifError>,
) -> Result<Option<u32>, FifError> {
    let middle = low + (high - low) / 2;
    match term {
        Err(e) => Err(e),
        Ok(None) => Ok(None),
        Ok(Some(t)) => match lex_order(encode_utf8(t), needle) {
            Order::Less => search(src, h, needle, middle + 1, high),
            Order::Greater => search(src, h, needle, low, middle),
            Order::Equal => Ok(Some(middle as u32)),
        },
    }
}

proof fn lemma_probe_bound(n: int, k: nat, m: int)
    requires
        n >= 1,
        n * pow2(k) <= m,
    ensures
        pow2(k + 1) <= 2 * m + 1,
{
    lemma_pow2_unfold(k + 1);
    lemma_pow2_pos(k);
    let p = pow2(k) as int;
    assert(p <= n * p) by (nonlinear_arith)
        requires
            n >= 1,
            p > 0,
    ;
}

proof fn lemma_narrow_bound(n: int, n2: int, k: nat, m: int)
    requires
        k >= 1,
        n * pow2((k - 1) as nat) <= m,
        0 <= n2,
        2 * n2 <= n,
    ensures
        n2 * pow2(k) <= m,
{
    lemma_pow2_unfold(k);
    let p = pow2((k - 1) as nat) as int;
    assert(n2 * (2 * p) <= n * p) by (nonlinear_arith)
        requires
            2 * n2 <= n,
            p >= 0,
            n2 >= 0,
    ;
}

/// A bound on the steps left of looking up one term's posting list in a
/// file of `file_len` bytes with header `h`.
pub open spec fn lookup_bound(h: Header, file_len: u64) -> int {
    (h.term_count + 1) * (file_len + 4) + 4
}

proof fn lemma_mul_succ(a: int, k: int)
    ensures
        (a + 1) * k == a * k + k,
{
    assert((a + 1) * k == a * k + k) by (nonlinear_arith);
}

proof fn lemma_mul_less(a: int, b: int, k: int)
    requires
        0 <= a < b,
        0 <= k,
    ensures
        a * k + k <= b * k,
{
    assert(a * k + k <= b * k) by (nonlinear_arith)
        requires
            0 <= a < b,
            0 <= k,
    ;
}

proof fn lemma_mul_le(a: int, b: int, k: int)
    requires
        0 <= a <= b,
        0 <= k,
    ensures
        a * k <= b * k,
{
    assert(a * k <= b * k) by (nonlinear_arith)
        requires
            0 <= a <= b,
            0 <= k,
    ;
}

enum SearchPhase {
    Begin,
    Reading,
    Finished,
}

/// Binary search for a term. It reads one term at a time, each one the
/// middle of the range that is left, and never more than ⌊log₂ m⌋ + 1 of
/// the file's m terms (none when there are none): `terms_read` counts them,
/// and `2^terms_read <= 2m + 1`. Each request is for at most four bytes.
pub struct TermSearch {
    file_len: u64,
    header: Header,
    needle: Vec<u8>,
    low: u32,
    high: u32,
    phase: SearchPhase,
    current: TextRead,
    terms_read: Ghost<nat>,
    probed: Ghost<Set<u32>>,
}

impl TermSearch {
    /// The length of the file searched.
    pub closed spec fn file_len(&self) -> u64 {
        self.file_len
    }

    /// The header of the file searched.
    pub closed spec fn header(&self) -> Header {
        self.header
    }

    /// How many terms the search has read so far: each is a term-table
    /// entry and the string it names.
    pub closed spec fn terms_read(&self) -> nat {
        self.terms_read@
    }

    /// The indices of the terms read so far.
    pub closed spec fn probed(&self) -> Set<u32> {
        self.probed@
    }

    /// The reads so far agree with the file `src`.
    pub closed spec fn consistent(&self, src: Seq<u8>) -> bool {
        self.phase is Reading ==> self.current.consistent(src)
    }

    /// `req` reads the term-table entry of one of the terms read so far, or
    /// one byte of that term's string.
    pub closed spec fn reads_probed(&self, src: Seq<u8>, req: Request) -> bool {
        exists|i: u32|
            #[trigger] self.probed@.contains(i) && reads_entry_or_string(
                src,
                self.header.term_table_offset + 4 * i,
                req,
            )
    }

    /// Nothing has been asked yet since the last term was compared.
    pub closed spec fn fresh(&self) -> bool {
        self.phase is Begin
    }

    /// Nothing has been asked yet and no term is left to compare: the
    /// search finishes at once with `None`.
    pub closed spec fn exhausted(&self) -> bool {
        self.phase is Begin && self.low >= self.high
    }

    /// A bound on the steps left: every request lowers it.
    pub closed spec fn remaining(&self) -> nat {
        let unit = self.file_len + 4;
        match self.phase {
            SearchPhase::Begin => ((self.high - self.low) * unit + unit - 1) as nat,
            SearchPhase::Reading => ((self.high - self.low) * unit + self.current.remaining()) as nat,
            SearchPhase::Finished => 0,
        }
    }

    /// The request that the next step expects answered.
    pub closed spec fn pending(&self) -> Option<Request> {
        match self.phase {
            SearchPhase::Reading => self.current.pending(),
            _ => None,
        }
    }

    /// The result that the search gives on the file `src`.
    pub closed spec fn outcome(&self, src: Seq<u8>) -> Result<Option<u32>, FifError> {
        match self.phase {
            SearchPhase::Begin => search(src, self.header, self.needle@, self.low as int, self.high as int),
            SearchPhase::Reading => after_term(
                src,
                self.header,
                self.needle@,
                self.low as int,
                self.high as int,
                self.current.outcome(src),
            ),
            SearchPhase::Finished => Ok(None),
        }
    }

    /// The search's own invariant: the range left shrinks at least by half
    /// with every term read.
    pub closed spec fn wf(&self) -> bool {
        let m = self.header.term_count as int;
        let k = self.terms_read@;
        &&& self.low <= self.high
        &&& self.high <= self.header.term_count
        &&& pow2(k) <= 2 * m + 1
        &&& self.phase is Begin ==> (self.high - self.low) * pow2(k) <= m
        &&& self.phase is Reading ==> {
            &&& self.low < self.high
            &&& k >= 1
            &&& (self.high - self.low) * pow2((k - 1) as nat) <= m
            &&& self.current.file_len() == self.file_len
            &&& self.current.remaining() <= self.file_len + 3
            &&& self.probed@.contains((self.low + (self.high - self.low) / 2) as u32)
            &&& forall|i: u32| #[trigger] self.probed@.contains(i) && i != (self.low + (self.high - self.low) / 2)
                ==> !(self.low <= i < self.high)
            &&& self.current.entry() == self.header.term_table_offset + 4 * ((self.low + (self.high - self.low) / 2) as u32)
        }
        &&& self.phase is Begin ==> forall|i: u32| #[trigger] self.probed@.contains(i) ==> !(self.low <= i < self.high)
        &&& self.probed@.finite()
        &&& self.probed@.len() == k
        &&& forall|i: u32| #[trigger] self.probed@.contains(i) ==> i < self.header.term_count
    }

    fn new(file_len: u64, header: Header, needle: &[u8]) -> (t: TermSearch)
        ensures
            t.wf(),
            t.file_len() == file_len,
            t.header() == header,
            t.terms_read() == 0,
            t.probed() == Set::<u32>::empty(),
            t.fresh(),
            t.exhausted() == (header.term_count == 0),
            t.remaining() < lookup_bound(header, file_len) - 4,
            t.pending() is None,
            forall|src: Seq<u8>| #[trigger] t.outcome(src) == find_term_result(src, header, needle@),
    {
        proof {
            lemma2_to64();
            lemma_mul_succ(header.term_count as int, file_len + 4);
        }
        TermSearch {
            file_len,
            header,
            needle: vstd::slice::slice_to_vec(needle),
            low: 0,
            high: header.term_count,
            phase: SearchPhase::Begin,
            current: TextRead::new(file_len, header.term_table_offset, 0, 0),
            terms_read: Ghost(0),
            probed: Ghost(Set::empty()),
        }
    }

    /// Runs the task on a file held in memory, answering each request with
    /// the bytes asked for; the result is what the task gives on that file.
    pub fn run(self, file: &Vec<u8>) -> (r: Result<Option<u32>, FifError>)
        requires
            self.pending() is None,
            file@.len() == self.file_len(),
            self.wf(),
        ensures
            r == self.outcome(file@),
    {
        let mut task = self;
        let ghost goal = task.outcome(file@);
        let mut reply: Vec<u8> = Vec::new();
        loop
            invariant
                file@.len() == task.file_len(),
                task.wf(),
                fits(file@, task.file_len(), task.pending(), reply@),
                task.outcome(file@) == goal,
                goal == self.outcome(file@),
            decreases task.remaining(),
        {
            match task.step(reply) {
                Step::Read(request) => {
                    reply = bytes_at(file, request);
                },
                Step::Done(result) => {
                    return result;
                },
            }
        }
    }

    /// Takes the reply to the pending request (anything when there is none)
    /// and returns the next request or the index of the term found.
    pub fn step(&mut self, reply: Vec<u8>) -> (r: Step<Result<Option<u32>, FifError>>)
        requires
            old(self).wf(),
        ensures
            final(self).wf(),
            final(self).file_len() == old(self).file_len(),
            final(self).header() == old(self).header(),
            old(self).terms_read() <= final(self).terms_read(),
            pow2(final(self).terms_read()) <= 2 * final(self).header().term_count + 1,
            final(self).remaining() < lookup_bound(final(self).header(), final(self).file_len()) - 4,
            final(self).probed().finite(),
            final(self).probed().len() == final(self).terms_read(),
            old(self).probed().subset_of(final(self).probed()),
            forall|i: u32| #[trigger] final(self).probed().contains(i) ==> i < final(self).header().term_count,
            forall|src: Seq<u8>|
                #[trigger] fits(src, old(self).file_len(), old(self).pending(), reply@) && old(self).consistent(src)
                    ==> (r matches Step::Read(req) ==> final(self).consistent(src) && final(self).reads_probed(src, req)),
            old(self).fresh() ==> !(r matches Step::Done(Ok(Some(_)))),
            old(self).exhausted() ==> r matches Step::Done(Ok(None)),
            r matches Step::Read(_) ==> final(self).remaining() < old(self).remaining(),
            r matches Step::Read(req) ==> final(self).pending() == Some(req)
                && req.offset + req.len <= old(self).file_len() && 1 <= req.len <= 4,
            forall|src: Seq<u8>| #[trigger] fits(src, old(self).file_len(), old(self).pending(), reply@)
                ==> match r {
                    Step::Read(_) => final(self).outcome(src) == old(self).outcome(src),
                    Step::Done(v) => v == old(self).outcome(src),
                },
    {
        let r = self.advance(reply);
        proof {
            self.lemma_bounded();
        }
        r
    }

    proof fn lemma_bounded(&self)
        requires
            self.wf(),
        ensures
            self.remaining() < lookup_bound(self.header, self.file_len) - 4,
    {
        let unit = self.file_len + 4;
        let m = self.header.term_count as int;
        lemma_mul_le(self.high - self.low, m, unit);
        lemma_mul_succ(m, unit);
    }

    /// One step of the search, as `step` states it.
    fn advance(&mut self, reply: Vec<u8>) -> (r: Step<Result<Option<u32>, FifError>>)
        requires
            old(self).wf(),
        ensures
            final(self).wf(),
            final(self).file_len() == old(self).file_len(),
            final(self).header() == old(self).header(),
            old(self).terms_read() <= final(self).terms_read(),
            pow2(final(self).terms_read()) <= 2 * final(self).header().term_count + 1,
            final(self).probed().finite(),
            final(self).probed().len() == final(self).terms_read(),
            old(self).probed().subset_of(final(self).probed()),
            forall|i: u32| #[trigger] final(self).probed().contains(i) ==> i < final(self).header().term_count,
            forall|src: Seq<u8>|
                #[trigger] fits(src, old(self).file_len(), old(self).pending(), reply@) && old(self).consistent(src)
                    ==> (r matches Step::Read(req) ==> final(self).consistent(src) && final(self).reads_probed(src, req)),
            old(self).fresh() ==> !(r matches Step::Done(Ok(Some(_)))),
            old(self).exhausted() ==> r matches Step::Done(Ok(None)),
            r matches Step::Read(_) ==> final(self).remaining() < old(self).remaining(),
            r matches Step::Read(req) ==> final(self).pending() == Some(req)
                && req.offset + req.len <= old(self).file_len() && 1 <= req.len <= 4,
            forall|src: Seq<u8>| #[trigger] fits(src, old(self).file_len(), old(self).pending(), reply@)
                ==> match r {
                    Step::Read(_) => final(self).outcome(src) == old(self).outcome(src),
                    Step::Done(v) => v == old(self).outcome(src),
                },
    {
        match self.phase {
            SearchPhase::Begin => self.begin_term(),
            SearchPhase::Finished => Step::Done(Ok(None)),
            SearchPhase::Reading => {
                let ghost pre = *self;
                let ghost rp = reply@;
                let r = self.current.step(reply);
                match r {
                    Step::Read(req) => {
                        let ghost mid = (pre.low + (pre.high - pre.low) / 2) as u32;
                        assert forall|src: Seq<u8>|
                            #[trigger] fits(src, pre.file_len, pre.pending(), rp) && pre.consistent(src)
                            implies self.consistent(src) && self.reads_probed(src, req) by {
                            assert(self.probed@.contains(mid));
                        }
                        Step::Read(req)
                    },
                    Step::Done(Err(e)) => {
                        self.phase = SearchPhase::Finished;
                        Step::Done(Err(e))
                    },
                    Step::Done(Ok(None)) => {
                        self.phase = SearchPhase::Finished;
                        Step::Done(Ok(None))
                    },
                    Step::Done(Ok(Some(term))) => {
                        let middle = self.low + (self.high - self.low) / 2;
                        let order = compare_bytes(term.as_str().as_bytes(), self.needle.as_slice());
                        match order {
                            Order::Equal => {
                                self.phase = SearchPhase::Finished;
                                return Step::Done(Ok(Some(middle)));
                            },
                            Order::Less => {
                                self.low = middle + 1;
                            },
                            Order::Greater => {
                                self.high = middle;
                            },
                        }
                        self.phase = SearchPhase::Begin;
                        proof {
                            lemma_mul_less(
                                self.high - self.low,
                                pre.high - pre.low,
                                self.file_len + 4,
                            );
                            lemma_narrow_bound(
                                pre.high - pre.low,
                                self.high - self.low,
                                self.terms_read@,
                                self.header.term_count as int,
                            );
                        }
                        let ghost mid = *self;
                        let r2 = self.begin_term();
                        assert forall|src: Seq<u8>| #[trigger] fits(src, pre.file_len, pre.pending(), rp)
                            implies match r2 {
                                Step::Read(_) => self.outcome(src) == pre.outcome(src),
                                Step::Done(v) => v == pre.outcome(src),
                            } by {
                            assert(mid.outcome(src) == pre.outcome(src));
                        }
                        r2
                    },
                }
            },
        }
    }

    /// Records that the term `middle` is being read by `t`, which asked for
    /// `req` first.
    fn start_reading(&mut self, t: TextRead, middle: u32, req: Request)
        requires
            old(self).wf(),
            old(self).phase is Begin,
            old(self).low < old(self).high,
            middle == old(self).low + (old(self).high - old(self).low) / 2,
            t.file_len() == old(self).file_len,
            t.remaining() < old(self).file_len + 3,
            t.entry() == old(self).header.term_table_offset + 4 * middle,
            t.pending() == Some(req),
            forall|src: Seq<u8>| #[trigger] t.consistent(src)
                && reads_entry_or_string(src, old(self).header.term_table_offset + 4 * middle, req),
        ensures
            final(self).wf(),
            final(self).file_len == old(self).file_len,
            final(self).header == old(self).header,
            final(self).needle == old(self).needle,
            final(self).low == old(self).low,
            final(self).high == old(self).high,
            final(self).phase is Reading,
            final(self).current == t,
            final(self).terms_read@ == old(self).terms_read@ + 1,
            old(self).probed().subset_of(final(self).probed()),
            final(self).remaining() < old(self).remaining(),
            final(self).pending() == Some(req),
            forall|src: Seq<u8>| #[trigger] final(self).consistent(src) && final(self).reads_probed(src, req),
    {
        let ghost pre = *self;
        proof {
            lemma_probe_bound(self.high - self.low, self.terms_read@, self.header.term_count as int);
        }
        assert(!self.probed@.contains(middle));
        self.current = t;
        self.phase = SearchPhase::Reading;
        self.terms_read = Ghost(self.terms_read@ + 1);
        self.probed = Ghost(self.probed@.insert(middle));
        assert(self.probed@.len() == pre.probed@.len() + 1);
        assert forall|i: u32| #[trigger] self.probed@.contains(i) && i != middle
            implies !(self.low <= i < self.high) && i < self.header.term_count by {
            assert(pre.probed@.contains(i));
        }
        assert forall|i: u32| #[trigger] self.probed@.contains(i) implies i < self.header.term_count by {
            if i != middle {
                assert(pre.probed@.contains(i));
            }
        }
        assert(self.probed@.contains(middle));
        assert forall|src: Seq<u8>| #[trigger] self.consistent(src) && self.reads_probed(src, req) by {
            assert(t.consistent(src));
            assert(reads_entry_or_string(src, self.header.term_table_offset + 4 * middle, req));
        }
    }

    /// Reads the middle term of the range left, or finishes when the range
    /// is empty.
    fn begin_term(&mut self) -> (r: Step<Result<Option<u32>, FifError>>)
        requires
            old(self).wf(),
            old(self).phase is Begin,
        ensures
            final(self).wf(),
            final(self).file_len() == old(self).file_len(),
            final(self).header() == old(self).header(),
            old(self).terms_read() <= final(self).terms_read(),
            !(r matches Step::Done(Ok(Some(_)))),
            old(self).low >= old(self).high ==> r matches Step::Done(Ok(None)),
            old(self).probed().subset_of(final(self).probed()),
            r matches Step::Read(req) ==> forall|src: Seq<u8>| #[trigger] final(self).consistent(src)
                && final(self).reads_probed(src, req),
            r matches Step::Read(_) ==> final(self).remaining() < old(self).remaining(),
            r matches Step::Read(req) ==> final(self).pending() == Some(req)
                && req.offset + req.len <= old(self).file_len() && 1 <= req.len <= 4,
            forall|src: Seq<u8>|
                #![trigger old(self).outcome(src)]
                src.len() == old(self).file_len() ==> match r {
                    Step::Read(_) => final(self).outcome(src) == old(self).outcome(src),
                    Step::Done(v) => v == old(self).outcome(src),
                },
    {
        let ghost pre = *self;
        if self.low >= self.high {
            self.phase = SearchPhase::Finished;
            return Step::Done(Ok(None));
        }
        let middle = self.low + (self.high - self.low) / 2;
        let mut t = TextRead::new(self.file_len, self.header.term_table_offset, self.header.term_count, middle);
        let ghost t0 = t;
        let empty: Vec<u8> = Vec::new();
        let ghost e = empty@;
        let r = t.step(empty);
        assert forall|src: Seq<u8>| src.len() == pre.file_len implies match r {
            Step::Read(_) => t.outcome(src) == term_at(src, pre.header, middle),
            Step::Done(v) => text_matches(v, term_at(src, pre.header, middle)),
        } by {
            assert(fits(src, pre.file_len, t0.pending(), e));
            assert(t0.outcome(src) == term_at(src, pre.header, middle));
        }
        match r {
            Step::Read(req) => {
                let ghost tto = self.header.term_table_offset;
                assert(t0.fresh());
                assert forall|src: Seq<u8>| #[trigger] t.consistent(src)
                    && reads_entry_or_string(src, tto + 4 * middle, req) by {}
                self.start_reading(t, middle, req);
                Step::Read(req)
            },
            Step::Done(Err(e)) => {
                self.phase = SearchPhase::Finished;
                Step::Done(Err(e))
            },
            Step::Done(Ok(_)) => {
                self.phase = SearchPhase::Finished;
                Step::Done(Ok(None))
            },
        }
    }
}

enum ListSearchPhase {
    Searching,
    Listing,
    Finished,
}

/// Looking up the posting list of a term: the binary search for the term,
/// then the read of its list.
pub struct ListSearch {
    file_len: u64,
    header: Header,
    phase: ListSearchPhase,
    search: TermSearch,
    list: ListRead,
}

impl ListSearch {
    /// The length of the file read.
    pub closed spec fn file_len(&self) -> u64 {
        self.file_len
    }

    /// The header of the file read.
    pub closed spec fn header(&self) -> Header {
        self.header
    }

    /// How many terms the search for the term has read so far.
    pub closed spec fn terms_read(&self) -> nat {
        self.search.terms_read()
    }

    /// Nothing has been asked yet.
    pub closed spec fn fresh(&self) -> bool {
        self.phase is Searching && self.search.fresh()
    }

    /// Nothing has been asked yet and the file has no terms: the lookup
    /// finishes at once with `None`.
    pub closed spec fn exhausted(&self) -> bool {
        self.phase is Searching && self.search.exhausted()
    }

    /// A bound on the steps left: every request lowers it.
    pub closed spec fn remaining(&self) -> nat {
        match self.phase {
            ListSearchPhase::Searching => self.search.remaining() + 4,
            ListSearchPhase::Listing => self.list.remaining(),
            ListSearchPhase::Finished => 0,
        }
    }

    /// The request that the next step expects answered.
    pub closed spec fn pending(&self) -> Option<Request> {
        match self.phase {
            ListSearchPhase::Searching => self.search.pending(),
            ListSearchPhase::Listing => self.list.pending(),
            ListSearchPhase::Finished => None,
        }
    }

    /// The result that the lookup gives on the file `src`.
    pub closed spec fn outcome(&self, src: Seq<u8>) -> Result<Option<Seq<u32>>, FifError> {
        match self.phase {
            ListSearchPhase::Searching => match self.search.outcome(src) {
                Err(e) => Err(e),
                Ok(None) => Ok(None),
                Ok(Some(i)) => postings_at(src, self.header, i),
            },
            ListSearchPhase::Listing => self.list.outcome(src),
            ListSearchPhase::Finished => Ok(None),
        }
    }

    /// The lookup's own invariant.
    pub closed spec fn wf(&self) -> bool {
        &&& self.search.wf()
        &&& self.search.file_len() == self.file_len
        &&& self.search.header() == self.header
        &&& self.list.file_len() == self.file_len
        &&& self.list.remaining() <= 3
    }

    fn new(file_len: u64, header: Header, needle: &[u8]) -> (t: ListSearch)
        ensures
            t.wf(),
            t.file_len() == file_len,
            t.header() == header,
            t.terms_read() == 0,
            t.fresh(),
            t.exhausted() == (header.term_count == 0),
            t.remaining() < lookup_bound(header, file_len),
            t.pending() is None,
            forall|src: Seq<u8>| #[trigger] t.outcome(src) == postings_for(src, header, needle@),
    {
        let search = TermSearch::new(file_len, header, needle);
        let list = ListRead::new(file_len, header, 0);
        ListSearch { file_len, header, phase: ListSearchPhase::Searching, search, list }
    }

    /// Runs the task on a file held in memory, answering each request with
    /// the bytes asked for; the result is what the task gives on that file.
    pub fn run(self, file: &Vec<u8>) -> (r: Result<Option<Vec<u32>>, FifError>)
        requires
            self.pending() is None,
            file@.len() == self.file_len(),
            self.wf(),
        ensures
            list_matches(r, self.outcome(file@)),
    {
        let mut task = self;
        let ghost goal = task.outcome(file@);
        let mut reply: Vec<u8> = Vec::new();
        loop
            invariant
                file@.len() == task.file_len(),
                task.wf(),
                fits(file@, task.file_len(), task.pending(), reply@),
                task.outcome(file@) == goal,
                goal == self.outcome(file@),
            decreases task.remaining(),
        {
            match task.step(reply) {
                Step::Read(request) => {
                    reply = bytes_at(file, request);
                },
                Step::Done(result) => {
                    return result;
                },
            }
        }
    }

    /// Takes the reply to the pending request (anything when there is none)
    /// and returns the next request or the posting list.
    pub fn step(&mut self, reply: Vec<u8>) -> (r: Step<Result<Option<Vec<u32>>, FifError>>)
        requires
            old(self).wf(),
        ensures
            final(self).wf(),
            final(self).file_len() == old(self).file_len(),
            final(self).header() == old(self).header(),
            pow2(final(self).terms_read()) <= 2 * final(self).header().term_count + 1,
            final(self).remaining() < lookup_bound(final(self).header(), final(self).file_len()),
            old(self).fresh() ==> !(r matches Step::Done(Ok(Some(_)))),
            old(self).exhausted() ==> r matches Step::Done(Ok(None)),
            r matches Step::Read(_) ==> final(self).remaining() < old(self).remaining(),
            r matches Step::Read(req) ==> final(self).pending() == Some(req)
                && req.offset + req.len <= old(self).file_len(),
            forall|src: Seq<u8>| #[trigger] fits(src, old(self).file_len(), old(self).pending(), reply@)
                ==> match r {
                    Step::Read(_) => final(self).outcome(src) == old(self).outcome(src),
                    Step::Done(v) => list_matches(v, old(self).outcome(src)),
                },
    {
        let ghost pre = *self;
        let ghost rp = reply@;
        proof {
            lemma_mul_le(0, self.header.term_count + 1, self.file_len + 4);
        }
        match self.phase {
            ListSearchPhase::Finished => Step::Done(Ok(None)),
            ListSearchPhase::Listing => {
                let r = self.list.step(reply);
                match r {
                    Step::Read(req) => Step::Read(req),
                    Step::Done(v) => {
                        self.phase = ListSearchPhase::Finished;
                        Step::Done(v)
                    },
                }
            },
            ListSearchPhase::Searching => {
                let r = self.search.step(reply);
                match r {
                    Step::Read(req) => Step::Read(req),
                    Step::Done(Err(e)) => {
                        self.phase = ListSearchPhase::Finished;
                        Step::Done(Err(e))
                    },
                    Step::Done(Ok(None)) => {
                        self.phase = ListSearchPhase::Finished;
                        Step::Done(Ok(None))
                    },
                    Step::Done(Ok(Some(term_index))) => {
                        let mut list = ListRead::new(self.file_len, self.header, term_index);
                        let ghost l0 = list;
                        let empty: Vec<u8> = Vec::new();
                        let ghost e = empty@;
                        let r2 = list.step(empty);
                        assert forall|src: Seq<u8>| #[trigger] fits(src, pre.file_len, pre.pending(), rp)
                            implies match r2 {
                                Step::Read(_) => list.outcome(src) == pre.outcome(src),
                                Step::Done(v) => list_matches(v, pre.outcome(src)),
                            } by {
                            assert(fits(src, pre.file_len, l0.pending(), e));
                            assert(l0.outcome(src) == postings_at(src, pre.header, term_index));
                        }
                        match r2 {
                            Step::Read(req) => {
                                self.list = list;
                                self.phase = ListSearchPhase::Listing;
                                Step::Read(req)
                            },
                            Step::Done(v) => {
                                self.phase = ListSearchPhase::Finished;
                                Step::Done(v)
                            },
                        }
                    },
                }
            },
        }
    }
}

/// An AND search read, given as the ids or an error.
pub open spec fn ids_match(r: Result<Vec<u32>, FifError>, s: Result<Seq<u32>, FifError>) -> bool {
    match (r, s) {
        (Ok(a), Ok(b)) => a@ == b,
        (Err(e1), Err(e2)) => e1 == e2,
        _ => false,
    }
}

/// The AND search from the query term `next` on, given the matches so far.
pub open spec fn and_from(src: Seq<u8>, h: Header, query: Seq<Seq<u8>>, next: int, matches: Seq<u32>) -> Result<Seq<u32>, FifError> {
    if next == 0 {
        and_search_result(src, h, query)
    } else {
        and_rest(src, h, query, next, matches)
    }
}

/// The AND search from the query term `next` on, given what looking up
/// that term's posting list gave.
pub open spec fn after_list(
    src: Seq<u8>,
    h: Header,
    query: Seq<Seq<u8>>,
    next: int,
    matches: Seq<u32>,
    list: Result<Option<Seq<u32>>, FifError>,
) -> Result<Seq<u32>, FifError> {
    match list {
        Err(e) => Err(e),
        Ok(None) => Ok(seq![]),
        Ok(Some(p)) => and_rest(src, h, query, next + 1, if next == 0 { p } else { keep_found(matches, p) }),
    }
}

enum AndPhase {
    Begin,
    Searching,
    Finished,
}

/// The AND search: the posting list of each query term in turn, each
/// narrowing the matches of the first.
pub struct AndSearch {
    file_len: u64,
    header: Header,
    query: Vec<Vec<u8>>,
    next: usize,
    matches: Vec<u32>,
    phase: AndPhase,
    current: ListSearch,
}

impl AndSearch {
    /// The length of the file read.
    pub closed spec fn file_len(&self) -> u64 {
        self.file_len
    }

    /// The query terms, as bytes.
    pub closed spec fn query(&self) -> Seq<Seq<u8>> {
        self.query@.map_values(|t: Vec<u8>| t@)
    }

    /// A bound on the steps left: every request lowers it.
    pub closed spec fn remaining(&self) -> nat {
        let unit = lookup_bound(self.header, self.file_len);
        match self.phase {
            AndPhase::Begin => ((self.query@.len() - self.next) * unit) as nat,
            AndPhase::Searching => ((self.query@.len() - self.next - 1) * unit + self.current.remaining()) as nat,
            AndPhase::Finished => 0,
        }
    }

    /// The request that the next step expects answered.
    pub closed spec fn pending(&self) -> Option<Request> {
        match self.phase {
            AndPhase::Searching => self.current.pending(),
            _ => None,
        }
    }

    /// The result that the search gives on the file `src`.
    pub closed spec fn outcome(&self, src: Seq<u8>) -> Result<Seq<u32>, FifError> {
        match self.phase {
            AndPhase::Begin => and_from(src, self.header, self.query(), self.next as int, self.matches@),
            AndPhase::Searching => after_list(
                src,
                self.header,
                self.query(),
                self.next as int,
                self.matches@,
                self.current.outcome(src),
            ),
            AndPhase::Finished => Ok(seq![]),
        }
    }

    /// The search's own invariant.
    pub closed spec fn wf(&self) -> bool {
        &&& self.next <= self.query@.len()
        &&& self.next == 0 ==> self.matches@ == Seq::<u32>::empty()
        &&& self.phase is Searching ==> {
            &&& self.next < self.query@.len()
            &&& self.current.wf()
            &&& self.current.file_len() == self.file_len
            &&& self.current.header() == self.header
            &&& self.current.remaining() < lookup_bound(self.header, self.file_len)
        }
    }

    /// Runs the task on a file held in memory, answering each request with
    /// the bytes asked for; the result is what the task gives on that file.
    pub fn run(self, file: &Vec<u8>) -> (r: Result<Vec<u32>, FifError>)
        requires
            self.pending() is None,
            file@.len() == self.file_len(),
            self.wf(),
        ensures
            ids_match(r, self.outcome(file@)),
    {
        let mut task = self;
        let ghost goal = task.outcome(file@);
        let mut reply: Vec<u8> = Vec::new();
        loop
            invariant
                file@.len() == task.file_len(),
                task.wf(),
                fits(file@, task.file_len(), task.pending(), reply@),
                task.outcome(file@) == goal,
                goal == self.outcome(file@),
            decreases task.remaining(),
        {
            match task.step(reply) {
                Step::Read(request) => {
                    reply = bytes_at(file, request);
                },
                Step::Done(result) => {
                    return result;
                },
            }
        }
    }

    /// Takes the reply to the pending request (anything when there is none)
    /// and returns the next request or the documents found.
    pub fn step(&mut self, reply: Vec<u8>) -> (r: Step<Result<Vec<u32>, FifError>>)
        requires
            old(self).wf(),
        ensures
            final(self).wf(),
            final(self).file_len() == old(self).file_len(),
            r matches Step::Read(_) ==> final(self).remaining() < old(self).remaining(),
            r matches Step::Read(req) ==> final(self).pending() == Some(req)
                && req.offset + req.len <= old(self).file_len(),
            forall|src: Seq<u8>| #[trigger] fits(src, old(self).file_len(), old(self).pending(), reply@)
                ==> match r {
                    Step::Read(_) => final(self).outcome(src) == old(self).outcome(src),
                    Step::Done(v) => ids_match(v, old(self).outcome(src)),
                },
    {
        let ghost pre = *self;
        let ghost rp = reply@;
        match self.phase {
            AndPhase::Finished => Step::Done(Ok(Vec::new())),
            AndPhase::Begin => self.begin_term(),
            AndPhase::Searching => {
                let r = self.current.step(reply);
                match r {
                    Step::Read(req) => Step::Read(req),
                    Step::Done(Err(e)) => {
                        self.phase = AndPhase::Finished;
                        Step::Done(Err(e))
                    },
                    Step::Done(Ok(None)) => {
                        self.phase = AndPhase::Finished;
                        Step::Done(Ok(Vec::new()))
                    },
                    Step::Done(Ok(Some(postings))) => {
                        if self.next == 0 {
                            self.matches = postings;
                        } else {
                            let kept = retain_found(&self.matches, &postings);
                            self.matches = kept;
                        }
                        let query_len = self.query.len();
                        assert(self.next < query_len);
                        self.next = self.next + 1;
                        self.phase = AndPhase::Begin;
                        assert(self.query@.len() - self.next == pre.query@.len() - pre.next - 1);
                        let ghost mid = *self;
                        let r2 = self.begin_term();
                        assert forall|src: Seq<u8>| #[trigger] fits(src, pre.file_len, pre.pending(), rp)
                            implies match r2 {
                                Step::Read(_) => self.outcome(src) == pre.outcome(src),
                                Step::Done(v) => ids_match(v, pre.outcome(src)),
                            } by {
                            assert(mid.outcome(src) == pre.outcome(src));
                        }
                        r2
                    },
                }
            },
        }
    }

    /// Looks up the posting list of the next query term, or finishes when
    /// there is none.
    fn begin_term(&mut self) -> (r: Step<Result<Vec<u32>, FifError>>)
        requires
            old(self).wf(),
            old(self).phase is Begin,
        ensures
            final(self).wf(),
            final(self).file_len() == old(self).file_len(),
            r matches Step::Read(_) ==> final(self).remaining() < old(self).remaining(),
            r matches Step::Read(req) ==> final(self).pending() == Some(req)
                && req.offset + req.len <= old(self).file_len(),
            forall|src: Seq<u8>|
                #![trigger old(self).outcome(src)]
                src.len() == old(self).file_len() ==> match r {
                    Step::Read(_) => final(self).outcome(src) == old(self).outcome(src),
                    Step::Done(v) => ids_match(v, old(self).outcome(src)),
                },
    {
        let ghost pre = *self;
        if self.next >= self.query.len() {
            let mut found: Vec<u32> = Vec::new();
            std::mem::swap(&mut found, &mut self.matches);
            self.phase = AndPhase::Finished;
            return Step::Done(Ok(found));
        }
        let mut search = ListSearch::new(self.file_len, self.header, self.query[self.next].as_slice());
        let ghost s0 = search;
        let empty: Vec<u8> = Vec::new();
        let ghost e = empty@;
        let r = search.step(empty);
        proof {
            lemma_mul_succ(
                pre.query@.len() - pre.next - 1,
                lookup_bound(pre.header, pre.file_len),
            );
        }
        assert(pre.query()[pre.next as int] == pre.query@[pre.next as int]@);
        assert forall|src: Seq<u8>| src.len() == pre.file_len implies match r {
            Step::Read(_) => after_list(src, pre.header, pre.query(), pre.next as int, pre.matches@, search.outcome(src))
                == pre.outcome(src),
            Step::Done(v) => match v {
                Err(e) => pre.outcome(src) == Err::<Seq<u32>, FifError>(e),
                Ok(None) => pre.outcome(src) == Ok::<Seq<u32>, FifError>(seq![]),
                Ok(Some(_)) => false,
            },
        } by {
            assert(fits(src, pre.file_len, s0.pending(), e));
            assert(s0.outcome(src) == postings_for(src, pre.header, pre.query()[pre.next as int]));
        }
        match r {
            Step::Read(req) => {
                self.current = search;
                self.phase = AndPhase::Searching;
                Step::Read(req)
            },
            Step::Done(Err(e)) => {
                self.phase = AndPhase::Finished;
                Step::Done(Err(e))
            },
            Step::Done(Ok(_)) => {
                self.phase = AndPhase::Finished;
                Step::Done(Ok(Vec::new()))
            },
        }
    }
}

/// `head` holds the first bytes of `src`, a file of `file_len` bytes: the
/// whole header, or the whole file when it is shorter.
pub open spec fn head_fits(src: Seq<u8>, file_len: u64, head: Seq<u8>) -> bool {
    &&& src.len() == file_len
    &&& head == src.take(if src.len() < HEADER_SIZE { src.len() as int } else { HEADER_SIZE as int })
}

proof fn lemma_head(src: Seq<u8>, file_len: u64, head: Seq<u8>)
    requires
        head_fits(src, file_len, head),
    ensures
        src.len() >= 4 ==> head.len() >= 4 && head.take(4) == src.take(4),
        src.len() >= HEADER_SIZE ==> head.len() == HEADER_SIZE && header_fields(head) == header_fields(src),
{
    if src.len() >= 4 {
        assert(head.take(4) =~= src.take(4));
    }
}

/// A reader of the format that the encoder writes. It holds the header and
/// the file's length; each of its reads is a task that asks for the bytes it
/// needs, so a lookup never loads the whole index.
///
/// Terms and postings have the same index: posting entry `n` belongs to term
/// entry `n`. The encoder writes terms in sorted order, so term lookup uses
/// binary search.
pub struct FifReader {
    header: Header,
    file_len: u64,
}

impl FifReader {
    /// The header read from the file.
    pub closed spec fn header(&self) -> Header {
        self.header
    }

    /// The length of the file.
    pub closed spec fn file_len(&self) -> u64 {
        self.file_len
    }

    /// Opens a FIF file of `file_len` bytes whose first bytes, up to the
    /// header's 32, are `head`: checks the magic bytes, the version, the
    /// counts and that every non-empty table lies after the header and
    /// inside the file.
    pub fn new(head: Vec<u8>, file_len: u64) -> (r: Result<FifReader, FifError>)
        ensures
            forall|src: Seq<u8>| #[trigger] head_fits(src, file_len, head@) ==> match r {
                Ok(reader) => parse_header(src) == Ok::<Header, FifError>(reader.header())
                    && reader.file_len() == file_len,
                Err(e) => parse_header(src) == Err::<Header, FifError>(e),
            },
    {
        assert forall|src: Seq<u8>| #[trigger] head_fits(src, file_len, head@) implies
            (src.len() >= 4 ==> head@.len() >= 4 && head@.take(4) == src.take(4))
            && (src.len() >= HEADER_SIZE ==> head@.len() == HEADER_SIZE && header_fields(head@) == header_fields(src)) by {
            lemma_head(src, file_len, head@);
        }
        if file_len < 4 {
            return Err(FifError::UnexpectedEof);
        }
        if head.len() < 4 {
            return Err(FifError::UnexpectedEof);
        }
        let is_magic = head[0] == 70u8 && head[1] == 73u8 && head[2] == 70u8 && head[3] == 0u8;
        if !is_magic {
            assert(head@.take(4) != magic()) by {
                if head@.take(4) == magic() {
                    assert(head@.take(4)[0] == magic()[0]);
                    assert(head@.take(4)[1] == magic()[1]);
                    assert(head@.take(4)[2] == magic()[2]);
                    assert(head@.take(4)[3] == magic()[3]);
                }
            }
            return Err(FifError::NotFif);
        }
        assert(head@.take(4) == magic());
        if file_len < HEADER_SIZE {
            return Err(FifError::UnexpectedEof);
        }
        if head.len() < 32 {
            return Err(FifError::UnexpectedEof);
        }
        let header = Header {
            version: read_u32(&head, 4),
            document_count: read_u32(&head, 8),
            document_table_offset: read_u32(&head, 12),
            term_count: read_u32(&head, 16),
            term_table_offset: read_u32(&head, 20),
            posting_count: read_u32(&head, 24),
            posting_table_offset: read_u32(&head, 28),
        };
        assert(header == header_fields(head@));
        if header.version != SUPPORTED_VERSION {
            return Err(FifError::UnsupportedVersion(header.version));
        }
        if header.term_count != header.posting_count {
            return Err(FifError::CountMismatch);
        }
        match validate_table(file_len, header.document_table_offset, header.document_count, 4, Region::DocumentTable) {
            Err(e) => return Err(e),
            Ok(()) => {},
        }
        match validate_table(file_len, header.term_table_offset, header.term_count, 4, Region::TermTable) {
            Err(e) => return Err(e),
            Ok(()) => {},
        }
        match validate_table(file_len, header.posting_table_offset, header.posting_count, 8, Region::PostingTable) {
            Err(e) => return Err(e),
            Ok(()) => {},
        }
        Ok(FifReader { header, file_len })
    }

    /// Reading the path of document `index`; `None` when there is no such
    /// document.
    pub fn document(&self, index: u32) -> (t: TextRead)
        ensures
            t.file_len() == self.file_len(),
            t.fresh(),
            t.pending() is None,
            t.past_end() == (index >= self.header().document_count),
            forall|src: Seq<u8>| #[trigger] t.outcome(src) == document_at(src, self.header(), index),
    {
        TextRead::new(self.file_len, self.header.document_table_offset, self.header.document_count, index)
    }

    /// Reading the term with index `index`; `None` when there is no such
    /// term.
    pub fn term(&self, index: u32) -> (t: TextRead)
        ensures
            t.file_len() == self.file_len(),
            t.fresh(),
            t.pending() is None,
            t.past_end() == (index >= self.header().term_count),
            forall|src: Seq<u8>| #[trigger] t.outcome(src) == term_at(src, self.header(), index),
    {
        TextRead::new(self.file_len, self.header.term_table_offset, self.header.term_count, index)
    }

    /// Reading the posting list of the term with index `term_index`; `None`
    /// when there is no such term.
    pub fn postings(&self, term_index: u32) -> (t: ListRead)
        ensures
            t.file_len() == self.file_len(),
            t.fresh(),
            t.pending() is None,
            t.past_end() == (term_index >= self.header().posting_count),
            forall|src: Seq<u8>| #[trigger] t.outcome(src) == postings_at(src, self.header(), term_index),
    {
        ListRead::new(self.file_len, self.header, term_index)
    }

    /// Finding a term by binary search; the result is its index in the term
    /// and posting tables.
    pub fn find_term(&self, needle: &str) -> (t: TermSearch)
        ensures
            t.wf(),
            t.file_len() == self.file_len(),
            t.header() == self.header(),
            t.probed() == Set::<u32>::empty(),
            t.terms_read() == 0,
            t.fresh(),
            t.exhausted() == (self.header().term_count == 0),
            t.pending() is None,
            forall|src: Seq<u8>| #[trigger] t.outcome(src) == find_term_result(
                src,
                self.header(),
                encode_utf8(needle@),
            ),
    {
        TermSearch::new(self.file_len, self.header, needle.as_bytes())
    }

    /// Reading the posting list of `term`; `None` when the file has no such
    /// term.
    pub fn postings_for_term(&self, term: &str) -> (t: ListSearch)
        ensures
            t.wf(),
            t.file_len() == self.file_len(),
            t.header() == self.header(),
            t.terms_read() == 0,
            t.fresh(),
            t.exhausted() == (self.header().term_count == 0),
            t.pending() is None,
            forall|src: Seq<u8>| #[trigger] t.outcome(src) == postings_for(
                src,
                self.header(),
                encode_utf8(term@),
            ),
    {
        ListSearch::new(self.file_len, self.header, term.as_bytes())
    }

    /// The AND search: the documents whose paths hold every query term,
    /// those of the first term's posting list that every other term's
    /// posting list holds. An empty query, or a term that is not in the
    /// file, gives no documents.
    pub fn and_search(&self, query_terms: &[String]) -> (t: AndSearch)
        ensures
            t.wf(),
            t.file_len() == self.file_len(),
            t.query() == query_bytes(query_terms@),
            t.pending() is None,
            forall|src: Seq<u8>| #[trigger] t.outcome(src) == and_search_result(
                src,
                self.header(),
                query_bytes(query_terms@),
            ),
    {
        let mut query: Vec<Vec<u8>> = Vec::new();
        let mut i: usize = 0;
        while i < query_terms.len()
            invariant
                i <= query_terms@.len(),
                query@.len() == i,
                forall|k: int| 0 <= k < i ==> #[trigger] query@[k]@ == encode_utf8(query_terms@[k]@),
            decreases query_terms@.len() - i,
        {
            let bytes = vstd::slice::slice_to_vec(query_terms[i].as_str().as_bytes());
            query.push(bytes);
            i = i + 1;
        }
        let t = AndSearch {
            file_len: self.file_len,
            header: self.header,
            query,
            next: 0,
            matches: Vec::new(),
            phase: AndPhase::Begin,
            current: ListSearch::new(self.file_len, self.header, &[]),
        };
        assert(t.query() =~= query_bytes(query_terms@));
        t
    }
}

} // verus!
