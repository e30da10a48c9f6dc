//! The FIF index file format: its layout, the encoder and the reader.

pub mod format;
pub mod reader;
pub mod properties;
pub mod roundtrip;

use vstd::prelude::*;
use vstd::utf8::encode_utf8;
use crate::document::{document_paths, Document};
use crate::index::{entry_keys, entry_lists, index_well_formed, InvertedIndex, Posting};
use crate::fif::reader::{document_at, postings_at, term_at};
use crate::fif::roundtrip::{
    encoded_header, ids_as_u32s, lemma_document_at_encoding, lemma_encoding_len,
    lemma_parse_encoding, lemma_postings_at_encoding, lemma_term_at_encoding,
};
use crate::tokenizer::no_nul;
use crate::fif::format::{
    data_start, encoding, encoding_len, fits_format, flatten, header_block, ids_as_ints,
    le_u32, lemma_flatten_prefix, lemma_flatten_split, lemma_le_u32_zero,
    lemma_strings_block_prefix, lemma_u32s_block_len, lemma_u32s_block_add, lemma_pairs_block_len,
    list_offsets, nul_terminated, pairs_block, push_u32, string_offsets, strings_block,
    u32s_block, zeros, parse_header, FifError, Header,
    HEADER_SIZE, SUPPORTED_VERSION,
};

verus! {

/// Writes a header for `document_count` documents and `term_count` terms.
fn write_header(writer: &mut Vec<u8>, document_count: u32, term_count: u32)
    requires
        HEADER_SIZE + 4 * document_count + 12 * term_count <= u32::MAX,
    ensures
        final(writer)@ == old(writer)@ + header_block(document_count as int, term_count as int),
{
    let ghost start = writer@;
    writer.push(70u8);
    writer.push(73u8);
    writer.push(70u8);
    writer.push(0u8);
    assert(writer@ == start + seq![70u8, 73u8, 70u8, 0u8]);
    push_u32(writer, SUPPORTED_VERSION);
    push_u32(writer, document_count);
    push_u32(writer, 32);
    push_u32(writer, term_count);
    let term_table_offset: u32 = if term_count > 0 {
        32 + 4 * document_count
    } else {
        0
    };
    push_u32(writer, term_table_offset);
    push_u32(writer, term_count);
    let posting_table_offset: u32 = if term_count > 0 {
        32 + 4 * document_count + 4 * term_count
    } else {
        0
    };
    push_u32(writer, posting_table_offset);
    assert(writer@ =~= start + header_block(document_count as int, term_count as int));
}

/// Writes the header of an index with no documents and no terms: the magic
/// bytes, the version, a document table offset of 32, and zero for every
/// count and other offset.
pub fn reserve_header(writer: &mut Vec<u8>)
    ensures
        final(writer)@ == old(writer)@ + header_block(0, 0),
{
    write_header(writer, 0, 0);
}

/// Writes `entry_count` table entries of `u32s_per_entry` zero `u32`s each.
pub fn reserve_offsets(writer: &mut Vec<u8>, entry_count: usize, u32s_per_entry: usize)
    ensures
        final(writer)@ == old(writer)@ + zeros((4 * entry_count * u32s_per_entry) as nat),
{
    let ghost start = writer@;
    let ghost mut written: int = 0;
    assert(0 * u32s_per_entry == 0) by (nonlinear_arith);
    assert(writer@ =~= start + zeros(0));
    for i in 0..entry_count
        invariant
            written == i * u32s_per_entry,
            0 <= written,
            writer@ == start + zeros((4 * written) as nat),
    {
        assert(0 <= i * u32s_per_entry) by (nonlinear_arith)
            requires
                0 <= i,
                0 <= u32s_per_entry,
        ;
        for j in 0..u32s_per_entry
            invariant
                written == i * u32s_per_entry + j,
                0 <= i * u32s_per_entry,
                writer@ == start + zeros((4 * written) as nat),
        {
            push_u32(writer, 0);
            proof {
                lemma_le_u32_zero();
                written = written + 1;
            }
            assert(writer@ =~= start + zeros((4 * written) as nat));
        }
        assert(written == (i + 1) * u32s_per_entry) by (nonlinear_arith)
            requires
                written == i * u32s_per_entry + u32s_per_entry,
        ;
    }
    assert(4 * written == 4 * entry_count * u32s_per_entry) by (nonlinear_arith)
        requires
            written == entry_count * u32s_per_entry,
    ;
}

/// Overwrites the four bytes at `pos` with the encoding of `x`.
fn set_u32_at(out: &mut Vec<u8>, pos: usize, x: u32)
    requires
        pos + 4 <= old(out)@.len(),
    ensures
        final(out)@ == old(out)@.take(pos as int) + le_u32(x) + old(out)@.skip(pos + 4),
{
    let ghost start = out@;
    let n = out.len();
    assert(pos + 4 <= n);
    out.set(pos, (x & 0xff) as u8);
    out.set(pos + 1, ((x >> 8) & 0xff) as u8);
    out.set(pos + 2, ((x >> 16) & 0xff) as u8);
    out.set(pos + 3, ((x >> 24) & 0xff) as u8);
    assert(out@ =~= start.take(pos as int) + le_u32(x) + start.skip(pos + 4));
}

/// Appends the UTF-8 bytes of `s` and a terminating zero byte.
fn append_string(out: &mut Vec<u8>, s: &str)
    ensures
        final(out)@ == old(out)@ + nul_terminated(s@),
{
    let ghost start = out@;
    let bytes = s.as_bytes();
    let mut i: usize = 0;
    while i < bytes.len()
        invariant
            i <= bytes@.len(),
            bytes@ == encode_utf8(s@),
            out@ == start + bytes@.take(i as int),
        decreases bytes@.len() - i,
    {
        out.push(bytes[i]);
        i = i + 1;
        assert(out@ =~= start + bytes@.take(i as int));
    }
    out.push(0u8);
    assert(out@ =~= start + nul_terminated(s@));
}

/// Whether every id of `list` fits in 32 bits.
fn ids_fit(list: &Vec<Posting>) -> (r: bool)
    ensures
        r <==> forall|x: int| 0 <= x < list@.len() ==> list@[x] <= u32::MAX,
{
    for j in 0..list.len()
        invariant
            forall|x: int| 0 <= x < j ==> list@[x] <= u32::MAX,
    {
        if list[j] as u64 > 0xffff_ffff {
            return false;
        }
    }
    true
}

/// The length of the encoding of an index with these documents and terms,
/// or `None` when the index does not fit the format.
fn encoded_len(documents: &[Document], terms: &[(String, Vec<Posting>)]) -> (r: Option<u64>)
    ensures
        match r {
            Some(n) => fits_format(document_paths(documents@), entry_keys(terms@), entry_lists(terms@))
                && n == encoding_len(document_paths(documents@), entry_keys(terms@), entry_lists(terms@)),
            None => !fits_format(document_paths(documents@), entry_keys(terms@), entry_lists(terms@)),
        },
{
    let ghost paths = document_paths(documents@);
    let ghost keys = entry_keys(terms@);
    let ghost lists = entry_lists(terms@);
    let d = documents.len();
    let t = terms.len();
    let base: u128 = 32 + 4 * (d as u128) + 12 * (t as u128);
    if base > 0xffff_ffff {
        return None;
    }
    let mut total: u64 = base as u64;
    assert(paths.take(0) =~= Seq::<Seq<char>>::empty());
    for i in 0..d
        invariant
            d == documents@.len(),
            t == terms@.len(),
            paths == document_paths(documents@),
            total == data_start(d as int, t as int) + strings_block(paths.take(i as int)).len(),
            total <= 0xffff_ffff,
    {
        let n = documents[i].file_path.as_str().as_bytes().len();
        assert(paths[i as int] == documents@[i as int].file_path@);
        assert(n == encode_utf8(paths[i as int]).len());
        assert(paths.take(i + 1).drop_last() =~= paths.take(i as int));
        assert(paths.take(i + 1).last() == paths[i as int]);
        if n as u64 >= 0xffff_ffff - total {
            proof {
                lemma_strings_block_prefix(paths, i + 1);
            }
            return None;
        }
        total = total + n as u64 + 1;
    }
    assert(paths.take(d as int) =~= paths);
    assert(keys.take(0) =~= Seq::<Seq<char>>::empty());
    assert(lists.take(0) =~= Seq::<Seq<usize>>::empty());
    let mut k: usize = 0;
    while k < t
        invariant
            k <= t,
            d == documents@.len(),
            t == terms@.len(),
            paths == document_paths(documents@),
            keys == entry_keys(terms@),
            lists == entry_lists(terms@),
            total == data_start(d as int, t as int) + strings_block(paths).len() + strings_block(
                keys.take(k as int),
            ).len() + 4 * flatten(lists.take(k as int)).len(),
            total <= 0xffff_ffff,
            forall|x: int|
                0 <= x < flatten(lists.take(k as int)).len() ==> #[trigger] flatten(
                    lists.take(k as int),
                )[x] <= u32::MAX,
        decreases t - k,
    {
        let key_len = terms[k].0.as_str().as_bytes().len();
        assert(keys[k as int] == terms@[k as int].0@);
        assert(lists[k as int] == terms@[k as int].1@);
        assert(key_len == encode_utf8(keys[k as int]).len());
        assert(keys.take(k + 1).drop_last() =~= keys.take(k as int));
        assert(keys.take(k + 1).last() == keys[k as int]);
        proof {
            lemma_flatten_split(lists, k as int);
            lemma_strings_block_prefix(keys, k + 1);
            lemma_flatten_prefix(lists, k + 1);
        }
        if key_len as u64 >= 0xffff_ffff - total {
            proof {
                lemma_flatten_prefix(lists, k as int);
            }
            return None;
        }
        total = total + key_len as u64 + 1;
        let list = &terms[k].1;
        let m = list.len();
        if m as u64 > (0xffff_ffff - total) / 4 {
            return None;
        }
        total = total + 4 * (m as u64);
        let ghost before = flatten(lists.take(k as int));
        if !ids_fit(list) {
            let ghost j = choose|j: int| 0 <= j < list@.len() && list@[j] > u32::MAX;
            assert(flatten(lists)[before.len() + j] == list@[j]);
            return None;
        }
        proof {
            lemma_flatten_split(lists, k as int);
        }
        assert forall|x: int|
            0 <= x < flatten(lists.take(k + 1)).len() implies #[trigger] flatten(lists.take(k + 1))[x]
            <= u32::MAX by {
            assert(flatten(lists.take(k + 1)) == before + lists[k as int]);
            if x >= before.len() {
                assert(list@ == lists[k as int]);
                assert(list@[x - before.len()] <= u32::MAX);
                assert(flatten(lists.take(k + 1))[x] == list@[x - before.len()]);
            } else {
                assert(flatten(lists.take(k + 1))[x] == flatten(lists.take(k as int))[x]);
            }
        }
        k = k + 1;
    }
    assert(keys.take(t as int) =~= keys);
    assert(lists.take(t as int) =~= lists);
    Some(total)
}

/// Overwriting the four zero bytes after `a` with the encoding of `x`, then
/// appending `extra`.
proof fn lemma_patch(a: Seq<u8>, m: nat, b: Seq<u8>, x: u32, extra: Seq<u8>)
    ensures
        ({
            let s = a + zeros(m + 4) + b;
            s.take(a.len() as int) + le_u32(x) + s.skip(a.len() + 4int) + extra == (a + le_u32(x))
                + zeros(m) + (b + extra)
        }),
{
    let s = a + zeros(m + 4) + b;
    assert(s.take(a.len() as int) =~= a);
    assert(s.skip(a.len() + 4int) =~= zeros(m) + b);
    assert(a + le_u32(x) + (zeros(m) + b) + extra =~= (a + le_u32(x)) + zeros(m) + (b + extra));
}

/// Appends the little-endian encodings of the ids of `list`.
fn append_ids(out: &mut Vec<u8>, list: &Vec<Posting>)
    requires
        forall|x: int| 0 <= x < list@.len() ==> list@[x] <= u32::MAX,
    ensures
        final(out)@ == old(out)@ + u32s_block(ids_as_ints(list@)),
{
    let ghost start = out@;
    let mut j: usize = 0;
    assert(ids_as_ints(list@.take(0)) =~= Seq::<int>::empty());
    while j < list.len()
        invariant
            j <= list@.len(),
            forall|x: int| 0 <= x < list@.len() ==> list@[x] <= u32::MAX,
            out@ == start + u32s_block(ids_as_ints(list@.take(j as int))),
        decreases list@.len() - j,
    {
        push_u32(out, list[j] as u32);
        assert(ids_as_ints(list@.take(j + 1)) =~= ids_as_ints(list@.take(j as int)).push(
            list@[j as int] as int,
        ));
        assert(ids_as_ints(list@.take(j + 1)).drop_last() =~= ids_as_ints(list@.take(j as int)));
        j = j + 1;
    }
    assert(list@.take(j as int) =~= list@);
}

/// The characters of each string of `v`.
pub open spec fn str_views(v: Seq<&str>) -> Seq<Seq<char>> {
    v.map_values(|s: &str| s@)
}

/// Fills in a table of `strings.len()` zero entries that follows `a0`, and
/// appends the strings, zero-terminated, after `b0`: entry `i` of the table
/// becomes the offset at which string `i` is written.
fn write_strings(out: &mut Vec<u8>, table_pos: usize, strings: &Vec<&str>, Ghost(a0): Ghost<Seq<u8>>, Ghost(b0): Ghost<Seq<u8>>)
    requires
        old(out)@ == a0 + zeros((4 * strings@.len()) as nat) + b0,
        table_pos == a0.len(),
        a0.len() + 4 * strings@.len() + b0.len() + strings_block(str_views(strings@)).len() <= u32::MAX,
    ensures
        final(out)@ == (a0 + u32s_block(
            string_offsets((a0.len() + 4 * strings@.len() + b0.len()) as int, str_views(strings@)),
        )) + (b0 + strings_block(str_views(strings@))),
{
    let ghost ss = str_views(strings@);
    let ghost n = strings@.len();
    let ghost base: int = (a0.len() + 4 * n + b0.len()) as int;
    let ghost offs = string_offsets(base, ss);
    let mut pc = table_pos;
    let mut i: usize = 0;
    assert(u32s_block(offs.take(0)) =~= Seq::<u8>::empty());
    assert(strings_block(ss.take(0)) =~= Seq::<u8>::empty());
    assert(out@ =~= (a0 + u32s_block(offs.take(0))) + zeros((4 * n) as nat) + (b0 + strings_block(
        ss.take(0),
    )));
    while i < strings.len()
        invariant
            i <= n,
            n == strings@.len(),
            ss == str_views(strings@),
            base == a0.len() + 4 * n + b0.len(),
            offs == string_offsets(base, ss),
            pc == a0.len() + 4 * i,
            base + strings_block(ss).len() <= u32::MAX,
            out@ == (a0 + u32s_block(offs.take(i as int))) + zeros((4 * (n - i)) as nat) + (b0
                + strings_block(ss.take(i as int))),
        decreases n - i,
    {
        let raw_offset = out.len();
        let ghost a = a0 + u32s_block(offs.take(i as int));
        let ghost b = b0 + strings_block(ss.take(i as int));
        let ghost m = (4 * (n - i - 1)) as nat;
        proof {
            lemma_u32s_block_len(offs.take(i as int));
            lemma_strings_block_prefix(ss, i as int);
        }
        assert(raw_offset == offs[i as int]);
        assert(zeros((4 * (n - i)) as nat) == zeros(m + 4));
        set_u32_at(out, pc, raw_offset as u32);
        append_string(out, strings[i]);
        proof {
            let x = raw_offset as u32;
            let extra = nul_terminated(ss[i as int]);
            lemma_patch(a, m, b, x, extra);
            assert(offs.take(i + 1).drop_last() =~= offs.take(i as int));
            assert(ss.take(i + 1).drop_last() =~= ss.take(i as int));
            assert(a + le_u32(x) =~= a0 + u32s_block(offs.take(i + 1)));
            assert(b + extra =~= b0 + strings_block(ss.take(i + 1)));
        }
        pc = pc + 4;
        i = i + 1;
    }
    assert(offs.take(n as int) =~= offs);
    assert(ss.take(n as int) =~= ss);
}

/// Fills in a posting table of `terms.len()` zero entries that follows
/// `a0`, and appends the posting lists after `b0`: entry `k` of the table
/// becomes the offset and the length of the list of term `k`.
fn write_posting_lists(out: &mut Vec<u8>, table_pos: usize, terms: &[(String, Vec<Posting>)], Ghost(a0): Ghost<Seq<u8>>, Ghost(b0): Ghost<Seq<u8>>)
    requires
        old(out)@ == a0 + zeros((8 * terms@.len()) as nat) + b0,
        table_pos == a0.len(),
        a0.len() + 8 * terms@.len() + b0.len() + 4 * flatten(entry_lists(terms@)).len() <= u32::MAX,
        forall|x: int|
            0 <= x < flatten(entry_lists(terms@)).len() ==> flatten(entry_lists(terms@))[x] <= u32::MAX,
    ensures
        final(out)@ == (a0 + pairs_block(
            list_offsets((a0.len() + 8 * terms@.len() + b0.len()) as int, entry_lists(terms@)),
            entry_lists(terms@),
        )) + (b0 + u32s_block(ids_as_ints(flatten(entry_lists(terms@))))),
{
    let ghost lists = entry_lists(terms@);
    let ghost t = terms@.len();
    let ghost base: int = (a0.len() + 8 * t + b0.len()) as int;
    let ghost offs = list_offsets(base, lists);
    let mut pc = table_pos;
    let mut k: usize = 0;
    assert(pairs_block(offs, lists.take(0)) =~= Seq::<u8>::empty());
    assert(flatten(lists.take(0)) =~= Seq::<usize>::empty());
    assert(u32s_block(ids_as_ints(flatten(lists.take(0)))) =~= Seq::<u8>::empty());
    assert(out@ =~= (a0 + pairs_block(offs, lists.take(0))) + zeros((8 * t) as nat) + (b0
        + u32s_block(ids_as_ints(flatten(lists.take(0))))));
    while k < terms.len()
        invariant
            k <= t,
            t == terms@.len(),
            lists == entry_lists(terms@),
            base == a0.len() + 8 * t + b0.len(),
            offs == list_offsets(base, lists),
            pc == a0.len() + 8 * k,
            base + 4 * flatten(lists).len() <= u32::MAX,
            forall|x: int| 0 <= x < flatten(lists).len() ==> flatten(lists)[x] <= u32::MAX,
            out@ == (a0 + pairs_block(offs, lists.take(k as int))) + zeros((8 * (t - k)) as nat) + (b0
                + u32s_block(ids_as_ints(flatten(lists.take(k as int))))),
        decreases t - k,
    {
        let raw_offset = out.len();
        let list = &terms[k].1;
        let ghost a = a0 + pairs_block(offs, lists.take(k as int));
        let ghost b = b0 + u32s_block(ids_as_ints(flatten(lists.take(k as int))));
        let ghost m = (8 * (t - k - 1)) as nat;
        proof {
            lemma_pairs_block_len(offs, lists.take(k as int));
            lemma_u32s_block_len(ids_as_ints(flatten(lists.take(k as int))));
            lemma_flatten_prefix(lists, k as int);
            lemma_flatten_split(lists, k as int);
            assert(lists[k as int] == terms@[k as int].1@);
            assert(list@ == lists[k as int]);
            assert forall|x: int| 0 <= x < list@.len() implies list@[x] <= u32::MAX by {
                assert(flatten(lists)[flatten(lists.take(k as int)).len() + x] == list@[x]);
            }
        }
        assert(raw_offset == offs[k as int]);
        assert(zeros((8 * (t - k)) as nat) == zeros((m + 4) + 4));
        set_u32_at(out, pc, raw_offset as u32);
        proof {
            lemma_patch(a, m + 4, b, raw_offset as u32, Seq::<u8>::empty());
            assert(b + Seq::<u8>::empty() =~= b);
        }
        set_u32_at(out, pc + 4, list.len() as u32);
        append_ids(out, list);
        proof {
            let extra = u32s_block(ids_as_ints(list@));
            lemma_patch(a + le_u32(raw_offset as u32), m, b, list.len() as u32, extra);
            assert(lists.take(k + 1).drop_last() =~= lists.take(k as int));
            assert(a + le_u32(raw_offset as u32) + le_u32(list.len() as u32) =~= a0 + pairs_block(
                offs,
                lists.take(k + 1),
            ));
            assert(ids_as_ints(flatten(lists.take(k + 1))) =~= ids_as_ints(
                flatten(lists.take(k as int)),
            ) + ids_as_ints(list@));
            lemma_u32s_block_add(ids_as_ints(flatten(lists.take(k as int))), ids_as_ints(list@));
            assert(b + extra =~= b0 + u32s_block(ids_as_ints(flatten(lists.take(k + 1)))));
        }
        pc = pc + 8;
        k = k + 1;
    }
    assert(lists.take(t as int) =~= lists);
}

/// The path of each document.
fn document_path_strs(documents: &[Document]) -> (r: Vec<&str>)
    ensures
        str_views(r@) == document_paths(documents@),
{
    let mut r: Vec<&str> = Vec::new();
    let mut i: usize = 0;
    while i < documents.len()
        invariant
            i <= documents@.len(),
            str_views(r@) == document_paths(documents@).take(i as int),
        decreases documents@.len() - i,
    {
        let p = documents[i].file_path.as_str();
        assert(p@ == document_paths(documents@)[i as int]);
        let ghost old_r = r@;
        r.push(p);
        assert(r@ == old_r.push(p));
        assert(str_views(old_r) == document_paths(documents@).take(i as int));
        assert(document_paths(documents@).take(i as int).len() == i);
        assert(str_views(old_r).len() == i);
        assert(old_r.len() == i);
        assert(str_views(r@).len() == i + 1);
        assert forall|j: int| 0 <= j <= i implies #[trigger] str_views(r@)[j] == document_paths(documents@).take(i + 1)[j] by {
            if j < i {
                assert(str_views(r@)[j] == r@[j]@);
                assert(r@[j] == old_r[j]);
                assert(str_views(old_r)[j] == old_r[j]@);
            } else {
                assert(str_views(r@)[j] == r@[j]@);
            }
        }
        assert(str_views(r@) =~= document_paths(documents@).take(i + 1));
        i = i + 1;
    }
    assert(document_paths(documents@).take(documents@.len() as int) =~= document_paths(documents@));
    r
}

/// The term of each entry.
fn term_strs(terms: &[(String, Vec<Posting>)]) -> (r: Vec<&str>)
    ensures
        str_views(r@) == entry_keys(terms@),
{
    let mut r: Vec<&str> = Vec::new();
    let mut k: usize = 0;
    while k < terms.len()
        invariant
            k <= terms@.len(),
            str_views(r@) == entry_keys(terms@).take(k as int),
        decreases terms@.len() - k,
    {
        let p = terms[k].0.as_str();
        assert(p@ == entry_keys(terms@)[k as int]);
        let ghost old_r = r@;
        r.push(p);
        assert(r@ == old_r.push(p));
        assert(str_views(old_r) == entry_keys(terms@).take(k as int));
        assert(entry_keys(terms@).take(k as int).len() == k);
        assert(str_views(old_r).len() == k);
        assert(old_r.len() == k);
        assert(str_views(r@).len() == k + 1);
        assert forall|j: int| 0 <= j <= k implies #[trigger] str_views(r@)[j] == entry_keys(terms@).take(k + 1)[j] by {
            if j < k {
                assert(str_views(r@)[j] == r@[j]@);
                assert(r@[j] == old_r[j]);
                assert(str_views(old_r)[j] == old_r[j]@);
            } else {
                assert(str_views(r@)[j] == r@[j]@);
            }
        }
        assert(str_views(r@) =~= entry_keys(terms@).take(k + 1));
        k = k + 1;
    }
    assert(entry_keys(terms@).take(terms@.len() as int) =~= entry_keys(terms@));
    r
}

/// The encoding, grouped as the encoder writes it.
proof fn lemma_encoding_parts(paths: Seq<Seq<char>>, keys: Seq<Seq<char>>, lists: Seq<Seq<usize>>)
    ensures
        ({
            let d = paths.len() as int;
            let t = keys.len() as int;
            let sp = strings_block(paths);
            let sk = strings_block(keys);
            let h = header_block(d, t);
            let ud = u32s_block(string_offsets(data_start(d, t), paths));
            let ut = u32s_block(string_offsets(data_start(d, t) + sp.len(), keys));
            let pairs = pairs_block(
                list_offsets(((h + ud) + ut).len() + 8 * t + (sp + sk).len(), lists),
                lists,
            );
            encoding(paths, keys, lists) == (((h + ud) + ut) + pairs) + ((sp + sk) + u32s_block(
                ids_as_ints(flatten(lists)),
            ))
        }),
{
    let d = paths.len() as int;
    let t = keys.len() as int;
    let sp = strings_block(paths);
    let sk = strings_block(keys);
    let h = header_block(d, t);
    let ud = u32s_block(string_offsets(data_start(d, t), paths));
    let ut = u32s_block(string_offsets(data_start(d, t) + sp.len(), keys));
    let pairs = pairs_block(
        list_offsets(((h + ud) + ut).len() + 8 * t + (sp + sk).len(), lists),
        lists,
    );
    lemma_u32s_block_len(string_offsets(data_start(d, t), paths));
    lemma_u32s_block_len(string_offsets(data_start(d, t) + sp.len(), keys));
    assert(((h + ud) + ut).len() + 8 * t + (sp + sk).len() == data_start(d, t) + sp.len() + sk.len());
    assert(encoding(paths, keys, lists) =~= (((h + ud) + ut) + pairs) + ((sp + sk) + u32s_block(
        ids_as_ints(flatten(lists)),
    )));
}

/// What a reader finds in `bytes`, the encoding of an index with document
/// paths `paths`, terms `keys` and posting lists `lists`: the header passes
/// every check and counts the documents and terms, term `k` is `keys[k]`,
/// its posting list is `lists[k]`, and, when no path holds a NUL
/// character, document `i` is `paths[i]`.
pub open spec fn read_back(bytes: Seq<u8>, paths: Seq<Seq<char>>, keys: Seq<Seq<char>>, lists: Seq<Seq<Posting>>) -> bool {
    let h = encoded_header(paths.len() as int, keys.len() as int);
    &&& parse_header(bytes) == Ok::<Header, FifError>(h)
    &&& h.document_count == paths.len()
    &&& h.term_count == keys.len()
    &&& forall|k: u32|
        #[trigger] term_at(bytes, h, k) == if k < keys.len() {
            Ok::<Option<Seq<char>>, FifError>(Some(keys[k as int]))
        } else {
            Ok(None)
        }
    &&& forall|k: u32|
        #[trigger] postings_at(bytes, h, k) == if k < keys.len() {
            Ok::<Option<Seq<u32>>, FifError>(Some(ids_as_u32s(lists[k as int])))
        } else {
            Ok(None)
        }
    &&& (forall|i: int| 0 <= i < paths.len() ==> no_nul(#[trigger] paths[i])) ==> forall|i: u32|
        #[trigger] document_at(bytes, h, i) == if i < paths.len() {
            Ok::<Option<Seq<char>>, FifError>(Some(paths[i as int]))
        } else {
            Ok(None)
        }
}

/// Every id of the flattened lists is below `n` when every id of every list
/// is.
proof fn lemma_flatten_below(lists: Seq<Seq<Posting>>, n: int)
    requires
        forall|k: int, i: int| 0 <= k < lists.len() && 0 <= i < lists[k].len() ==> #[trigger] lists[k][i] < n,
    ensures
        forall|x: int| 0 <= x < flatten(lists).len() ==> #[trigger] flatten(lists)[x] < n,
    decreases lists.len(),
{
    if lists.len() > 0 {
        let front = lists.drop_last();
        lemma_flatten_below(front, n);
        let f = flatten(front);
        let last = lists.last();
        assert forall|x: int| 0 <= x < flatten(lists).len() implies #[trigger] flatten(lists)[x] < n by {
            if x >= f.len() {
                assert(flatten(lists)[x] == last[x - f.len()]);
                assert(lists[lists.len() - 1][x - f.len()] < n);
            } else {
                assert(flatten(lists)[x] == f[x]);
            }
        }
    }
}

/// For a well-formed index, the encoding fits the format exactly when it
/// is shorter than 2^32 bytes.
proof fn lemma_fits_when_short(paths: Seq<Seq<char>>, keys: Seq<Seq<char>>, lists: Seq<Seq<Posting>>)
    requires
        index_well_formed(paths.len() as int, keys, lists),
    ensures
        fits_format(paths, keys, lists) <==> encoding_len(paths, keys, lists) <= u32::MAX,
{
    lemma_flatten_below(lists, paths.len() as int);
}

/// The encoding of a well-formed index reads back.
proof fn lemma_read_back(paths: Seq<Seq<char>>, keys: Seq<Seq<char>>, lists: Seq<Seq<Posting>>)
    requires
        index_well_formed(paths.len() as int, keys, lists),
        fits_format(paths, keys, lists),
    ensures
        read_back(encoding(paths, keys, lists), paths, keys, lists),
{
    let e = encoding(paths, keys, lists);
    let h = encoded_header(paths.len() as int, keys.len() as int);
    lemma_parse_encoding(paths, keys, lists);
    lemma_encoding_len(paths, keys, lists);
    assert forall|k: u32| #[trigger] term_at(e, h, k) == if k < keys.len() {
        Ok::<Option<Seq<char>>, FifError>(Some(keys[k as int]))
    } else {
        Ok(None)
    } by {
        if k < keys.len() {
            lemma_term_at_encoding(paths, keys, lists, k as int);
        }
    }
    assert forall|k: u32| #[trigger] postings_at(e, h, k) == if k < keys.len() {
        Ok::<Option<Seq<u32>>, FifError>(Some(ids_as_u32s(lists[k as int])))
    } else {
        Ok(None)
    } by {
        if k < keys.len() {
            lemma_postings_at_encoding(paths, keys, lists, k as int);
        }
    }
    if forall|i: int| 0 <= i < paths.len() ==> no_nul(#[trigger] paths[i]) {
        assert forall|i: u32| #[trigger] document_at(e, h, i) == if i < paths.len() {
            Ok::<Option<Seq<char>>, FifError>(Some(paths[i as int]))
        } else {
            Ok(None)
        } by {
            if i < paths.len() {
                lemma_document_at_encoding(paths, keys, lists, i as int);
            }
        }
    }
}

/// Encodes the index in the FIF format: the header, a table with the
/// offset of each document path, a table with the offset of each term, a
/// table with the offset and length of each posting list, then the
/// zero-terminated paths, the zero-terminated terms (in byte order) and the
/// posting lists. Fails exactly when the encoding would take 2^32 bytes or
/// more; otherwise what is written reads back (see `read_back`).
#[verifier::rlimit(40)]
pub fn try_from_inverted_index(index: &InvertedIndex) -> (r: Result<Vec<u8>, FifError>)
    ensures
        ({
            let paths = document_paths(index.docs());
            let keys = entry_keys(index.entries());
            let lists = entry_lists(index.entries());
            &&& match r {
                Ok(bytes) => fits_format(paths, keys, lists) && bytes@ == encoding(paths, keys, lists),
                Err(e) => !fits_format(paths, keys, lists) && e == FifError::TooLarge,
            }
            &&& (r is Ok <==> encoding_len(paths, keys, lists) <= u32::MAX)
            &&& (r matches Ok(bytes) ==> read_back(bytes@, paths, keys, lists))
        }),
{
    let documents = index.documents();
    let terms = index.postings();
    let ghost paths = document_paths(documents@);
    let ghost keys = entry_keys(terms@);
    let ghost lists = entry_lists(terms@);
    proof {
        lemma_fits_when_short(paths, keys, lists);
    }
    match encoded_len(documents, terms) {
        None => return Err(FifError::TooLarge),
        Some(_) => {},
    }
    let d = documents.len();
    let t = terms.len();
    let ghost h = header_block(d as int, t as int);
    let mut out: Vec<u8> = Vec::new();
    write_header(&mut out, d as u32, t as u32);
    reserve_offsets(&mut out, d, 1);
    reserve_offsets(&mut out, t, 1);
    reserve_offsets(&mut out, t, 2);
    let path_strs = document_path_strs(documents);
    let term_strs = term_strs(terms);
    let ghost sp = strings_block(paths);
    let ghost sk = strings_block(keys);
    assert(h.len() == 32);
    assert(out@ =~= h + zeros((4 * d) as nat) + (zeros((4 * t) as nat) + zeros((8 * t) as nat)));
    write_strings(&mut out, 32, &path_strs, Ghost(h), Ghost(zeros((4 * t) as nat) + zeros((8 * t) as nat)));
    let ghost ud = u32s_block(string_offsets(data_start(d as int, t as int), paths));
    proof {
        lemma_u32s_block_len(string_offsets(data_start(d as int, t as int), paths));
    }
    assert(out@ =~= (h + ud) + zeros((4 * t) as nat) + (zeros((8 * t) as nat) + sp));
    write_strings(&mut out, 32 + 4 * d, &term_strs, Ghost(h + ud), Ghost(zeros((8 * t) as nat) + sp));
    let ghost ut = u32s_block(string_offsets(data_start(d as int, t as int) + sp.len(), keys));
    proof {
        lemma_u32s_block_len(string_offsets(data_start(d as int, t as int) + sp.len(), keys));
    }
    assert(out@ =~= ((h + ud) + ut) + zeros((8 * t) as nat) + (sp + sk));
    write_posting_lists(&mut out, 32 + 4 * d + 4 * t, terms, Ghost((h + ud) + ut), Ghost(sp + sk));
    proof {
        lemma_encoding_parts(paths, keys, lists);
        lemma_read_back(paths, keys, lists);
    }
    Ok(out)
}

} // verus!
