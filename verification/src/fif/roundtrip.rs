//! What the reader gives back of what the encoder writes.

use vstd::prelude::*;
use vstd::utf8::{encode_scalar, encode_utf8, encode_utf8_decode_utf8, encode_utf8_valid_utf8};
use crate::fif::format::{
    data_start, encoding, encoding_len, fits_format, flatten, header_block, header_fields,
    ids_as_ints, le_u32, lemma_flatten_prefix, lemma_flatten_split, lemma_le_u32_roundtrip,
    lemma_pairs_block_len, lemma_strings_block_prefix, lemma_u32s_block_add, lemma_u32s_block_len,
    list_offsets, magic, pairs_block, parse_header, posting_table_start,
    string_offsets, strings_block, term_table_start, u32_at, u32s_block, FifError, Header,
    HEADER_SIZE,
};
use crate::fif::reader::{
    document_at, field_at, find_term_result, lemma_lex_order_equal, lemma_lex_order_flip,
    lemma_lex_order_trans, lemma_nul_from_skip, lex_order, nul_from, postings_at, search, string_at,
    term_at, bisect, and_rest, and_search_result, keep_found, postings_for, Order,
};
use crate::index::{
    docs_with, inverts, keys_sorted, lemma_docs_with_contains, lemma_docs_with_increasing,
    lemma_docs_with_none,
};
use crate::tokenizer::{no_nul, tokens};

verus! {

/// The `u32` stored right after `a`.
pub proof fn lemma_u32_at_le(a: Seq<u8>, x: u32, b: Seq<u8>)
    ensures
        u32_at(a + le_u32(x) + b, a.len() as int) == x,
{
    let s = a + le_u32(x) + b;
    lemma_le_u32_roundtrip(x);
    let n = a.len() as int;
    assert(s[n] == le_u32(x)[0]);
    assert(s[n + 1] == le_u32(x)[1]);
    assert(s[n + 2] == le_u32(x)[2]);
    assert(s[n + 3] == le_u32(x)[3]);
}

/// A `u32` read inside the middle part of a sequence.
pub proof fn lemma_u32_at_shift(a: Seq<u8>, m: Seq<u8>, b: Seq<u8>, p: int)
    requires
        0 <= p,
        p + 4 <= m.len(),
    ensures
        u32_at(a + m + b, a.len() + p) == u32_at(m, p),
{
    let s = a + m + b;
    let n = a.len() as int;
    assert(s[n + p] == m[p]);
    assert(s[n + p + 1] == m[p + 1]);
    assert(s[n + p + 2] == m[p + 2]);
    assert(s[n + p + 3] == m[p + 3]);
}

/// Entry `i` of a block of `u32`s.
pub proof fn lemma_u32s_block_at(xs: Seq<int>, i: int)
    requires
        0 <= i < xs.len(),
    ensures
        u32s_block(xs).len() == 4 * xs.len(),
        u32_at(u32s_block(xs), 4 * i) == xs[i] as u32,
{
    lemma_u32s_block_len(xs);
    lemma_u32s_block_len(xs.take(i));
    assert(xs =~= xs.take(i + 1) + xs.skip(i + 1));
    lemma_u32s_block_add(xs.take(i + 1), xs.skip(i + 1));
    assert(xs.take(i + 1).drop_last() =~= xs.take(i));
    lemma_u32_at_le(u32s_block(xs.take(i)), xs[i] as u32, u32s_block(xs.skip(i + 1)));
}

/// The UTF-8 encoding of a character other than NUL holds no zero byte.
proof fn lemma_scalar_no_zero(c: char)
    requires
        c != '\0',
    ensures
        forall|j: int| 0 <= j < encode_scalar(c as u32).len() ==> #[trigger] encode_scalar(c as u32)[j] != 0,
{
    let v = c as u32;
    assert(v != 0);
    assert(v <= 0x7F ==> (v & 0x7F) as u8 != 0) by (bit_vector)
        requires
            v != 0,
    ;
    assert((0xC0u8 | ((v >> 6) & 0x1F) as u8) != 0u8) by (bit_vector);
    assert((0xE0u8 | ((v >> 12) & 0x0F) as u8) != 0u8) by (bit_vector);
    assert((0xF0u8 | ((v >> 18) & 0x7) as u8) != 0u8) by (bit_vector);
    assert((0x80u8 | (v & 0x3F) as u8) != 0u8) by (bit_vector);
    assert((0x80u8 | ((v >> 6) & 0x3F) as u8) != 0u8) by (bit_vector);
    assert((0x80u8 | ((v >> 12) & 0x3F) as u8) != 0u8) by (bit_vector);
}

/// The UTF-8 encoding of a string without NUL holds no zero byte.
pub proof fn lemma_encode_no_zero(s: Seq<char>)
    requires
        no_nul(s),
    ensures
        forall|j: int| 0 <= j < encode_utf8(s).len() ==> #[trigger] encode_utf8(s)[j] != 0,
    decreases s.len(),
{
    if s.len() > 0 {
        lemma_scalar_no_zero(s[0]);
        lemma_encode_no_zero(s.drop_first());
        let e = encode_scalar(s[0] as u32);
        let rest = encode_utf8(s.drop_first());
        assert(encode_utf8(s) == e + rest);
        assert forall|j: int| 0 <= j < encode_utf8(s).len() implies encode_utf8(s)[j] != 0 by {
            if j < e.len() {
                assert(encode_utf8(s)[j] == e[j]);
            } else {
                assert(encode_utf8(s)[j] == rest[j - e.len()]);
            }
        }
    }
}

/// The strings of two sequences, one after the other.
pub proof fn lemma_strings_block_add(a: Seq<Seq<char>>, b: Seq<Seq<char>>)
    ensures
        strings_block(a + b) == strings_block(a) + strings_block(b),
    decreases b.len(),
{
    if b.len() == 0 {
        assert(a + b =~= a);
        assert(strings_block(a) + strings_block(b) =~= strings_block(a));
    } else {
        lemma_strings_block_add(a, b.drop_last());
        assert((a + b).drop_last() =~= a + b.drop_last());
    }
}

/// String `i` of a block of strings, read back.
pub proof fn lemma_string_at_block(pre: Seq<u8>, ss: Seq<Seq<char>>, i: int, post: Seq<u8>)
    requires
        0 <= i < ss.len(),
        no_nul(ss[i]),
    ensures
        string_at(
            pre + strings_block(ss) + post,
            (pre.len() + strings_block(ss.take(i)).len()) as int,
        ) == Ok::<Seq<char>, crate::fif::format::FifError>(ss[i]),
{
    let src = pre + strings_block(ss) + post;
    let head = strings_block(ss.take(i));
    let w = encode_utf8(ss[i]);
    let tail = strings_block(ss.skip(i + 1));
    assert(ss =~= ss.take(i + 1) + ss.skip(i + 1));
    lemma_strings_block_add(ss.take(i + 1), ss.skip(i + 1));
    assert(ss.take(i + 1).drop_last() =~= ss.take(i));
    assert(strings_block(ss) == head + w.push(0u8) + tail);
    let a = pre + head;
    assert(src =~= a + w + (seq![0u8] + tail + post));
    let off = a.len() as int;
    lemma_encode_no_zero(ss[i]);
    assert forall|k: int| off <= k < off + w.len() implies src[k] != 0 by {
        assert(src[k] == w[k - off]);
    }
    assert(src[off + w.len()] == 0);
    lemma_nul_from_skip(src, off, off + w.len());
    assert(nul_from(src, off + w.len()) == Some(off + w.len()));
    assert(src.subrange(off, off + w.len()) =~= w);
    encode_utf8_valid_utf8(ss[i]);
    encode_utf8_decode_utf8(ss[i]);
}

/// The header the encoder writes for `d` documents and `t` terms.
pub open spec fn encoded_header(d: int, t: int) -> Header {
    Header {
        version: 1,
        document_count: d as u32,
        document_table_offset: HEADER_SIZE as u32,
        term_count: t as u32,
        term_table_offset: if t > 0 {
            term_table_start(d) as u32
        } else {
            0
        },
        posting_count: t as u32,
        posting_table_offset: if t > 0 {
            posting_table_start(d, t) as u32
        } else {
            0
        },
    }
}

/// The header fields of anything that starts with the header the encoder
/// writes.
pub proof fn lemma_header_fields(d: int, t: int, rest: Seq<u8>)
    ensures
        header_block(d, t).len() == HEADER_SIZE,
        (header_block(d, t) + rest).take(4) == magic(),
        header_fields(header_block(d, t) + rest) == encoded_header(d, t),
{
    let tt: u32 = if t > 0 {
        term_table_start(d) as u32
    } else {
        0
    };
    let pt: u32 = if t > 0 {
        posting_table_start(d, t) as u32
    } else {
        0
    };
    let s = header_block(d, t) + rest;
    let m = magic();
    let f1 = le_u32(1);
    let f2 = le_u32(d as u32);
    let f3 = le_u32(32);
    let f4 = le_u32(t as u32);
    let f5 = le_u32(tt);
    let f6 = le_u32(t as u32);
    let f7 = le_u32(pt);
    assert(s =~= m + f1 + (f2 + f3 + f4 + f5 + f6 + f7 + rest));
    lemma_u32_at_le(m, 1, f2 + f3 + f4 + f5 + f6 + f7 + rest);
    assert(s =~= (m + f1) + f2 + (f3 + f4 + f5 + f6 + f7 + rest));
    lemma_u32_at_le(m + f1, d as u32, f3 + f4 + f5 + f6 + f7 + rest);
    assert(s =~= (m + f1 + f2) + f3 + (f4 + f5 + f6 + f7 + rest));
    lemma_u32_at_le(m + f1 + f2, 32, f4 + f5 + f6 + f7 + rest);
    assert(s =~= (m + f1 + f2 + f3) + f4 + (f5 + f6 + f7 + rest));
    lemma_u32_at_le(m + f1 + f2 + f3, t as u32, f5 + f6 + f7 + rest);
    assert(s =~= (m + f1 + f2 + f3 + f4) + f5 + (f6 + f7 + rest));
    lemma_u32_at_le(m + f1 + f2 + f3 + f4, tt, f6 + f7 + rest);
    assert(s =~= (m + f1 + f2 + f3 + f4 + f5) + f6 + (f7 + rest));
    lemma_u32_at_le(m + f1 + f2 + f3 + f4 + f5, t as u32, f7 + rest);
    assert(s =~= (m + f1 + f2 + f3 + f4 + f5 + f6) + f7 + rest);
    lemma_u32_at_le(m + f1 + f2 + f3 + f4 + f5 + f6, pt, rest);
    assert(s.take(4) =~= m);
}

/// The length of the encoding.
pub proof fn lemma_encoding_len(paths: Seq<Seq<char>>, keys: Seq<Seq<char>>, lists: Seq<Seq<usize>>)
    requires
        keys.len() == lists.len(),
    ensures
        encoding(paths, keys, lists).len() == encoding_len(paths, keys, lists),
{
    let d = paths.len() as int;
    let t = keys.len() as int;
    let sp = strings_block(paths);
    lemma_header_fields(d, t, Seq::empty());
    lemma_u32s_block_len(string_offsets(data_start(d, t), paths));
    lemma_u32s_block_len(string_offsets(data_start(d, t) + sp.len(), keys));
    lemma_pairs_block_len(
        list_offsets(data_start(d, t) + sp.len() + strings_block(keys).len(), lists),
        lists,
    );
    lemma_u32s_block_len(ids_as_ints(flatten(lists)));
}

/// The header of an encoded index reads back, and passes every check.
pub proof fn lemma_parse_encoding(paths: Seq<Seq<char>>, keys: Seq<Seq<char>>, lists: Seq<Seq<usize>>)
    requires
        keys.len() == lists.len(),
        fits_format(paths, keys, lists),
    ensures
        parse_header(encoding(paths, keys, lists)) == Ok::<Header, FifError>(
            encoded_header(paths.len() as int, keys.len() as int),
        ),
{
    let d = paths.len() as int;
    let t = keys.len() as int;
    let e = encoding(paths, keys, lists);
    let h = header_block(d, t);
    lemma_encoding_len(paths, keys, lists);
    let rest = e.skip(32);
    assert(e =~= h + rest) by {
        lemma_header_fields(d, t, Seq::empty());
    }
    lemma_header_fields(d, t, rest);
}

/// The offset and the length stored for list `k` in a posting table.
pub proof fn lemma_pairs_block_at(offsets: Seq<int>, lists: Seq<Seq<usize>>, k: int)
    requires
        0 <= k < lists.len(),
    ensures
        u32_at(pairs_block(offsets, lists), 8 * k) == offsets[k] as u32,
        u32_at(pairs_block(offsets, lists), 8 * k + 4) == lists[k].len() as u32,
    decreases lists.len(),
{
    lemma_pairs_block_len(offsets, lists);
    if k + 1 < lists.len() {
        lemma_pairs_block_at(offsets, lists.drop_last(), k);
        lemma_pairs_block_len(offsets, lists.drop_last());
        let front = pairs_block(offsets, lists.drop_last());
        let back = le_u32(offsets[lists.len() - 1] as u32) + le_u32(lists.last().len() as u32);
        assert(pairs_block(offsets, lists) =~= front + back);
        lemma_u32_at_shift(Seq::empty(), front, back, 8 * k);
        lemma_u32_at_shift(Seq::empty(), front, back, 8 * k + 4);
        assert(Seq::<u8>::empty() + front + back =~= pairs_block(offsets, lists));
    } else {
        let front = pairs_block(offsets, lists.drop_last());
        lemma_pairs_block_len(offsets, lists.drop_last());
        lemma_u32_at_le(front, offsets[k] as u32, le_u32(lists.last().len() as u32));
        lemma_u32_at_le(front + le_u32(offsets[k] as u32), lists.last().len() as u32, Seq::empty());
        assert(front + le_u32(offsets[k] as u32) + le_u32(lists.last().len() as u32) + Seq::<u8>::empty()
            =~= pairs_block(offsets, lists));
    }
}

/// Document ids as stored in the file.
pub open spec fn ids_as_u32s(ids: Seq<usize>) -> Seq<u32> {
    ids.map_values(|x: usize| x as u32)
}

/// Document `i` of an encoded index reads back as its path.
pub proof fn lemma_document_at_encoding(paths: Seq<Seq<char>>, keys: Seq<Seq<char>>, lists: Seq<Seq<usize>>, i: int)
    requires
        keys.len() == lists.len(),
        fits_format(paths, keys, lists),
        0 <= i < paths.len(),
        no_nul(paths[i]),
    ensures
        document_at(
            encoding(paths, keys, lists),
            encoded_header(paths.len() as int, keys.len() as int),
            i as u32,
        ) == Ok::<Option<Seq<char>>, FifError>(Some(paths[i])),
{
    let d = paths.len() as int;
    let t = keys.len() as int;
    let e = encoding(paths, keys, lists);
    let sp = strings_block(paths);
    let sk = strings_block(keys);
    let h = header_block(d, t);
    let offs = string_offsets(data_start(d, t), paths);
    let ud = u32s_block(offs);
    let ut = u32s_block(string_offsets(data_start(d, t) + sp.len(), keys));
    let pb = pairs_block(list_offsets(data_start(d, t) + sp.len() + sk.len(), lists), lists);
    let ids = u32s_block(ids_as_ints(flatten(lists)));
    lemma_encoding_len(paths, keys, lists);
    lemma_header_fields(d, t, Seq::empty());
    lemma_u32s_block_at(offs, i);
    lemma_u32s_block_len(string_offsets(data_start(d, t) + sp.len(), keys));
    lemma_pairs_block_len(list_offsets(data_start(d, t) + sp.len() + sk.len(), lists), lists);
    lemma_strings_block_prefix(paths, i);
    assert(e =~= h + ud + (ut + pb + sp + sk + ids));
    lemma_u32_at_shift(h, ud, ut + pb + sp + sk + ids, 4 * i);
    assert(field_at(e, 32 + 4 * i) == Ok::<u32, FifError>(offs[i] as u32));
    assert(e =~= (h + ud + ut + pb) + sp + (sk + ids));
    lemma_string_at_block(h + ud + ut + pb, paths, i, sk + ids);
}

/// Term `k` of an encoded index reads back as the term.
pub proof fn lemma_term_at_encoding(paths: Seq<Seq<char>>, keys: Seq<Seq<char>>, lists: Seq<Seq<usize>>, k: int)
    requires
        keys.len() == lists.len(),
        fits_format(paths, keys, lists),
        0 <= k < keys.len(),
        no_nul(keys[k]),
    ensures
        term_at(
            encoding(paths, keys, lists),
            encoded_header(paths.len() as int, keys.len() as int),
            k as u32,
        ) == Ok::<Option<Seq<char>>, FifError>(Some(keys[k])),
{
    let d = paths.len() as int;
    let t = keys.len() as int;
    let e = encoding(paths, keys, lists);
    let sp = strings_block(paths);
    let sk = strings_block(keys);
    let h = header_block(d, t);
    let ud = u32s_block(string_offsets(data_start(d, t), paths));
    let offs = string_offsets(data_start(d, t) + sp.len(), keys);
    let ut = u32s_block(offs);
    let pb = pairs_block(list_offsets(data_start(d, t) + sp.len() + sk.len(), lists), lists);
    let ids = u32s_block(ids_as_ints(flatten(lists)));
    lemma_encoding_len(paths, keys, lists);
    lemma_header_fields(d, t, Seq::empty());
    lemma_u32s_block_len(string_offsets(data_start(d, t), paths));
    lemma_u32s_block_at(offs, k);
    lemma_pairs_block_len(list_offsets(data_start(d, t) + sp.len() + sk.len(), lists), lists);
    lemma_strings_block_prefix(keys, k);
    assert(e =~= (h + ud) + ut + (pb + sp + sk + ids));
    lemma_u32_at_shift(h + ud, ut, pb + sp + sk + ids, 4 * k);
    assert(field_at(e, term_table_start(d) + 4 * k) == Ok::<u32, FifError>(offs[k] as u32));
    assert(e =~= (h + ud + ut + pb + sp) + sk + ids);
    lemma_string_at_block(h + ud + ut + pb + sp, keys, k, ids);
}

/// The posting list of term `k` of an encoded index reads back as its
/// list.
pub proof fn lemma_postings_at_encoding(paths: Seq<Seq<char>>, keys: Seq<Seq<char>>, lists: Seq<Seq<usize>>, k: int)
    requires
        keys.len() == lists.len(),
        fits_format(paths, keys, lists),
        0 <= k < keys.len(),
    ensures
        postings_at(
            encoding(paths, keys, lists),
            encoded_header(paths.len() as int, keys.len() as int),
            k as u32,
        ) == Ok::<Option<Seq<u32>>, FifError>(Some(ids_as_u32s(lists[k]))),
{
    let d = paths.len() as int;
    let t = keys.len() as int;
    let e = encoding(paths, keys, lists);
    let sp = strings_block(paths);
    let sk = strings_block(keys);
    let h = header_block(d, t);
    let ud = u32s_block(string_offsets(data_start(d, t), paths));
    let ut = u32s_block(string_offsets(data_start(d, t) + sp.len(), keys));
    let lo = list_offsets(data_start(d, t) + sp.len() + sk.len(), lists);
    let pb = pairs_block(lo, lists);
    let fl = flatten(lists);
    let ids = u32s_block(ids_as_ints(fl));
    lemma_encoding_len(paths, keys, lists);
    lemma_header_fields(d, t, Seq::empty());
    lemma_u32s_block_len(string_offsets(data_start(d, t), paths));
    lemma_u32s_block_len(string_offsets(data_start(d, t) + sp.len(), keys));
    lemma_pairs_block_len(lo, lists);
    lemma_pairs_block_at(lo, lists, k);
    lemma_flatten_split(lists, k);
    lemma_flatten_prefix(lists, k + 1);
    let before = flatten(lists.take(k)).len();
    assert(e =~= (h + ud + ut) + pb + (sp + sk + ids));
    lemma_u32_at_shift(h + ud + ut, pb, sp + sk + ids, 8 * k);
    lemma_u32_at_shift(h + ud + ut, pb, sp + sk + ids, 8 * k + 4);
    let pre = h + ud + ut + pb + sp + sk;
    assert(e =~= pre + ids + Seq::<u8>::empty());
    assert(lo[k] == pre.len() + 4 * before);
    let n = lists[k].len();
    let got = Seq::new(n as nat, |j: int| u32_at(e, lo[k] + 4 * j));
    assert forall|j: int| 0 <= j < n implies got[j] == ids_as_u32s(lists[k])[j] by {
        lemma_u32s_block_at(ids_as_ints(fl), before + j);
        lemma_u32_at_shift(pre, ids, Seq::<u8>::empty(), 4 * (before + j));
        assert(fl[before + j] == lists[k][j]);
    }
    assert(got =~= ids_as_u32s(lists[k]));
}

/// Reading back an encoded index gives back what was encoded: the header
/// passes every check and counts the documents and terms, document `i` is
/// the path of document `i`, term `k` is term `k`, and the posting list of
/// term `k` is its list of document ids. The paths and terms must hold no
/// NUL character, which the format uses to end them.
pub proof fn lemma_roundtrip(paths: Seq<Seq<char>>, keys: Seq<Seq<char>>, lists: Seq<Seq<usize>>)
    requires
        keys.len() == lists.len(),
        fits_format(paths, keys, lists),
        forall|i: int| 0 <= i < paths.len() ==> no_nul(#[trigger] paths[i]),
        forall|k: int| 0 <= k < keys.len() ==> no_nul(#[trigger] keys[k]),
    ensures
        ({
            let e = encoding(paths, keys, lists);
            let h = encoded_header(paths.len() as int, keys.len() as int);
            &&& parse_header(e) == Ok::<Header, FifError>(h)
            &&& h.document_count == paths.len()
            &&& h.term_count == keys.len()
            &&& forall|i: u32|
                #[trigger] document_at(e, h, i) == if i < paths.len() {
                    Ok::<Option<Seq<char>>, FifError>(Some(paths[i as int]))
                } else {
                    Ok(None)
                }
            &&& forall|k: u32|
                #[trigger] term_at(e, h, k) == if k < keys.len() {
                    Ok::<Option<Seq<char>>, FifError>(Some(keys[k as int]))
                } else {
                    Ok(None)
                }
            &&& forall|k: u32|
                #[trigger] postings_at(e, h, k) == if k < keys.len() {
                    Ok::<Option<Seq<u32>>, FifError>(Some(ids_as_u32s(lists[k as int])))
                } else {
                    Ok(None)
                }
        }),
{
    let e = encoding(paths, keys, lists);
    let h = encoded_header(paths.len() as int, keys.len() as int);
    lemma_parse_encoding(paths, keys, lists);
    lemma_encoding_len(paths, keys, lists);
    assert forall|i: u32| #[trigger] document_at(e, h, i) == if i < paths.len() {
        Ok::<Option<Seq<char>>, FifError>(Some(paths[i as int]))
    } else {
        Ok(None)
    } by {
        if i < paths.len() {
            lemma_document_at_encoding(paths, keys, lists, i as int);
        }
    }
    assert forall|k: u32| #[trigger] term_at(e, h, k) == if k < keys.len() {
        Ok::<Option<Seq<char>>, FifError>(Some(keys[k as int]))
    } else {
        Ok(None)
    } by {
        if k < keys.len() {
            lemma_term_at_encoding(paths, keys, lists, k as int);
        }
    }
    assert forall|k: u32| #[trigger] postings_at(e, h, k) == if k < keys.len() {
        Ok::<Option<Seq<u32>>, FifError>(Some(ids_as_u32s(lists[k as int])))
    } else {
        Ok(None)
    } by {
        if k < keys.len() {
            lemma_postings_at_encoding(paths, keys, lists, k as int);
        }
    }
}

/// Binary search over a table of terms in byte order finds the term with
/// the needle's bytes when there is one, and nothing otherwise.
proof fn lemma_search_sorted(src: Seq<u8>, h: Header, keys: Seq<Seq<char>>, needle: Seq<u8>, low: int, high: int)
    requires
        keys.len() == h.term_count,
        keys_sorted(keys),
        forall|k: u32|
            k < keys.len() ==> #[trigger] term_at(src, h, k) == Ok::<Option<Seq<char>>, FifError>(
                Some(keys[k as int]),
            ),
        0 <= low <= high <= keys.len(),
    ensures
        forall|k: int|
            low <= k < high && encode_utf8(#[trigger] keys[k]) == needle ==> search(
                src,
                h,
                needle,
                low,
                high,
            ) == Ok::<Option<u32>, FifError>(Some(k as u32)),
        (forall|k: int| low <= k < high ==> encode_utf8(#[trigger] keys[k]) != needle) ==> search(
            src,
            h,
            needle,
            low,
            high,
        ) == Ok::<Option<u32>, FifError>(None),
    decreases high - low,
{
    if low < high {
        let middle = low + (high - low) / 2;
        assert(term_at(src, h, middle as u32) == Ok::<Option<Seq<char>>, FifError>(
            Some(keys[middle]),
        ));
        let km = encode_utf8(keys[middle]);
        lemma_lex_order_equal(km, needle);
        lemma_lex_order_flip(km, needle);
        match lex_order(km, needle) {
            Order::Less => {
                lemma_search_sorted(src, h, keys, needle, middle + 1, high);
                assert forall|k: int| low <= k <= middle implies encode_utf8(#[trigger] keys[k]) != needle by {
                    if k < middle {
                        lemma_lex_order_trans(encode_utf8(keys[k]), km, needle);
                        lemma_lex_order_equal(encode_utf8(keys[k]), needle);
                    }
                }
            },
            Order::Greater => {
                lemma_search_sorted(src, h, keys, needle, low, middle);
                assert forall|k: int| middle <= k < high implies encode_utf8(#[trigger] keys[k]) != needle by {
                    if k > middle {
                        lemma_lex_order_flip(encode_utf8(keys[k]), needle);
                        lemma_lex_order_equal(encode_utf8(keys[k]), needle);
                        if lex_order(encode_utf8(keys[k]), needle) == Order::Less {
                            lemma_lex_order_trans(km, encode_utf8(keys[k]), needle);
                        }
                    }
                }
            },
            Order::Equal => {
                assert forall|k: int| low <= k < high && encode_utf8(#[trigger] keys[k]) == needle implies k
                    == middle by {
                    if k < middle {
                        lemma_lex_order_equal(encode_utf8(keys[k]), km);
                    } else if k > middle {
                        lemma_lex_order_equal(km, encode_utf8(keys[k]));
                    }
                }
            },
        }
    }
}

/// On an encoded index whose terms are in byte order, looking up a term
/// finds its index, and looking up anything that is not a term finds
/// nothing.
pub proof fn lemma_find_term_encoding(
    paths: Seq<Seq<char>>,
    keys: Seq<Seq<char>>,
    lists: Seq<Seq<usize>>,
    needle: Seq<char>,
)
    requires
        keys.len() == lists.len(),
        keys_sorted(keys),
        fits_format(paths, keys, lists),
        forall|i: int| 0 <= i < paths.len() ==> no_nul(#[trigger] paths[i]),
        forall|k: int| 0 <= k < keys.len() ==> no_nul(#[trigger] keys[k]),
    ensures
        forall|k: int|
            0 <= k < keys.len() && #[trigger] keys[k] == needle ==> find_term_result(
                encoding(paths, keys, lists),
                encoded_header(paths.len() as int, keys.len() as int),
                encode_utf8(needle),
            ) == Ok::<Option<u32>, FifError>(Some(k as u32)),
        !keys.contains(needle) ==> find_term_result(
            encoding(paths, keys, lists),
            encoded_header(paths.len() as int, keys.len() as int),
            encode_utf8(needle),
        ) == Ok::<Option<u32>, FifError>(None),
{
    let e = encoding(paths, keys, lists);
    let h = encoded_header(paths.len() as int, keys.len() as int);
    lemma_roundtrip(paths, keys, lists);
    lemma_encoding_len(paths, keys, lists);
    lemma_search_sorted(e, h, keys, encode_utf8(needle), 0, keys.len() as int);
    assert forall|k: int| 0 <= k < keys.len() implies (#[trigger] encode_utf8(keys[k]) == encode_utf8(
        needle,
    ) <==> keys[k] == needle) by {
        if encode_utf8(keys[k]) == encode_utf8(needle) {
            encode_utf8_decode_utf8(keys[k]);
            encode_utf8_decode_utf8(needle);
        }
    }
}

/// Whether the ids of `s` strictly increase.
pub open spec fn increasing(s: Seq<u32>) -> bool {
    forall|i: int, j: int| 0 <= i < j < s.len() ==> #[trigger] s[i] < #[trigger] s[j]
}

/// On a list whose ids strictly increase, binary search finds exactly the
/// ids of the list.
pub proof fn lemma_bisect_sorted(s: Seq<u32>, x: u32, low: int, high: int)
    requires
        increasing(s),
        0 <= low <= high <= s.len(),
    ensures
        bisect(s, x, low, high) <==> exists|i: int| low <= i < high && #[trigger] s[i] == x,
    decreases high - low,
{
    if low < high {
        let middle = low + (high - low) / 2;
        if s[middle] == x {
        } else if s[middle] < x {
            lemma_bisect_sorted(s, x, middle + 1, high);
            if exists|i: int| low <= i < high && #[trigger] s[i] == x {
                let i = choose|i: int| low <= i < high && #[trigger] s[i] == x;
                if i <= middle {
                    assert(s[i] <= s[middle]);
                }
            }
        } else {
            lemma_bisect_sorted(s, x, low, middle);
            if exists|i: int| low <= i < high && #[trigger] s[i] == x {
                let i = choose|i: int| low <= i < high && #[trigger] s[i] == x;
                if i >= middle {
                    assert(s[i] >= s[middle]);
                }
            }
        }
    }
}

/// Filtering by `f` keeps what filtering by `g` keeps when the two agree
/// on every element.
pub proof fn lemma_filter_congruent(s: Seq<u32>, f: spec_fn(u32) -> bool, g: spec_fn(u32) -> bool)
    requires
        forall|i: int| 0 <= i < s.len() ==> f(#[trigger] s[i]) == g(s[i]),
    ensures
        s.filter(f) == s.filter(g),
    decreases s.len(),
{
    reveal(Seq::filter);
    if s.len() > 0 {
        lemma_filter_congruent(s.drop_last(), f, g);
        assert(f(s[s.len() - 1]) == g(s[s.len() - 1]));
    }
}

/// Filtering twice keeps what satisfies both predicates.
pub proof fn lemma_filter_twice(s: Seq<u32>, f: spec_fn(u32) -> bool, g: spec_fn(u32) -> bool)
    ensures
        s.filter(f).filter(g) == s.filter(|x: u32| f(x) && g(x)),
    decreases s.len(),
{
    reveal(Seq::filter);
    if s.len() > 0 {
        lemma_filter_twice(s.drop_last(), f, g);
        let x = s.last();
        let sub = s.drop_last().filter(f);
        if f(x) {
            assert(s.filter(f) == sub.push(x));
            assert(sub.push(x).drop_last() =~= sub);
        }
    }
}

/// Filtering keeps every element that satisfies the predicate.
pub proof fn lemma_filter_all(s: Seq<u32>, f: spec_fn(u32) -> bool)
    requires
        forall|i: int| 0 <= i < s.len() ==> f(#[trigger] s[i]),
    ensures
        s.filter(f) == s,
    decreases s.len(),
{
    reveal(Seq::filter);
    if s.len() > 0 {
        lemma_filter_all(s.drop_last(), f);
        assert(f(s[s.len() - 1]));
        assert(s.drop_last().push(s.last()) =~= s);
    }
}

/// Filtering keeps nothing when no element satisfies the predicate.
pub proof fn lemma_filter_none(s: Seq<u32>, f: spec_fn(u32) -> bool)
    requires
        forall|i: int| 0 <= i < s.len() ==> !f(#[trigger] s[i]),
    ensures
        s.filter(f) == Seq::<u32>::empty(),
    decreases s.len(),
{
    reveal(Seq::filter);
    if s.len() > 0 {
        lemma_filter_none(s.drop_last(), f);
        assert(!f(s[s.len() - 1]));
    }
}

/// On an encoded index whose terms are in byte order, the posting list
/// looked up for a term is its list, and nothing is found for anything that
/// is not a term.
pub proof fn lemma_postings_for_encoding(
    paths: Seq<Seq<char>>,
    keys: Seq<Seq<char>>,
    lists: Seq<Seq<usize>>,
    needle: Seq<char>,
)
    requires
        keys.len() == lists.len(),
        keys_sorted(keys),
        fits_format(paths, keys, lists),
        forall|i: int| 0 <= i < paths.len() ==> no_nul(#[trigger] paths[i]),
        forall|k: int| 0 <= k < keys.len() ==> no_nul(#[trigger] keys[k]),
    ensures
        forall|k: int|
            0 <= k < keys.len() && #[trigger] keys[k] == needle ==> postings_for(
                encoding(paths, keys, lists),
                encoded_header(paths.len() as int, keys.len() as int),
                encode_utf8(needle),
            ) == Ok::<Option<Seq<u32>>, FifError>(Some(ids_as_u32s(lists[k]))),
        !keys.contains(needle) ==> postings_for(
            encoding(paths, keys, lists),
            encoded_header(paths.len() as int, keys.len() as int),
            encode_utf8(needle),
        ) == Ok::<Option<Seq<u32>>, FifError>(None),
{
    let e = encoding(paths, keys, lists);
    let h = encoded_header(paths.len() as int, keys.len() as int);
    lemma_find_term_encoding(paths, keys, lists, needle);
    lemma_roundtrip(paths, keys, lists);
    lemma_encoding_len(paths, keys, lists);
    assert forall|k: int| 0 <= k < keys.len() && #[trigger] keys[k] == needle implies postings_for(
        e,
        h,
        encode_utf8(needle),
    ) == Ok::<Option<Seq<u32>>, FifError>(Some(ids_as_u32s(lists[k]))) by {
        assert(postings_at(e, h, k as u32) == Ok::<Option<Seq<u32>>, FifError>(
            Some(ids_as_u32s(lists[k])),
        ));
    }
}

/// Whether the first `n` query terms are all tokens of `path`.
pub open spec fn holds_first(path: Seq<char>, query: Seq<Seq<char>>, n: int) -> bool {
    forall|i: int| 0 <= i < n ==> #[trigger] tokens(path).contains(query[i])
}

/// Whether every query term is a token of `path`.
pub open spec fn holds_all(path: Seq<char>, query: Seq<Seq<char>>) -> bool {
    holds_first(path, query, query.len() as int)
}

/// The ids, in increasing order, of the documents whose path holds every
/// query term; none for an empty query.
pub open spec fn matching_documents(paths: Seq<Seq<char>>, query: Seq<Seq<char>>) -> Seq<u32> {
    if query.len() == 0 {
        seq![]
    } else {
        ids_as_u32s(docs_with(paths, query[0], paths.len() as int)).filter(
            |d: u32| holds_all(paths[d as int], query),
        )
    }
}

/// The UTF-8 bytes of each query term.
pub open spec fn query_term_bytes(query: Seq<Seq<char>>) -> Seq<Seq<u8>> {
    query.map_values(|t: Seq<char>| encode_utf8(t))
}

/// What the reader needs of an index: its lists are those of its paths,
/// it fits the format, and no path or term holds a NUL character.
pub open spec fn readable_index(paths: Seq<Seq<char>>, keys: Seq<Seq<char>>, lists: Seq<Seq<usize>>) -> bool {
    &&& inverts(paths, keys, lists)
    &&& fits_format(paths, keys, lists)
    &&& forall|i: int| 0 <= i < paths.len() ==> no_nul(#[trigger] paths[i])
    &&& forall|k: int| 0 <= k < keys.len() ==> no_nul(#[trigger] keys[k])
}

/// The ids of the documents whose path holds `t`, as stored, strictly
/// increase, stay below the number of documents, and are exactly those
/// documents.
proof fn lemma_stored_docs_with(paths: Seq<Seq<char>>, t: Seq<char>)
    requires
        4 * paths.len() <= u32::MAX,
    ensures
        increasing(ids_as_u32s(docs_with(paths, t, paths.len() as int))),
        forall|j: int|
            0 <= j < docs_with(paths, t, paths.len() as int).len() ==> (#[trigger] ids_as_u32s(
                docs_with(paths, t, paths.len() as int),
            )[j] as int) == docs_with(paths, t, paths.len() as int)[j] && docs_with(
                paths,
                t,
                paths.len() as int,
            )[j] < paths.len(),
        forall|d: u32|
            d < paths.len() ==> ((exists|j: int|
                0 <= j < ids_as_u32s(docs_with(paths, t, paths.len() as int)).len()
                    && #[trigger] ids_as_u32s(docs_with(paths, t, paths.len() as int))[j] == d)
                <==> tokens(paths[d as int]).contains(t)),
{
    let n = paths.len() as int;
    let dw = docs_with(paths, t, n);
    let p = ids_as_u32s(dw);
    lemma_docs_with_increasing(paths, t, n);
    assert forall|d: u32| d < paths.len() implies ((exists|j: int|
        0 <= j < p.len() && #[trigger] p[j] == d) <==> tokens(paths[d as int]).contains(t)) by {
        lemma_docs_with_contains(paths, t, n, d as int);
        if exists|j: int| 0 <= j < p.len() && #[trigger] p[j] == d {
            let j = choose|j: int| 0 <= j < p.len() && #[trigger] p[j] == d;
            assert(dw[j] == d as usize);
        }
        if dw.contains(d as usize) {
            let j = choose|j: int| 0 <= j < dw.len() && dw[j] == d as usize;
            assert(p[j] == d);
        }
    }
}

proof fn lemma_and_rest(
    paths: Seq<Seq<char>>,
    keys: Seq<Seq<char>>,
    lists: Seq<Seq<usize>>,
    query: Seq<Seq<char>>,
    i: int,
    matches: Seq<u32>,
)
    requires
        readable_index(paths, keys, lists),
        1 <= i <= query.len(),
        matches == ids_as_u32s(docs_with(paths, query[0], paths.len() as int)).filter(
            |d: u32| holds_first(paths[d as int], query, i),
        ),
    ensures
        and_rest(
            encoding(paths, keys, lists),
            encoded_header(paths.len() as int, keys.len() as int),
            query_term_bytes(query),
            i,
            matches,
        ) == Ok::<Seq<u32>, FifError>(matching_documents(paths, query)),
    decreases query.len() - i,
{
    let e = encoding(paths, keys, lists);
    let h = encoded_header(paths.len() as int, keys.len() as int);
    let n = paths.len() as int;
    let base = ids_as_u32s(docs_with(paths, query[0], n));
    let all = |d: u32| holds_all(paths[d as int], query);
    let first_i = |d: u32| holds_first(paths[d as int], query, i);
    lemma_encoding_len(paths, keys, lists);
    lemma_stored_docs_with(paths, query[0]);
    if i == query.len() {
        lemma_filter_congruent(base, first_i, all);
    } else {
        let q = query[i];
        assert(query_term_bytes(query)[i] == encode_utf8(q));
        lemma_postings_for_encoding(paths, keys, lists, q);
        if keys.contains(q) {
            let k = choose|k: int| 0 <= k < keys.len() && keys[k] == q;
            let p = ids_as_u32s(lists[k]);
            assert(lists[k] == docs_with(paths, keys[k], n));
            lemma_stored_docs_with(paths, q);
            let found = |d: u32| bisect(p, d, 0, p.len() as int);
            let next = |d: u32| holds_first(paths[d as int], query, i + 1);
            assert(keep_found(matches, p) == matches.filter(found));
            lemma_filter_twice(base, first_i, found);
            assert forall|j: int| 0 <= j < base.len() implies (first_i(#[trigger] base[j]) && found(base[j]))
                == next(base[j]) by {
                let d = base[j];
                lemma_bisect_sorted(p, d, 0, p.len() as int);
                if holds_first(paths[d as int], query, i) && tokens(paths[d as int]).contains(q) {
                    assert forall|x: int| 0 <= x < i + 1 implies #[trigger] tokens(paths[d as int]).contains(
                        query[x],
                    ) by {}
                }
                if next(d) {
                    assert(tokens(paths[d as int]).contains(query[i]));
                }
            }
            lemma_filter_congruent(base, |x: u32| first_i(x) && found(x), next);
            lemma_and_rest(paths, keys, lists, query, i + 1, base.filter(next));
        } else {
            assert forall|j: int| 0 <= j < base.len() implies !all(#[trigger] base[j]) by {
                let d = base[j];
                if all(d) {
                    assert(tokens(paths[d as int]).contains(query[i]));
                }
            }
            lemma_filter_none(base, all);
        }
    }
}

/// The AND search of an encoded index: for a non-empty query, the ids, in
/// increasing order, of exactly the documents whose path holds every query
/// term; for an empty query, none.
pub proof fn lemma_and_search_encoding(
    paths: Seq<Seq<char>>,
    keys: Seq<Seq<char>>,
    lists: Seq<Seq<usize>>,
    query: Seq<Seq<char>>,
)
    requires
        readable_index(paths, keys, lists),
    ensures
        and_search_result(
            encoding(paths, keys, lists),
            encoded_header(paths.len() as int, keys.len() as int),
            query_term_bytes(query),
        ) == Ok::<Seq<u32>, FifError>(matching_documents(paths, query)),
{
    if query.len() > 0 {
        let n = paths.len() as int;
        let q = query[0];
        let base = ids_as_u32s(docs_with(paths, q, n));
        lemma_encoding_len(paths, keys, lists);
        assert(query_term_bytes(query)[0] == encode_utf8(q));
        lemma_postings_for_encoding(paths, keys, lists, q);
        lemma_stored_docs_with(paths, q);
        if keys.contains(q) {
            let k = choose|k: int| 0 <= k < keys.len() && keys[k] == q;
            assert(lists[k] == docs_with(paths, keys[k], n));
            let first = |d: u32| holds_first(paths[d as int], query, 1);
            assert forall|j: int| 0 <= j < base.len() implies first(#[trigger] base[j]) by {
                let d = base[j];
                assert(exists|x: int| 0 <= x < base.len() && #[trigger] base[x] == d);
                assert forall|x: int| 0 <= x < 1 implies #[trigger] tokens(paths[d as int]).contains(
                    query[x],
                ) by {}
            }
            lemma_filter_all(base, first);
            lemma_and_rest(paths, keys, lists, query, 1, base);
        } else {
            assert forall|d: int| 0 <= d < n implies !#[trigger] tokens(paths[d]).contains(q) by {}
            lemma_docs_with_none(paths, q, n);
            assert(base =~= Seq::<u32>::empty());
            reveal(Seq::filter);
        }
    }
}

} // verus!
