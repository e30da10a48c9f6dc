//! Properties that span several calls: of the AND search over several
//! queries, and of the encoding over indexes built in different ways.

use vstd::prelude::*;
use vstd::utf8::encode_utf8;
use crate::fif::format::{encoding, fits_format, FifError, Header};
use crate::fif::reader::{
    and_rest, and_search_result, bisect, keep_found, lemma_lex_order_equal, lemma_lex_order_first_difference,
    lemma_lex_order_flip, lemma_lex_order_prefix, lemma_lex_order_trans, lex_order, postings_for, Order,
};
use crate::index::{keys_sorted, Posting};
use crate::fif::roundtrip::{increasing, lemma_bisect_sorted, lemma_filter_none};

verus! {

/// The posting list that looking up `t` gives, or nothing.
pub open spec fn list_of(src: Seq<u8>, h: Header, t: Seq<u8>) -> Seq<u32> {
    match postings_for(src, h, t) {
        Ok(Some(p)) => p,
        _ => seq![],
    }
}

/// Every query term is found, with a posting list whose ids strictly
/// increase.
pub open spec fn lookups_succeed(src: Seq<u8>, h: Header, query: Seq<Seq<u8>>) -> bool {
    forall|i: int| 0 <= i < query.len() ==> {
        &&& postings_for(src, h, #[trigger] query[i]) == Ok::<Option<Seq<u32>>, FifError>(
            Some(list_of(src, h, query[i])),
        )
        &&& increasing(list_of(src, h, query[i]))
    }
}

/// `x` is in the posting list of each of the first `n` query terms.
pub open spec fn in_lists(src: Seq<u8>, h: Header, query: Seq<Seq<u8>>, n: int, x: u32) -> bool {
    forall|j: int| 0 <= j < n ==> #[trigger] list_of(src, h, query[j]).contains(x)
}

proof fn lemma_filter_increasing(s: Seq<u32>, f: spec_fn(u32) -> bool)
    requires
        increasing(s),
    ensures
        increasing(s.filter(f)),
        forall|x: u32| #[trigger] s.filter(f).contains(x) <==> s.contains(x) && f(x),
    decreases s.len(),
{
    reveal(Seq::filter);
    if s.len() > 0 {
        let d = s.drop_last();
        let x = s.last();
        assert(increasing(d));
        lemma_filter_increasing(d, f);
        let fd = d.filter(f);
        assert forall|y: u32| fd.contains(y) implies y < x by {
            assert(d.contains(y));
            let k = choose|k: int| 0 <= k < d.len() && d[k] == y;
            assert(s[k] < s[s.len() - 1]);
        }
        assert forall|y: u32| s.contains(y) <==> (d.contains(y) || y == x) by {
            if s.contains(y) {
                let k = choose|k: int| 0 <= k < s.len() && s[k] == y;
                if k < s.len() - 1 {
                    assert(d[k] == y);
                }
            }
            if d.contains(y) {
                let k = choose|k: int| 0 <= k < d.len() && d[k] == y;
                assert(s[k] == y);
            }
            if y == x {
                assert(s[s.len() - 1] == y);
            }
        }
        if f(x) {
            let r = fd.push(x);
            assert(s.filter(f) == r);
            assert forall|i: int, j: int| 0 <= i < j < r.len() implies #[trigger] r[i] < #[trigger] r[j] by {
                if j == r.len() - 1 {
                    assert(fd.contains(r[i]));
                }
            }
            assert forall|y: u32| r.contains(y) <==> (fd.contains(y) || y == x) by {
                if r.contains(y) {
                    let k = choose|k: int| 0 <= k < r.len() && r[k] == y;
                    if k < r.len() - 1 {
                        assert(fd[k] == y);
                    }
                }
                if fd.contains(y) {
                    let k = choose|k: int| 0 <= k < fd.len() && fd[k] == y;
                    assert(r[k] == y);
                }
                if y == x {
                    assert(r[r.len() - 1] == y);
                }
            }
        } else {
            assert(s.filter(f) == fd);
        }
    }
}

proof fn lemma_in_lists_step(src: Seq<u8>, h: Header, q: Seq<Seq<u8>>, i: int, x: u32)
    requires
        0 <= i,
    ensures
        in_lists(src, h, q, i + 1, x) <==> in_lists(src, h, q, i, x) && list_of(src, h, q[i]).contains(x),
{
    if in_lists(src, h, q, i, x) && list_of(src, h, q[i]).contains(x) {
        assert forall|j: int| 0 <= j < i + 1 implies #[trigger] list_of(src, h, q[j]).contains(x) by {
            if j < i {
                assert(list_of(src, h, q[j]).contains(x));
            }
        }
    }
}

proof fn lemma_and_rest_lists(src: Seq<u8>, h: Header, q: Seq<Seq<u8>>, i: int, m: Seq<u32>)
    requires
        lookups_succeed(src, h, q),
        1 <= i <= q.len(),
        increasing(m),
        forall|x: u32| m.contains(x) <==> in_lists(src, h, q, i, x),
    ensures
        and_rest(src, h, q, i, m) matches Ok(r) && increasing(r)
            && forall|x: u32| r.contains(x) <==> in_lists(src, h, q, q.len() as int, x),
    decreases q.len() - i,
{
    if i < q.len() {
        let p = list_of(src, h, q[i]);
        assert(postings_for(src, h, q[i]) == Ok::<Option<Seq<u32>>, FifError>(Some(p)));
        assert(increasing(p));
        let pred = |d: u32| bisect(p, d, 0, p.len() as int);
        let m2 = keep_found(m, p);
        assert(m2 == m.filter(pred));
        lemma_filter_increasing(m, pred);
        assert forall|x: u32| m2.contains(x) <==> in_lists(src, h, q, i + 1, x) by {
            assert(m2.contains(x) <==> m.contains(x) && pred(x));
            assert(pred(x) == bisect(p, x, 0, p.len() as int));
            lemma_bisect_sorted(p, x, 0, p.len() as int);
            lemma_in_lists_step(src, h, q, i, x);
            if p.contains(x) {
                let k = choose|k: int| 0 <= k < p.len() && p[k] == x;
                assert(exists|k: int| 0 <= k < p.len() && #[trigger] p[k] == x);
            }
            if exists|k: int| 0 <= k < p.len() && #[trigger] p[k] == x {
                let k = choose|k: int| 0 <= k < p.len() && #[trigger] p[k] == x;
                assert(p.contains(x));
            }
        }
        lemma_and_rest_lists(src, h, q, i + 1, m2);
    }
}

proof fn lemma_and_search_lists(src: Seq<u8>, h: Header, q: Seq<Seq<u8>>)
    requires
        lookups_succeed(src, h, q),
        q.len() > 0,
    ensures
        and_search_result(src, h, q) matches Ok(r) && increasing(r)
            && forall|x: u32| r.contains(x) <==> in_lists(src, h, q, q.len() as int, x),
{
    let first = list_of(src, h, q[0]);
    assert(postings_for(src, h, q[0]) == Ok::<Option<Seq<u32>>, FifError>(Some(first)));
    assert forall|x: u32| first.contains(x) <==> in_lists(src, h, q, 1, x) by {
        lemma_in_lists_step(src, h, q, 0, x);
    }
    lemma_and_rest_lists(src, h, q, 1, first);
}

/// Two lists whose ids strictly increase and that hold the same ids are
/// the same list.
pub proof fn lemma_increasing_unique(s: Seq<u32>, t: Seq<u32>)
    requires
        increasing(s),
        increasing(t),
        forall|x: u32| s.contains(x) <==> t.contains(x),
    ensures
        s == t,
    decreases s.len(),
{
    if s.len() == 0 {
        if t.len() > 0 {
            assert(t.contains(t[0]));
        }
        assert(s =~= t);
    } else {
        assert(s.contains(s.last()));
        assert(t.len() > 0);
        assert(t.contains(t.last()));
        let ks = choose|k: int| 0 <= k < s.len() && s[k] == t.last();
        let kt = choose|k: int| 0 <= k < t.len() && t[k] == s.last();
        if kt < t.len() - 1 {
            assert(t[kt] < t[t.len() - 1]);
            if ks < s.len() - 1 {
                assert(s[ks] < s[s.len() - 1]);
            }
        }
        if ks < s.len() - 1 {
            assert(s[ks] < s[s.len() - 1]);
        }
        assert(s.last() == t.last());
        let sd = s.drop_last();
        let td = t.drop_last();
        assert forall|x: u32| sd.contains(x) <==> td.contains(x) by {
            if sd.contains(x) {
                let k = choose|k: int| 0 <= k < sd.len() && sd[k] == x;
                assert(s[k] < s[s.len() - 1]);
                assert(s.contains(x));
                let j = choose|j: int| 0 <= j < t.len() && t[j] == x;
                assert(j != t.len() - 1);
                assert(td[j] == x);
            }
            if td.contains(x) {
                let k = choose|k: int| 0 <= k < td.len() && td[k] == x;
                assert(t[k] < t[t.len() - 1]);
                assert(t.contains(x));
                let j = choose|j: int| 0 <= j < s.len() && s[j] == x;
                assert(j != s.len() - 1);
                assert(sd[j] == x);
            }
        }
        lemma_increasing_unique(sd, td);
        assert(s =~= sd.push(s.last()));
        assert(t =~= td.push(t.last()));
    }
}

/// The AND search ignores the order of the query terms and repeated
/// terms: two queries that hold the same terms give the same result, when
/// every term is found with a posting list whose ids strictly increase (as
/// the encoder writes them).
pub proof fn lemma_and_search_order_independent(src: Seq<u8>, h: Header, q1: Seq<Seq<u8>>, q2: Seq<Seq<u8>>)
    requires
        lookups_succeed(src, h, q1),
        lookups_succeed(src, h, q2),
        forall|t: Seq<u8>| q1.contains(t) <==> q2.contains(t),
    ensures
        and_search_result(src, h, q1) == and_search_result(src, h, q2),
{
    if q1.len() == 0 || q2.len() == 0 {
        if q1.len() > 0 {
            assert(q1.contains(q1[0]));
        }
        if q2.len() > 0 {
            assert(q2.contains(q2[0]));
        }
    } else {
        lemma_and_search_lists(src, h, q1);
        lemma_and_search_lists(src, h, q2);
        let r1 = and_search_result(src, h, q1)->Ok_0;
        let r2 = and_search_result(src, h, q2)->Ok_0;
        assert forall|x: u32| r1.contains(x) <==> r2.contains(x) by {
            if in_lists(src, h, q1, q1.len() as int, x) {
                assert forall|j: int| 0 <= j < q2.len() implies #[trigger] list_of(src, h, q2[j]).contains(x) by {
                    assert(q2.contains(q2[j]));
                    let k = choose|k: int| 0 <= k < q1.len() && q1[k] == q2[j];
                    assert(list_of(src, h, q1[k]).contains(x));
                }
            }
            if in_lists(src, h, q2, q2.len() as int, x) {
                assert forall|j: int| 0 <= j < q1.len() implies #[trigger] list_of(src, h, q1[j]).contains(x) by {
                    assert(q1.contains(q1[j]));
                    let k = choose|k: int| 0 <= k < q2.len() && q2[k] == q1[j];
                    assert(list_of(src, h, q2[k]).contains(x));
                }
            }
        }
        lemma_increasing_unique(r1, r2);
    }
}

proof fn lemma_and_rest_narrows(src: Seq<u8>, h: Header, q: Seq<Seq<u8>>, t: Seq<u8>, i: int, m: Seq<u32>)
    requires
        1 <= i <= q.len(),
        and_rest(src, h, q, i, m) is Ok,
        and_rest(src, h, q.push(t), i, m) is Ok,
    ensures
        exists|f: spec_fn(u32) -> bool| #[trigger] and_rest(src, h, q, i, m)->Ok_0.filter(f)
            == and_rest(src, h, q.push(t), i, m)->Ok_0,
    decreases q.len() - i,
{
    let q2 = q.push(t);
    if i < q.len() {
        assert(q2[i] == q[i]);
        match postings_for(src, h, q[i]) {
            Err(_) => {},
            Ok(None) => {
                let none = |d: u32| false;
                lemma_filter_none(Seq::<u32>::empty(), none);
                assert(and_rest(src, h, q, i, m)->Ok_0.filter(none) == and_rest(src, h, q2, i, m)->Ok_0);
            },
            Ok(Some(p)) => {
                lemma_and_rest_narrows(src, h, q, t, i + 1, keep_found(m, p));
            },
        }
    } else {
        let r1 = and_rest(src, h, q, i, m)->Ok_0;
        assert(r1 == m);
        match postings_for(src, h, t) {
            Err(_) => {},
            Ok(None) => {
                let none = |d: u32| false;
                lemma_filter_none(m, none);
                assert(r1.filter(none) == and_rest(src, h, q2, i, m)->Ok_0);
            },
            Ok(Some(p)) => {
                let pred = |d: u32| bisect(p, d, 0, p.len() as int);
                assert(and_rest(src, h, q2, i + 1, keep_found(m, p)) == Ok::<Seq<u32>, FifError>(keep_found(m, p)));
                assert(r1.filter(pred) == and_rest(src, h, q2, i, m)->Ok_0);
            },
        }
    }
}

/// Adding a query term never adds matches: what the longer query finds is
/// what the shorter one found, filtered, in the same order.
pub proof fn lemma_and_search_narrows(src: Seq<u8>, h: Header, q: Seq<Seq<u8>>, t: Seq<u8>)
    requires
        q.len() > 0,
        and_search_result(src, h, q) is Ok,
        and_search_result(src, h, q.push(t)) is Ok,
    ensures
        exists|f: spec_fn(u32) -> bool| #[trigger] and_search_result(src, h, q)->Ok_0.filter(f)
            == and_search_result(src, h, q.push(t))->Ok_0,
{
    let q2 = q.push(t);
    assert(q2[0] == q[0]);
    match postings_for(src, h, q[0]) {
        Err(_) => {},
        Ok(None) => {
            let none = |d: u32| false;
            lemma_filter_none(Seq::<u32>::empty(), none);
            assert(and_search_result(src, h, q)->Ok_0.filter(none) == and_search_result(src, h, q2)->Ok_0);
        },
        Ok(Some(first)) => {
            lemma_and_rest_narrows(src, h, q, t, 1, first);
        },
    }
}

/// The posting list that each term of `keys` has in `lists`.
pub open spec fn postings_map(keys: Seq<Seq<char>>, lists: Seq<Seq<Posting>>) -> Map<Seq<char>, Seq<Posting>> {
    Map::new(
        |k: Seq<char>| keys.contains(k),
        |k: Seq<char>| lists[position(keys, k)],
    )
}

/// Where `k` stands in `keys`, when it does.
pub open spec fn position(keys: Seq<Seq<char>>, k: Seq<char>) -> int {
    choose|i: int| 0 <= i < keys.len() && keys[i] == k
}

/// `a` comes before `b` in byte order.
pub open spec fn key_before(a: Seq<char>, b: Seq<char>) -> bool {
    lex_order(encode_utf8(a), encode_utf8(b)) == Order::Less
}

proof fn lemma_key_before_irreflexive(a: Seq<char>)
    ensures
        !key_before(a, a),
{
    lemma_lex_order_equal(encode_utf8(a), encode_utf8(a));
}

proof fn lemma_key_before_trans(a: Seq<char>, b: Seq<char>, c: Seq<char>)
    requires
        key_before(a, b),
        key_before(b, c),
    ensures
        key_before(a, c),
{
    lemma_lex_order_trans(encode_utf8(a), encode_utf8(b), encode_utf8(c));
}

proof fn lemma_sorted_keys_unique(s: Seq<Seq<char>>, t: Seq<Seq<char>>)
    requires
        keys_sorted(s),
        keys_sorted(t),
        forall|x: Seq<char>| s.contains(x) <==> t.contains(x),
    ensures
        s == t,
    decreases s.len(),
{
    if s.len() == 0 {
        if t.len() > 0 {
            assert(t.contains(t[0]));
        }
        assert(s =~= t);
    } else {
        let sl = s.last();
        let tl = t.last();
        assert(s.contains(sl));
        assert(t.len() > 0);
        assert(t.contains(tl));
        let ks = choose|k: int| 0 <= k < s.len() && s[k] == tl;
        let kt = choose|k: int| 0 <= k < t.len() && t[k] == sl;
        if sl != tl {
            assert(kt < t.len() - 1);
            assert(ks < s.len() - 1);
            assert(key_before(t[kt], t[t.len() - 1]));
            assert(key_before(s[ks], s[s.len() - 1]));
            lemma_key_before_trans(sl, tl, sl);
            lemma_key_before_irreflexive(sl);
        }
        let sd = s.drop_last();
        let td = t.drop_last();
        assert(keys_sorted(sd));
        assert(keys_sorted(td));
        assert forall|x: Seq<char>| sd.contains(x) <==> td.contains(x) by {
            if sd.contains(x) {
                let k = choose|k: int| 0 <= k < sd.len() && sd[k] == x;
                assert(key_before(s[k], s[s.len() - 1]));
                lemma_key_before_irreflexive(x);
                assert(s.contains(x));
                let j = choose|j: int| 0 <= j < t.len() && t[j] == x;
                assert(j != t.len() - 1);
                assert(td[j] == x);
            }
            if td.contains(x) {
                let k = choose|k: int| 0 <= k < td.len() && td[k] == x;
                assert(key_before(t[k], t[t.len() - 1]));
                lemma_key_before_irreflexive(x);
                assert(t.contains(x));
                let j = choose|j: int| 0 <= j < s.len() && s[j] == x;
                assert(j != s.len() - 1);
                assert(sd[j] == x);
            }
        }
        lemma_sorted_keys_unique(sd, td);
        assert(s =~= sd.push(sl));
        assert(t =~= td.push(tl));
    }
}

proof fn lemma_postings_map_at(keys: Seq<Seq<char>>, lists: Seq<Seq<Posting>>, i: int)
    requires
        keys_sorted(keys),
        keys.len() == lists.len(),
        0 <= i < keys.len(),
    ensures
        postings_map(keys, lists).dom().contains(keys[i]),
        postings_map(keys, lists)[keys[i]] == lists[i],
{
    let k = keys[i];
    assert(keys.contains(k));
    let j = position(keys, k);
    if j != i {
        if j < i {
            assert(key_before(keys[j], keys[i]));
        } else {
            assert(key_before(keys[i], keys[j]));
        }
        lemma_key_before_irreflexive(k);
    }
    assert(postings_map(keys, lists).dom().contains(k));
    assert(postings_map(keys, lists)[k] == lists[position(keys, k)]);
}

/// The encoding depends only on the document paths and on which posting
/// list each term has: indexes with the same paths and the same map from
/// terms to posting lists hold the same terms and lists in the same order,
/// and encode to the same bytes, whatever order they were built in.
pub proof fn lemma_encoding_order_independent(
    paths: Seq<Seq<char>>,
    keys1: Seq<Seq<char>>,
    lists1: Seq<Seq<Posting>>,
    keys2: Seq<Seq<char>>,
    lists2: Seq<Seq<Posting>>,
)
    requires
        keys1.len() == lists1.len(),
        keys2.len() == lists2.len(),
        keys_sorted(keys1),
        keys_sorted(keys2),
        postings_map(keys1, lists1) == postings_map(keys2, lists2),
    ensures
        keys1 == keys2,
        lists1 == lists2,
        fits_format(paths, keys1, lists1) == fits_format(paths, keys2, lists2),
        encoding(paths, keys1, lists1) == encoding(paths, keys2, lists2),
{
    let m1 = postings_map(keys1, lists1);
    let m2 = postings_map(keys2, lists2);
    assert forall|x: Seq<char>| keys1.contains(x) <==> keys2.contains(x) by {
        assert(m1.dom().contains(x) == keys1.contains(x));
        assert(m2.dom().contains(x) == keys2.contains(x));
    }
    lemma_sorted_keys_unique(keys1, keys2);
    assert forall|i: int| 0 <= i < lists1.len() implies lists1[i] == lists2[i] by {
        lemma_postings_map_at(keys1, lists1, i);
        lemma_postings_map_at(keys2, lists2, i);
    }
    assert(lists1 =~= lists2);
}

/// Sorted terms are in byte order, the order of `str`: where the UTF-8
/// bytes of an earlier and a later term first differ, the earlier term's
/// byte is the smaller unsigned number, and the later term is never a
/// prefix of the earlier one.
pub proof fn lemma_sorted_keys_byte_order(keys: Seq<Seq<char>>, i: int, j: int)
    requires
        keys_sorted(keys),
        0 <= i < j < keys.len(),
    ensures
        ({
            let a = encode_utf8(keys[i]);
            let b = encode_utf8(keys[j]);
            &&& forall|k: int| 0 <= k < a.len() && k < b.len() && a.take(k) == b.take(k) && a[k] != b[k]
                ==> #[trigger] a[k] < #[trigger] b[k]
            &&& !(b.len() <= a.len() && a.take(b.len() as int) == b)
        }),
{
    let a = encode_utf8(keys[i]);
    let b = encode_utf8(keys[j]);
    assert(lex_order(a, b) == Order::Less);
    lemma_lex_order_flip(a, b);
    assert forall|k: int| 0 <= k < a.len() && k < b.len() && a.take(k) == b.take(k) && a[k] != b[k]
        implies #[trigger] a[k] < #[trigger] b[k] by {
        if a[k] > b[k] {
            lemma_lex_order_first_difference(b, a, k);
        }
    }
    if b.len() <= a.len() && a.take(b.len() as int) == b {
        if b.len() < a.len() {
            lemma_lex_order_prefix(b, a);
        } else {
            assert(a =~= b);
            lemma_lex_order_equal(a, b);
        }
    }
}

} // verus!
