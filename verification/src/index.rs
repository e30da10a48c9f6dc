//! The inverted index: documents and, for each token, the documents whose
//! path holds it.

use vstd::prelude::*;
use vstd::utf8::encode_utf8;
use crate::document::{document_paths, file_name_of, Document};
use crate::fif::reader::{
    compare_bytes, lemma_lex_order_equal, lemma_lex_order_flip, lemma_lex_order_trans, lex_order,
    Order,
};
use crate::tokenizer::{no_nul, strings_view, tokenize, tokens};

verus! {

/// The id of a document, as posting lists hold it.
pub type Posting = usize;

/// The term of each entry.
pub open spec fn entry_keys(entries: Seq<(String, Vec<Posting>)>) -> Seq<Seq<char>> {
    entries.map_values(|e: (String, Vec<Posting>)| e.0@)
}

/// The posting list of each entry.
pub open spec fn entry_lists(entries: Seq<(String, Vec<Posting>)>) -> Seq<Seq<Posting>> {
    entries.map_values(|e: (String, Vec<Posting>)| e.1@)
}

/// The terms are in strictly increasing byte order.
pub open spec fn keys_sorted(keys: Seq<Seq<char>>) -> bool {
    forall|i: int, j: int|
        0 <= i < j < keys.len() ==> lex_order(encode_utf8(#[trigger] keys[i]), encode_utf8(#[trigger] keys[j]))
            == Order::Less
}

/// The ids, in increasing order, of the documents among the first `n`
/// whose path holds the token `t`.
pub open spec fn docs_with(paths: Seq<Seq<char>>, t: Seq<char>, n: int) -> Seq<Posting>
    decreases n,
{
    if n <= 0 {
        seq![]
    } else {
        let prev = docs_with(paths, t, n - 1);
        if tokens(paths[n - 1]).contains(t) {
            prev.push((n - 1) as Posting)
        } else {
            prev
        }
    }
}

/// `keys` and `lists` form the inverted index of the documents with paths
/// `paths`: the terms are in byte order, every term is a token of some
/// path, every token of every path is a term, and the list of each term
/// holds, in increasing order, exactly the documents whose path holds it.
pub open spec fn inverts(paths: Seq<Seq<char>>, keys: Seq<Seq<char>>, lists: Seq<Seq<Posting>>) -> bool {
    &&& keys.len() == lists.len()
    &&& keys_sorted(keys)
    &&& forall|k: int|
        0 <= k < keys.len() ==> #[trigger] lists[k] == docs_with(paths, keys[k], paths.len() as int)
            && lists[k].len() > 0
    &&& forall|d: int, t: Seq<char>|
        0 <= d < paths.len() && #[trigger] tokens(paths[d]).contains(t) ==> keys.contains(t)
}

/// Every id in `docs_with(paths, t, n)` is below `n`, and the ids increase.
pub proof fn lemma_docs_with_increasing(paths: Seq<Seq<char>>, t: Seq<char>, n: int)
    requires
        n <= usize::MAX + 1,
    ensures
        forall|i: int|
            0 <= i < docs_with(paths, t, n).len() ==> #[trigger] docs_with(paths, t, n)[i] < n,
        forall|i: int, j: int|
            0 <= i < j < docs_with(paths, t, n).len() ==> #[trigger] docs_with(paths, t, n)[i]
                < #[trigger] docs_with(paths, t, n)[j],
    decreases n,
{
    if n > 0 {
        lemma_docs_with_increasing(paths, t, n - 1);
        let prev = docs_with(paths, t, n - 1);
        let cur = docs_with(paths, t, n);
        if tokens(paths[n - 1]).contains(t) {
            assert(cur == prev.push((n - 1) as Posting));
            assert forall|i: int| 0 <= i < cur.len() implies #[trigger] cur[i] < n by {
                if i < prev.len() {
                    assert(cur[i] == prev[i]);
                }
            }
            assert forall|i: int, j: int| 0 <= i < j < cur.len() implies #[trigger] cur[i] < #[trigger] cur[j] by {
                assert(cur[i] == prev[i]);
                if j < prev.len() {
                    assert(cur[j] == prev[j]);
                }
            }
        } else {
            assert(cur == prev);
        }
    }
}

/// Document `d` (below `n`) is in `docs_with(paths, t, n)` exactly when its
/// path holds `t`.
pub proof fn lemma_docs_with_contains(paths: Seq<Seq<char>>, t: Seq<char>, n: int, d: int)
    requires
        0 <= d < n <= usize::MAX + 1,
    ensures
        docs_with(paths, t, n).contains(d as Posting) <==> tokens(paths[d]).contains(t),
    decreases n,
{
    lemma_docs_with_increasing(paths, t, n - 1);
    let prev = docs_with(paths, t, n - 1);
    if d < n - 1 {
        lemma_docs_with_contains(paths, t, n - 1, d);
        if tokens(paths[n - 1]).contains(t) {
            if prev.push((n - 1) as Posting).contains(d as Posting) && !prev.contains(d as Posting) {
                let q = prev.push((n - 1) as Posting);
                let i = choose|i: int| 0 <= i < q.len() && #[trigger] q[i] == d as Posting;
                if i < prev.len() {
                    assert(prev[i] == q[i]);
                }
            }
            if prev.contains(d as Posting) {
                let i = choose|i: int| 0 <= i < prev.len() && prev[i] == d as Posting;
                assert(prev.push((n - 1) as Posting)[i] == d as Posting);
            }
        }
    } else {
        if tokens(paths[n - 1]).contains(t) {
            assert(prev.push((n - 1) as Posting)[prev.len() as int] == d as Posting);
        } else if prev.contains(d as Posting) {
            let i = choose|i: int| 0 <= i < prev.len() && prev[i] == d as Posting;
            assert(prev[i] < n - 1);
        }
    }
}

/// No document below `n` holds `t`, so no document is listed for it.
pub proof fn lemma_docs_with_none(paths: Seq<Seq<char>>, t: Seq<char>, n: int)
    requires
        forall|d: int| 0 <= d < n ==> !#[trigger] tokens(paths[d]).contains(t),
    ensures
        docs_with(paths, t, n) == Seq::<Posting>::empty(),
    decreases n,
{
    if n > 0 {
        lemma_docs_with_none(paths, t, n - 1);
    }
}

/// In an inverted index, the posting list of a term holds a document
/// exactly when the document's path holds the term as a token, and its ids
/// strictly increase.
pub proof fn lemma_posting_list_exact(
    paths: Seq<Seq<char>>,
    keys: Seq<Seq<char>>,
    lists: Seq<Seq<Posting>>,
    k: int,
    d: int,
)
    requires
        inverts(paths, keys, lists),
        0 <= k < keys.len(),
        0 <= d < paths.len(),
        paths.len() <= usize::MAX,
    ensures
        lists[k].contains(d as Posting) <==> tokens(paths[d]).contains(keys[k]),
        forall|i: int, j: int| 0 <= i < j < lists[k].len() ==> #[trigger] lists[k][i] < #[trigger] lists[k][j],
{
    assert(lists[k] == docs_with(paths, keys[k], paths.len() as int));
    lemma_docs_with_contains(paths, keys[k], paths.len() as int, d);
    lemma_docs_with_increasing(paths, keys[k], paths.len() as int);
}

/// In an inverted index, every token of every path is a term.
pub proof fn lemma_tokens_are_terms(paths: Seq<Seq<char>>, keys: Seq<Seq<char>>, lists: Seq<Seq<Posting>>, d: int, t: Seq<char>)
    requires
        inverts(paths, keys, lists),
        0 <= d < paths.len(),
        tokens(paths[d]).contains(t),
    ensures
        keys.contains(t),
{
}

/// The state of the index while it is built: the documents below `d` are
/// in, and of document `d` the tokens `done`.
pub open spec fn building(paths: Seq<Seq<char>>, d: int, done: Seq<Seq<char>>, keys: Seq<Seq<char>>, lists: Seq<Seq<Posting>>) -> bool {
    &&& 0 <= d < paths.len()
    &&& d <= usize::MAX
    &&& keys.len() == lists.len()
    &&& keys_sorted(keys)
    &&& forall|k: int|
        0 <= k < keys.len() ==> #[trigger] lists[k] == docs_with(paths, keys[k], d) + if done.contains(
            keys[k],
        ) {
            seq![d as Posting]
        } else {
            seq![]
        }
    &&& forall|k: int| 0 <= k < keys.len() ==> #[trigger] lists[k].len() > 0
    &&& forall|e: int, t: Seq<char>|
        0 <= e < d && #[trigger] tokens(paths[e]).contains(t) ==> keys.contains(t)
    &&& forall|t: Seq<char>| #[trigger] done.contains(t) ==> keys.contains(t)
    &&& forall|k: int| 0 <= k < keys.len() ==> no_nul(#[trigger] keys[k])
}

/// Strings with the same UTF-8 bytes are the same string.
proof fn lemma_encode_injective(a: Seq<char>, b: Seq<char>)
    requires
        encode_utf8(a) == encode_utf8(b),
    ensures
        a == b,
{
    vstd::utf8::encode_utf8_decode_utf8(a);
    vstd::utf8::encode_utf8_decode_utf8(b);
}

/// The first position whose term does not come before `token`.
fn lower_bound(postings: &Vec<(String, Vec<Posting>)>, token: &[u8]) -> (r: usize)
    requires
        keys_sorted(entry_keys(postings@)),
    ensures
        r <= postings@.len(),
        forall|k: int|
            0 <= k < r ==> lex_order(encode_utf8(#[trigger] entry_keys(postings@)[k]), token@)
                == Order::Less,
        forall|k: int|
            r <= k < postings@.len() ==> lex_order(
                encode_utf8(#[trigger] entry_keys(postings@)[k]),
                token@,
            ) != Order::Less,
{
    let ghost keys = entry_keys(postings@);
    let mut low: usize = 0;
    let mut high: usize = postings.len();
    while low < high
        invariant
            low <= high <= postings@.len(),
            keys == entry_keys(postings@),
            keys_sorted(keys),
            forall|k: int| 0 <= k < low ==> lex_order(encode_utf8(#[trigger] keys[k]), token@) == Order::Less,
            forall|k: int|
                high <= k < postings@.len() ==> lex_order(encode_utf8(#[trigger] keys[k]), token@)
                    != Order::Less,
        decreases high - low,
    {
        let middle = low + (high - low) / 2;
        let key = postings[middle].0.as_str().as_bytes();
        assert(keys[middle as int] == postings@[middle as int].0@);
        match compare_bytes(key, token) {
            Order::Less => {
                assert forall|k: int| 0 <= k < middle + 1 implies lex_order(
                    encode_utf8(#[trigger] keys[k]),
                    token@,
                ) == Order::Less by {
                    if k < middle {
                        lemma_lex_order_trans(
                            encode_utf8(keys[k]),
                            encode_utf8(keys[middle as int]),
                            token@,
                        );
                    }
                }
                low = middle + 1;
            },
            _ => {
                assert forall|k: int| middle <= k < postings@.len() implies lex_order(
                    encode_utf8(#[trigger] keys[k]),
                    token@,
                ) != Order::Less by {
                    if k > middle && lex_order(encode_utf8(keys[k]), token@) == Order::Less {
                        lemma_lex_order_trans(
                            encode_utf8(keys[middle as int]),
                            encode_utf8(keys[k]),
                            token@,
                        );
                    }
                }
                high = middle;
            },
        }
    }
    low
}

/// Records that document `id` holds `token`: adds `id` to the token's
/// posting list unless it is already there, or adds the token with the list
/// `[id]` at its place in byte order.
fn add_posting(
    postings: &mut Vec<(String, Vec<Posting>)>,
    token: String,
    id: Posting,
    Ghost(paths): Ghost<Seq<Seq<char>>>,
    Ghost(done): Ghost<Seq<Seq<char>>>,
)
    requires
        building(paths, id as int, done, entry_keys(old(postings)@), entry_lists(old(postings)@)),
        no_nul(token@),
    ensures
        building(
            paths,
            id as int,
            done.push(token@),
            entry_keys(final(postings)@),
            entry_lists(final(postings)@),
        ),
{
    let ghost keys = entry_keys(postings@);
    let ghost lists = entry_lists(postings@);
    let ghost tok = token@;
    let ghost d = id as int;
    let ghost done2 = done.push(tok);
    let pos = lower_bound(postings, token.as_str().as_bytes());
    let found = if pos < postings.len() {
        match compare_bytes(postings[pos].0.as_str().as_bytes(), token.as_str().as_bytes()) {
            Order::Equal => true,
            _ => false,
        }
    } else {
        false
    };
    proof {
        lemma_docs_with_increasing(paths, tok, d);
    }
    // Terms other than `tok` are in `done2` exactly when they are in `done`.
    assert forall|t: Seq<char>| t != tok implies (done2.contains(t) <==> done.contains(t)) by {
        if done2.contains(t) {
            let i = choose|i: int| 0 <= i < done2.len() && done2[i] == t;
            assert(i < done.len());
            assert(done[i] == t);
        }
        if done.contains(t) {
            let i = choose|i: int| 0 <= i < done.len() && done[i] == t;
            assert(done2[i] == t);
        }
    }
    assert(done2.contains(tok)) by {
        assert(done2[done.len() as int] == tok);
    }
    if found {
        assert(keys[pos as int] == postings@[pos as int].0@);
        proof {
            lemma_lex_order_equal(encode_utf8(keys[pos as int]), encode_utf8(tok));
            lemma_encode_injective(keys[pos as int], tok);
        }
        let mut entry: (String, Vec<Posting>) = (String::new(), Vec::new());
        postings.set_and_swap(pos, &mut entry);
        let ghost old_list = entry.1@;
        assert(old_list == lists[pos as int]);
        let n = entry.1.len();
        let fresh = n == 0 || entry.1[n - 1] != id;
        assert(fresh <==> !done.contains(tok)) by {
            if done.contains(tok) {
                assert(old_list == docs_with(paths, tok, d) + seq![d as Posting]);
                assert(old_list[old_list.len() - 1] == id);
            } else {
                assert(old_list == docs_with(paths, tok, d) + Seq::<Posting>::empty());
                if n > 0 {
                    assert(old_list[n - 1] == docs_with(paths, tok, d)[n - 1]);
                }
            }
        }
        if fresh {
            entry.1.push(id);
        }
        let ghost new_list = entry.1@;
        postings.set_and_swap(pos, &mut entry);
        assert(new_list == docs_with(paths, tok, d) + seq![d as Posting]) by {
            if done.contains(tok) {
                assert(old_list == docs_with(paths, tok, d) + seq![d as Posting]);
            } else {
                assert(old_list =~= docs_with(paths, tok, d));
            }
        }
        assert(entry_keys(postings@) =~= keys);
        assert(entry_lists(postings@) =~= lists.update(pos as int, new_list));
        assert forall|k: int| 0 <= k < keys.len() && k != pos implies keys[k] != tok by {
            if k < pos {
                lemma_lex_order_equal(encode_utf8(keys[k]), encode_utf8(keys[pos as int]));
            } else {
                lemma_lex_order_equal(encode_utf8(keys[pos as int]), encode_utf8(keys[k]));
            }
        }
        assert forall|t: Seq<char>| #[trigger] done2.contains(t) implies keys.contains(t) by {
            if t == tok {
                assert(keys[pos as int] == tok);
            }
        }
    } else {
        assert forall|k: int| 0 <= k < keys.len() implies #[trigger] keys[k] != tok by {
            lemma_lex_order_equal(encode_utf8(tok), encode_utf8(tok));
            if k > pos {
                lemma_lex_order_flip(encode_utf8(keys[pos as int]), encode_utf8(keys[k]));
                if keys[k] == tok {
                    lemma_lex_order_equal(encode_utf8(keys[pos as int]), encode_utf8(tok));
                }
            }
            if k == pos {
                assert(keys[pos as int] == postings@[pos as int].0@);
            }
        }
        assert(!keys.contains(tok));
        assert(!done.contains(tok));
        assert forall|e: int| 0 <= e < d implies !#[trigger] tokens(paths[e]).contains(tok) by {}
        proof {
            lemma_docs_with_none(paths, tok, d);
        }
        let mut list: Vec<Posting> = Vec::new();
        list.push(id);
        postings.insert(pos, (token, list));
        assert(entry_keys(postings@) =~= keys.insert(pos as int, tok));
        assert(entry_lists(postings@) =~= lists.insert(pos as int, seq![d as Posting]));
        let ghost keys2 = keys.insert(pos as int, tok);
        assert forall|i: int, j: int| 0 <= i < j < keys2.len() implies lex_order(
            encode_utf8(#[trigger] keys2[i]),
            encode_utf8(#[trigger] keys2[j]),
        ) == Order::Less by {
            if j < pos {
            } else if j == pos {
                assert(keys2[i] == keys[i]);
            } else if i < pos {
                assert(keys2[j] == keys[j - 1]);
            } else if i == pos {
                assert(keys2[j] == keys[j - 1]);
                lemma_lex_order_equal(encode_utf8(keys[j - 1]), encode_utf8(tok));
                lemma_lex_order_flip(encode_utf8(tok), encode_utf8(keys[j - 1]));
            } else {
                assert(keys2[i] == keys[i - 1]);
                assert(keys2[j] == keys[j - 1]);
            }
        }
        assert forall|t: Seq<char>| #[trigger] done2.contains(t) implies keys2.contains(t) by {
            if t == tok {
                assert(keys2[pos as int] == tok);
            } else {
                let i = choose|i: int| 0 <= i < keys.len() && keys[i] == t;
                if i < pos {
                    assert(keys2[i] == t);
                } else {
                    assert(keys2[i + 1] == t);
                }
            }
        }
        assert forall|e: int, t: Seq<char>|
            0 <= e < d && #[trigger] tokens(paths[e]).contains(t) implies keys2.contains(t) by {
            let i = choose|i: int| 0 <= i < keys.len() && keys[i] == t;
            if i < pos {
                assert(keys2[i] == t);
            } else {
                assert(keys2[i + 1] == t);
            }
        }
    }
}

/// What every index keeps: its terms are in byte order and hold no NUL
/// character, and every id in a posting list names one of its `n`
/// documents.
pub open spec fn index_well_formed(n: int, keys: Seq<Seq<char>>, lists: Seq<Seq<Posting>>) -> bool {
    &&& keys.len() == lists.len()
    &&& keys_sorted(keys)
    &&& forall|k: int| 0 <= k < keys.len() ==> no_nul(#[trigger] keys[k])
    &&& forall|k: int, i: int| 0 <= k < lists.len() && 0 <= i < lists[k].len() ==> #[trigger] lists[k][i] < n
}

/// An inverted index: the documents, and for each term (in byte order) the
/// ids of the documents whose path holds it.
pub struct InvertedIndex {
    documents: Vec<Document>,
    postings: Vec<(String, Vec<Posting>)>,
}

impl InvertedIndex {
    #[verifier::type_invariant]
    spec fn well_formed(self) -> bool {
        index_well_formed(self.documents@.len() as int, entry_keys(self.postings@), entry_lists(self.postings@))
    }

    /// The documents.
    pub closed spec fn docs(&self) -> Seq<Document> {
        self.documents@
    }

    /// The terms with their posting lists, in byte order of the terms.
    pub closed spec fn entries(&self) -> Seq<(String, Vec<Posting>)> {
        self.postings@
    }

    /// An index with no documents and no terms.
    pub fn new() -> (r: InvertedIndex)
        ensures
            r.docs().len() == 0,
            r.entries().len() == 0,
    {
        InvertedIndex { documents: Vec::new(), postings: Vec::new() }
    }

    /// Builds the index of the files at `paths`: document `i` is the file at
    /// `paths[i]`, and every token of a path is a term whose posting list
    /// holds, in increasing order, the ids of the documents whose path holds
    /// it.
    pub fn from_paths(paths: &Vec<String>) -> (r: InvertedIndex)
        requires
            forall|i: int| 0 <= i < paths@.len() ==> (file_name_of(#[trigger] paths@[i]@) is Some),
        ensures
            r.docs().len() == paths@.len(),
            forall|i: int|
                0 <= i < paths@.len() ==> (#[trigger] r.docs()[i]).id == i && r.docs()[i].file_path@
                    == paths@[i]@ && r.docs()[i].file_name@ == file_name_of(paths@[i]@)->0,
            document_paths(r.docs()) == strings_view(paths@),
            inverts(document_paths(r.docs()), entry_keys(r.entries()), entry_lists(r.entries())),
            forall|k: int|
                0 <= k < r.entries().len() ==> no_nul(#[trigger] entry_keys(r.entries())[k]),
    {
        let ghost pv = strings_view(paths@);
        let mut documents: Vec<Document> = Vec::new();
        let mut postings: Vec<(String, Vec<Posting>)> = Vec::new();
        let mut d: usize = 0;
        while d < paths.len()
            invariant
                d <= paths@.len(),
                pv == strings_view(paths@),
                forall|i: int| 0 <= i < paths@.len() ==> (file_name_of(#[trigger] paths@[i]@) is Some),
                documents@.len() == d,
                forall|i: int|
                    0 <= i < d ==> (#[trigger] documents@[i]).id == i && documents@[i].file_path@
                        == paths@[i]@ && documents@[i].file_name@ == file_name_of(paths@[i]@)->0,
                entry_keys(postings@).len() == entry_lists(postings@).len(),
                keys_sorted(entry_keys(postings@)),
                forall|k: int|
                    0 <= k < entry_keys(postings@).len() ==> #[trigger] entry_lists(postings@)[k]
                        == docs_with(pv, entry_keys(postings@)[k], d as int) && entry_lists(
                        postings@,
                    )[k].len() > 0,
                forall|e: int, t: Seq<char>|
                    0 <= e < d && #[trigger] tokens(pv[e]).contains(t) ==> entry_keys(
                        postings@,
                    ).contains(t),
                forall|k: int|
                    0 <= k < entry_keys(postings@).len() ==> no_nul(#[trigger] entry_keys(postings@)[k]),
            decreases paths@.len() - d,
        {
            let document = Document::from_path(d, paths[d].as_str());
            let toks = tokenize(paths[d].as_str());
            let ghost tv = strings_view(toks@);
            assert(tv == tokens(pv[d as int]));
            assert(tv.take(0) =~= Seq::<Seq<char>>::empty());
            assert forall|k: int| 0 <= k < entry_keys(postings@).len() implies #[trigger] entry_lists(
                postings@,
            )[k] == docs_with(pv, entry_keys(postings@)[k], d as int) + if tv.take(0).contains(
                entry_keys(postings@)[k],
            ) {
                seq![d as Posting]
            } else {
                seq![]
            } by {
                assert(docs_with(pv, entry_keys(postings@)[k], d as int) + Seq::<Posting>::empty()
                    =~= docs_with(pv, entry_keys(postings@)[k], d as int));
            }
            let mut j: usize = 0;
            while j < toks.len()
                invariant
                    j <= toks@.len(),
                    tv == strings_view(toks@),
                    forall|i: int| 0 <= i < toks@.len() ==> no_nul((#[trigger] toks@[i])@),
                    building(pv, d as int, tv.take(j as int), entry_keys(postings@), entry_lists(postings@)),
                decreases toks@.len() - j,
            {
                let token = toks[j].clone();
                add_posting(&mut postings, token, d, Ghost(pv), Ghost(tv.take(j as int)));
                assert(tv.take(j as int).push(token@) =~= tv.take(j + 1));
                j = j + 1;
            }
            assert(tv.take(j as int) =~= tv);
            let ghost keys = entry_keys(postings@);
            let ghost lists = entry_lists(postings@);
            assert forall|k: int| 0 <= k < keys.len() implies #[trigger] lists[k] == docs_with(
                pv,
                keys[k],
                d + 1,
            ) && lists[k].len() > 0 by {
                if tv.contains(keys[k]) {
                    assert(lists[k] =~= docs_with(pv, keys[k], d as int).push(d as Posting));
                } else {
                    assert(lists[k] =~= docs_with(pv, keys[k], d as int));
                }
            }
            documents.push(document);
            d = d + 1;
        }
        let ghost docs = documents@;
        assert(document_paths(docs) =~= pv);
        proof {
            let keys = entry_keys(postings@);
            let lists = entry_lists(postings@);
            assert forall|k: int, i: int| 0 <= k < lists.len() && 0 <= i < lists[k].len() implies #[trigger] lists[k][i]
                < docs.len() by {
                lemma_docs_with_increasing(pv, keys[k], pv.len() as int);
            }
        }
        InvertedIndex { documents, postings }
    }

    /// The documents, in id order.
    pub fn documents(&self) -> (r: &[Document])
        ensures
            r@ == self.docs(),
            index_well_formed(self.docs().len() as int, entry_keys(self.entries()), entry_lists(self.entries())),
    {
        proof {
            use_type_invariant(self);
        }
        self.documents.as_slice()
    }

    /// The terms with their posting lists, in byte order of the terms.
    pub fn postings(&self) -> (r: &[(String, Vec<Posting>)])
        ensures
            r@ == self.entries(),
            keys_sorted(entry_keys(r@)),
            index_well_formed(self.docs().len() as int, entry_keys(r@), entry_lists(r@)),
    {
        proof {
            use_type_invariant(self);
        }
        self.postings.as_slice()
    }
}

impl Default for InvertedIndex {
    fn default() -> (r: InvertedIndex)
        ensures
            r.docs().len() == 0,
            r.entries().len() == 0,
    {
        InvertedIndex::new()
    }
}

} // verus!
