//! A file known to the index.

use vstd::prelude::*;
use crate::tokenizer::push_char;

verus! {

/// A file known to the index: its id, its file name and its full path.
pub struct Document {
    pub id: usize,
    pub file_name: String,
    pub file_path: String,
}

/// The path of each document.
pub open spec fn document_paths(docs: Seq<Document>) -> Seq<Seq<char>> {
    docs.map_values(|d: Document| d.file_path@)
}

/// The parts of `p` between slashes, in order: one more part than there
/// are slashes.
pub open spec fn segments(p: Seq<char>) -> Seq<Seq<char>>
    decreases p.len(),
{
    if p.len() == 0 {
        seq![seq![]]
    } else {
        let prev = segments(p.drop_last());
        if p.last() == '/' {
            prev.push(seq![])
        } else {
            prev.update(prev.len() - 1, prev.last().push(p.last()))
        }
    }
}

/// Whether a part of a path names a file or a directory: it is neither
/// empty nor `.`.
pub open spec fn is_name(s: Seq<char>) -> bool {
    s.len() > 0 && s != seq!['.']
}

/// The parts of `p` that name a file or a directory.
pub open spec fn names(p: Seq<char>) -> Seq<Seq<char>> {
    segments(p).filter(|s: Seq<char>| is_name(s))
}

/// The final component of the Unix path `p`: its last part that is neither
/// empty nor `.`; none when there is no such part or when it is `..`.
pub open spec fn file_name_of(p: Seq<char>) -> Option<Seq<char>> {
    let n = names(p);
    if n.len() == 0 || n.last() == seq!['.', '.'] {
        None
    } else {
        Some(n.last())
    }
}

/// The characters of an optional string.
pub open spec fn opt_view(s: Option<String>) -> Option<Seq<char>> {
    match s {
        Some(s) => Some(s@),
        None => None,
    }
}

/// Whether every character of `s` is a dot.
pub open spec fn all_dots(s: Seq<char>) -> bool {
    forall|i: int| 0 <= i < s.len() ==> s[i] == '.'
}

/// The last name among `parts`, if there is one.
pub open spec fn last_name(parts: Seq<Seq<char>>) -> Option<Seq<char>> {
    let n = parts.filter(|s: Seq<char>| is_name(s));
    if n.len() == 0 {
        None
    } else {
        Some(n.last())
    }
}

proof fn lemma_segments_nonempty(p: Seq<char>)
    ensures
        segments(p).len() > 0,
    decreases p.len(),
{
    if p.len() > 0 {
        lemma_segments_nonempty(p.drop_last());
    }
}

proof fn lemma_segments_append(q: Seq<char>, w: Seq<char>)
    requires
        forall|k: int| 0 <= k < w.len() ==> w[k] != '/',
    ensures
        segments(q + w) == segments(q).update(segments(q).len() - 1, segments(q).last() + w),
    decreases w.len(),
{
    lemma_segments_nonempty(q);
    if w.len() == 0 {
        assert(q + w =~= q);
        assert(segments(q).last() + w =~= segments(q).last());
        assert(segments(q).update(segments(q).len() - 1, segments(q).last()) =~= segments(q));
    } else {
        let v = w.drop_last();
        lemma_segments_append(q, v);
        assert((q + w).drop_last() =~= q + v);
        assert((q + w).last() == w.last());
        assert(w.last() == w[w.len() - 1]);
        assert((segments(q).last() + v).push(w.last()) =~= segments(q).last() + w);
        assert(segments(q + w) =~= segments(q).update(segments(q).len() - 1, segments(q).last() + w));
    }
}

proof fn lemma_names_push(parts: Seq<Seq<char>>, x: Seq<char>)
    ensures
        parts.push(x).filter(|s: Seq<char>| is_name(s)) == if is_name(x) {
            parts.filter(|s: Seq<char>| is_name(s)).push(x)
        } else {
            parts.filter(|s: Seq<char>| is_name(s))
        },
{
    reveal(Seq::filter);
    assert(parts.push(x).drop_last() =~= parts);
}

/// The file name of a path that ends in a component is that component,
/// for every component that names a file or directory: not empty, without
/// a slash, and neither `.` nor `..` (so `/usr/bin/ls` gives `ls`, and a
/// relative path of one component gives itself).
pub proof fn lemma_file_name_of_last_component(p: Seq<char>, w: Seq<char>)
    requires
        w.len() > 0,
        forall|k: int| 0 <= k < w.len() ==> w[k] != '/',
        w != seq!['.'],
        w != seq!['.', '.'],
    ensures
        file_name_of(p.push('/') + w) == Some(w),
        file_name_of(w) == Some(w),
{
    let q = p.push('/');
    lemma_segments_nonempty(p);
    assert(q.drop_last() =~= p);
    assert(segments(q) == segments(p).push(seq![]));
    lemma_segments_append(q, w);
    assert(seq![] + w =~= w);
    assert(segments(q + w) =~= segments(p).push(w));
    lemma_names_push(segments(p), w);
    lemma_segments_append(Seq::empty(), w);
    assert(Seq::<char>::empty() + w =~= w);
    assert(segments(Seq::<char>::empty()) =~= seq![Seq::<char>::empty()]);
    assert(segments(w) =~= seq![w]);
    lemma_names_push(Seq::empty(), w);
    assert(Seq::<Seq<char>>::empty().push(w) =~= seq![w]);
    reveal(Seq::filter);
    assert(Seq::<Seq<char>>::empty().filter(|s: Seq<char>| is_name(s)) =~= Seq::<Seq<char>>::empty());
}

/// A path that ends in `..` has no file name.
pub proof fn lemma_file_name_of_dotdot(p: Seq<char>)
    ensures
        file_name_of(p.push('/') + seq!['.', '.']) is None,
{
    let q = p.push('/');
    let w = seq!['.', '.'];
    lemma_segments_nonempty(p);
    assert(q.drop_last() =~= p);
    lemma_segments_append(q, w);
    assert(seq![] + w =~= w);
    assert(segments(q + w) =~= segments(p).push(w));
    lemma_names_push(segments(p), w);
}

/// A trailing slash does not change the file name.
pub proof fn lemma_file_name_of_trailing_slash(p: Seq<char>)
    ensures
        file_name_of(p.push('/')) == file_name_of(p),
{
    lemma_segments_nonempty(p);
    assert(p.push('/').drop_last() =~= p);
    lemma_names_push(segments(p), seq![]);
}

/// The final component of `path` (what `Path::file_name` gives for a Unix
/// path), or `None` when the path ends in `..` or has no component that
/// names a file or directory.
pub fn file_name(path: &str) -> (r: Option<String>)
    ensures
        opt_view(r) == file_name_of(path@),
{
    let mut last: Option<String> = None;
    let mut last_dotdot = false;
    let mut current = String::new();
    let mut count: usize = 0;
    let mut dots = true;
    let ghost mut seen: Seq<char> = Seq::empty();
    assert(segments(seen) =~= seq![Seq::<char>::empty()]);
    proof {
        reveal(Seq::filter);
        assert(segments(seen).drop_last() =~= Seq::<Seq<char>>::empty());
    }
    for c in it: path.chars()
        invariant
            seen == it.seq().take(it.index() as int),
            it.seq() == path@,
            segments(seen).len() > 0,
            current@ == segments(seen).last(),
            count == if current@.len() < 3 {
                current@.len() as int
            } else {
                3
            },
            dots == all_dots(current@),
            opt_view(last) == last_name(segments(seen).drop_last()),
            last is Some ==> (last_dotdot <==> last->0@ == seq!['.', '.']),
            last is None ==> !last_dotdot,
    {
        let ghost prev_seen = seen;
        proof {
            seen = seen.push(c);
            lemma_segments_nonempty(prev_seen);
            assert(seen.drop_last() =~= prev_seen);
        }
        if c == '/' {
            let named = count > 0 && !(count == 1 && dots);
            assert(named == is_name(current@)) by {
                if current@.len() == 1 && dots {
                    assert(current@ =~= seq!['.']);
                }
                if current@ == seq!['.'] {
                    assert(current@[0] == '.');
                }
            }
            proof {
                reveal(Seq::filter);
                assert(segments(seen).drop_last() =~= segments(prev_seen));
                assert(segments(prev_seen) =~= segments(prev_seen).drop_last().push(current@));
            }
            if named {
                last_dotdot = count == 2 && dots;
                assert(last_dotdot <==> current@ == seq!['.', '.']) by {
                    if current@.len() == 2 && dots {
                        assert(current@ =~= seq!['.', '.']);
                    }
                    if current@ == seq!['.', '.'] {
                        assert(current@[0] == '.' && current@[1] == '.');
                    }
                }
                last = Some(current);
            }
            current = String::new();
            count = 0;
            dots = true;
        } else {
            let ghost old_current = current@;
            let ghost old_dots = dots;
            push_char(&mut current, c);
            if count < 3 {
                count = count + 1;
            }
            dots = dots && c == '.';
            proof {
                assert(segments(seen).drop_last() =~= segments(prev_seen).drop_last());
                if dots {
                    assert(all_dots(current@));
                } else if c != '.' {
                    assert(current@[current@.len() - 1] != '.');
                } else {
                    assert(!old_dots);
                    let i = choose|i: int| 0 <= i < old_current.len() && old_current[i] != '.';
                    assert(current@[i] != '.');
                }
            }
        }
    }
    proof {
        assert(seen == path@);
        lemma_segments_nonempty(seen);
        reveal(Seq::filter);
        assert(segments(seen) =~= segments(seen).drop_last().push(current@));
    }
    let named = count > 0 && !(count == 1 && dots);
    assert(named == is_name(current@)) by {
        if current@.len() == 1 && dots {
            assert(current@ =~= seq!['.']);
        }
        if current@ == seq!['.'] {
            assert(current@[0] == '.');
        }
    }
    if named {
        last_dotdot = count == 2 && dots;
        assert(last_dotdot <==> current@ == seq!['.', '.']) by {
            if current@.len() == 2 && dots {
                assert(current@ =~= seq!['.', '.']);
            }
            if current@ == seq!['.', '.'] {
                assert(current@[0] == '.' && current@[1] == '.');
            }
        }
        last = Some(current);
    }
    if last_dotdot {
        None
    } else {
        last
    }
}

impl Document {
    /// The document with id `id` for the file at `path`.
    pub fn from_path(id: usize, path: &str) -> (r: Document)
        requires
            file_name_of(path@) is Some,
        ensures
            r.id == id,
            r.file_name@ == file_name_of(path@)->0,
            r.file_path@ == path@,
    {
        let file_name = match file_name(path) {
            Some(name) => name,
            None => String::new(),
        };
        Document { id, file_name, file_path: path.to_owned() }
    }
}

} // verus!
