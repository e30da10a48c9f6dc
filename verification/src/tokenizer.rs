//! Splitting a path into lower-case search tokens.

use vstd::prelude::*;

verus! {

/// Whether `c` has the Unicode `Alphabetic` or `Numeric` property, as
/// `char::is_alphanumeric` decides it (used for non-ASCII characters).
pub uninterp spec fn char_is_alphanumeric(c: char) -> bool;

/// Whether `c` is alphanumeric: an ASCII letter or digit, or a non-ASCII
/// character with the Unicode `Alphabetic` or `Numeric` property.
pub open spec fn alphanumeric(c: char) -> bool {
    if (c as u32) < 128 {
        is_ascii_alnum(c)
    } else {
        char_is_alphanumeric(c)
    }
}

/// ASCII letters and digits.
pub open spec fn is_ascii_alnum(c: char) -> bool {
    ('a' <= c && c <= 'z') || ('A' <= c && c <= 'Z') || ('0' <= c && c <= '9')
}

/// `c` with an ASCII upper-case letter mapped to its lower-case form.
pub open spec fn ascii_lower(c: char) -> char {
    if 'A' <= c && c <= 'Z' {
        ((c as u32) + 32) as char
    } else {
        c
    }
}

/// Whether `c` is alphanumeric (`char::is_alphanumeric`).
///
/// Trusted: on ASCII characters the result is exactly the ASCII letters
/// and digits; on other characters it is the Unicode property named by
/// `char_is_alphanumeric`.
#[verifier::external_body]
fn is_alphanumeric(c: char) -> (r: bool)
    ensures
        (c as u32) < 128 ==> (r <==> is_ascii_alnum(c)),
        (c as u32) >= 128 ==> r == char_is_alphanumeric(c),
{
    c.is_alphanumeric()
}

/// Lower-cases an ASCII letter, leaving every other character unchanged.
fn to_ascii_lowercase(c: char) -> (r: char)
    ensures
        r == ascii_lower(c),
{
    if 'A' <= c && c <= 'Z' {
        ((c as u8) + 32) as char
    } else {
        c
    }
}

/// Appends a character to a string (`String::push`).
///
/// Trusted: the string's characters gain `c` at the end.
#[verifier::external_body]
pub(crate) fn push_char(s: &mut String, c: char)
    ensures
        final(s)@ == old(s)@.push(c),
{
    s.push(c)
}

/// The character that stands for `c` once the path is cleaned: alphanumeric
/// characters lower-cased, every other character a space.
pub open spec fn clean_char(c: char) -> char {
    if alphanumeric(c) {
        ascii_lower(c)
    } else {
        ' '
    }
}

/// The cleaned form of a whole string.
pub open spec fn cleaned(s: Seq<char>) -> Seq<char> {
    s.map_values(|c: char| clean_char(c))
}

/// The maximal runs of non-space characters of `t`, in order.
pub open spec fn words(t: Seq<char>) -> Seq<Seq<char>>
    decreases t.len(),
{
    if t.len() == 0 {
        seq![]
    } else {
        let prev = words(t.drop_last());
        let c = t.last();
        if c == ' ' {
            prev
        } else if t.len() >= 2 && t[t.len() - 2] != ' ' {
            prev.update(prev.len() - 1, prev.last().push(c))
        } else {
            prev.push(seq![c])
        }
    }
}

/// The tokens of `s`: the words of its cleaned form.
pub open spec fn tokens(s: Seq<char>) -> Seq<Seq<char>> {
    words(cleaned(s))
}

/// The characters of each string of `v`.
pub open spec fn strings_view(v: Seq<String>) -> Seq<Seq<char>> {
    v.map_values(|t: String| t@)
}

/// Whether `s` holds no NUL character.
pub open spec fn no_nul(s: Seq<char>) -> bool {
    forall|i: int| 0 <= i < s.len() ==> s[i] != '\0'
}

/// Whether the last character of `t` is part of a word.
pub open spec fn ends_in_word(t: Seq<char>) -> bool {
    t.len() > 0 && t.last() != ' '
}

proof fn lemma_words_last_nonempty(t: Seq<char>)
    requires
        ends_in_word(t),
    ensures
        words(t).len() > 0,
        words(t).last().len() > 0,
    decreases t.len(),
{
    let prev = words(t.drop_last());
    if t.len() >= 2 && t[t.len() - 2] != ' ' {
        lemma_words_last_nonempty(t.drop_last());
    }
}

proof fn lemma_words_shape(t: Seq<char>)
    ensures
        forall|i: int| 0 <= i < words(t).len() ==> (#[trigger] words(t)[i]).len() > 0,
        forall|i: int, j: int|
            0 <= i < words(t).len() && 0 <= j < words(t)[i].len() ==> t.contains(
                #[trigger] words(t)[i][j],
            ) && words(t)[i][j] != ' ',
    decreases t.len(),
{
    if t.len() > 0 {
        let prev = words(t.drop_last());
        lemma_words_shape(t.drop_last());
        let c = t.last();
        assert(t.contains(c)) by {
            assert(t[t.len() - 1] == c);
        }
        assert forall|x: char| t.drop_last().contains(x) implies t.contains(x) by {
            let k = choose|k: int| 0 <= k < t.drop_last().len() && t.drop_last()[k] == x;
            assert(t[k] == x);
        }
        if c != ' ' && t.len() >= 2 && t[t.len() - 2] != ' ' {
            lemma_words_last_nonempty(t.drop_last());
            let w = words(t);
            assert forall|i: int, j: int| 0 <= i < w.len() && 0 <= j < w[i].len() implies t.contains(
                #[trigger] w[i][j],
            ) && w[i][j] != ' ' by {
                if i == w.len() - 1 && j == w[i].len() - 1 {
                    assert(w[i][j] == c);
                } else if i == w.len() - 1 {
                    assert(w[i][j] == prev[i][j]);
                } else {
                    assert(w[i] == prev[i]);
                }
            }
        } else if c != ' ' {
            let w = words(t);
            assert forall|i: int, j: int| 0 <= i < w.len() && 0 <= j < w[i].len() implies t.contains(
                #[trigger] w[i][j],
            ) && w[i][j] != ' ' by {
                if i < prev.len() {
                    assert(w[i] == prev[i]);
                }
            }
        }
    }
}

/// Every token is non-empty, and none of its characters is a space or an
/// ASCII upper-case letter.
pub proof fn lemma_tokens_lower_case(s: Seq<char>)
    ensures
        forall|i: int| 0 <= i < tokens(s).len() ==> (#[trigger] tokens(s)[i]).len() > 0,
        forall|i: int, j: int|
            0 <= i < tokens(s).len() && 0 <= j < tokens(s)[i].len() ==> #[trigger] tokens(s)[i][j]
                != ' ' && !('A' <= tokens(s)[i][j] && tokens(s)[i][j] <= 'Z'),
{
    let t = cleaned(s);
    lemma_words_shape(t);
    assert forall|i: int, j: int|
        0 <= i < tokens(s).len() && 0 <= j < tokens(s)[i].len() implies #[trigger] tokens(s)[i][j]
        != ' ' && !('A' <= tokens(s)[i][j] && tokens(s)[i][j] <= 'Z') by {
        let ch = tokens(s)[i][j];
        assert(t.contains(ch));
        let k = choose|k: int| 0 <= k < t.len() && t[k] == ch;
        assert(ch == clean_char(s[k]));
        if 'A' <= s[k] && s[k] <= 'Z' {
            assert((((s[k] as u32) + 32) as char) as u32 == (s[k] as u32) + 32);
        }
    }
}

/// Tokenizing is the same on `s` and on `s` with its ASCII letters
/// lower-cased.
pub proof fn lemma_tokens_ignore_ascii_case(s: Seq<char>)
    ensures
        tokens(s.map_values(|c: char| ascii_lower(c))) == tokens(s),
{
    let low = s.map_values(|c: char| ascii_lower(c));
    assert forall|i: int| 0 <= i < s.len() implies #[trigger] clean_char(low[i]) == clean_char(s[i]) by {
        assert(low[i] == ascii_lower(s[i]));
        if 'A' <= s[i] && s[i] <= 'Z' {
            assert((((s[i] as u32) + 32) as char) as u32 == (s[i] as u32) + 32);
        }
    }
    assert(cleaned(low) =~= cleaned(s));
}

/// The words of `p + y`, when `p` is empty or ends in a space, are those of
/// `p` followed by those of `y`.
proof fn lemma_words_append(p: Seq<char>, y: Seq<char>)
    requires
        p.len() == 0 || p.last() == ' ',
    ensures
        words(p + y) == words(p) + words(y),
    decreases y.len(),
{
    if y.len() == 0 {
        assert(p + y =~= p);
        assert(words(p) + words(y) =~= words(p));
    } else {
        let t = p + y;
        let y1 = y.drop_last();
        let c = y.last();
        assert(t.drop_last() =~= p + y1);
        assert(t.last() == c);
        lemma_words_append(p, y1);
        if c == ' ' {
        } else if y1.len() >= 1 && y1.last() != ' ' {
            assert(t[t.len() - 2] == y1.last());
            assert(y[y.len() - 2] == y1.last());
            lemma_words_last_nonempty(y1);
            assert(words(t) =~= words(p) + words(y));
        } else {
            if y1.len() >= 1 {
                assert(t[t.len() - 2] == y1.last());
                assert(y[y.len() - 2] == y1.last());
            } else if p.len() > 0 {
                assert(t[t.len() - 2] == p.last());
            }
            assert(words(t) =~= words(p) + words(y));
        }
    }
}

/// A non-alphanumeric character separates tokens: the tokens of `a`, a
/// separator `c` and `b` are those of `a` followed by those of `b`.
pub proof fn lemma_tokens_split(a: Seq<char>, c: char, b: Seq<char>)
    requires
        !alphanumeric(c),
    ensures
        tokens(a + seq![c] + b) == tokens(a) + tokens(b),
{
    let ca = cleaned(a);
    let cb = cleaned(b);
    assert(cleaned(a + seq![c] + b) =~= ca.push(' ') + cb);
    lemma_words_append(ca.push(' '), cb);
    assert(ca.push(' ').drop_last() =~= ca);
}

/// The strings of `ws` joined with single spaces (`join(" ")`).
pub open spec fn join_words(ws: Seq<Seq<char>>) -> Seq<char>
    decreases ws.len(),
{
    if ws.len() == 0 {
        seq![]
    } else if ws.len() == 1 {
        ws[0]
    } else {
        join_words(ws.drop_last()).push(' ') + ws.last()
    }
}

/// Whether `w` is a word: non-empty, with no space.
pub open spec fn is_word(w: Seq<char>) -> bool {
    w.len() > 0 && forall|j: int| 0 <= j < w.len() ==> w[j] != ' '
}

proof fn lemma_words_of_word(w: Seq<char>)
    requires
        is_word(w),
    ensures
        words(w) == seq![w],
    decreases w.len(),
{
    if w.len() == 1 {
        assert(w.drop_last() =~= Seq::<char>::empty());
        assert(words(w.drop_last()) =~= Seq::<Seq<char>>::empty());
        assert(seq![w.last()] =~= w);
        assert(words(w) =~= seq![w]);
    } else {
        let v = w.drop_last();
        assert(is_word(v));
        lemma_words_of_word(v);
        assert(w[w.len() - 2] == v.last());
        assert(v.push(w.last()) =~= w);
        assert(words(w) =~= seq![w]);
    }
}

proof fn lemma_words_of_join(ws: Seq<Seq<char>>)
    requires
        forall|i: int| 0 <= i < ws.len() ==> is_word(#[trigger] ws[i]),
    ensures
        words(join_words(ws)) == ws,
    decreases ws.len(),
{
    if ws.len() == 0 {
    } else if ws.len() == 1 {
        lemma_words_of_word(ws[0]);
        assert(seq![ws[0]] =~= ws);
    } else {
        let front = ws.drop_last();
        assert forall|i: int| 0 <= i < front.len() implies is_word(#[trigger] front[i]) by {
            assert(front[i] == ws[i]);
        }
        lemma_words_of_join(front);
        let j = join_words(front);
        lemma_words_append(j.push(' '), ws.last());
        assert(j.push(' ').drop_last() =~= j);
        lemma_words_of_word(ws.last());
        assert(front + seq![ws.last()] =~= ws);
    }
}

/// Whether cleaning leaves `c` as it is.
pub open spec fn clean_fixed(c: char) -> bool {
    clean_char(c) == c
}

proof fn lemma_join_fixed(ws: Seq<Seq<char>>)
    requires
        forall|i: int, j: int| 0 <= i < ws.len() && 0 <= j < ws[i].len() ==> clean_fixed(#[trigger] ws[i][j]),
    ensures
        forall|k: int| 0 <= k < join_words(ws).len() ==> clean_fixed(#[trigger] join_words(ws)[k]),
    decreases ws.len(),
{
    if ws.len() >= 2 {
        let front = ws.drop_last();
        assert forall|i: int, j: int| 0 <= i < front.len() && 0 <= j < front[i].len() implies clean_fixed(
            #[trigger] front[i][j],
        ) by {
            assert(front[i] == ws[i]);
        }
        lemma_join_fixed(front);
        let jf = join_words(front);
        let w = ws.last();
        assert forall|k: int| 0 <= k < join_words(ws).len() implies clean_fixed(#[trigger] join_words(ws)[k]) by {
            if k < jf.len() {
                assert(join_words(ws)[k] == jf[k]);
            } else if k == jf.len() {
                assert(join_words(ws)[k] == ' ');
            } else {
                assert(join_words(ws)[k] == w[k - jf.len() - 1]);
                assert(w == ws[ws.len() - 1]);
            }
        }
    } else if ws.len() == 1 {
        assert forall|k: int| 0 <= k < join_words(ws).len() implies clean_fixed(#[trigger] join_words(ws)[k]) by {
            assert(join_words(ws)[k] == ws[0][k]);
        }
    }
}

/// Tokenizing is idempotent: the tokens of the tokens of `s`, joined with
/// spaces, are the tokens of `s`.
pub proof fn lemma_tokenize_idempotent(s: Seq<char>)
    ensures
        tokens(join_words(tokens(s))) == tokens(s),
{
    let t = cleaned(s);
    let ws = tokens(s);
    lemma_words_shape(t);
    assert forall|i: int, j: int| 0 <= i < ws.len() && 0 <= j < ws[i].len() implies clean_fixed(
        #[trigger] ws[i][j],
    ) by {
        let ch = ws[i][j];
        assert(t.contains(ch));
        let k = choose|k: int| 0 <= k < t.len() && t[k] == ch;
        let x = s[k];
        assert(ch == clean_char(x));
        assert(alphanumeric(x));
        if 'A' <= x && x <= 'Z' {
            assert((((x as u32) + 32) as char) as u32 == (x as u32) + 32);
        }
    }
    assert forall|i: int| 0 <= i < ws.len() implies is_word(#[trigger] ws[i]) by {
        assert forall|j: int| 0 <= j < ws[i].len() implies ws[i][j] != ' ' by {
            assert(ws[i][j] == words(t)[i][j]);
        }
    }
    lemma_join_fixed(ws);
    let joined = join_words(ws);
    assert(cleaned(joined) =~= joined) by {
        assert forall|k: int| 0 <= k < joined.len() implies cleaned(joined)[k] == joined[k] by {
            assert(clean_fixed(joined[k]));
        }
    }
    lemma_words_of_join(ws);
}

/// A string of alphanumeric characters (ASCII letters and digits, or
/// non-ASCII characters with the Unicode property) is one token, of the
/// same length, each character kept except that an ASCII capital becomes
/// the small letter 32 code points above it.
pub proof fn lemma_tokens_of_alphanumeric(s: Seq<char>)
    requires
        s.len() > 0,
        forall|i: int| 0 <= i < s.len() ==> {
            let c = #[trigger] s[i];
            ||| 'a' <= c <= 'z'
            ||| 'A' <= c <= 'Z'
            ||| '0' <= c <= '9'
            ||| (c as u32) >= 128 && char_is_alphanumeric(c)
        },
    ensures
        tokens(s).len() == 1,
        tokens(s)[0].len() == s.len(),
        forall|i: int| 0 <= i < s.len() ==> (#[trigger] tokens(s)[0][i]) as u32 == if 'A' <= s[i] <= 'Z' {
            s[i] as u32 + 32
        } else {
            s[i] as int
        },
{
    let t = cleaned(s);
    assert forall|i: int| 0 <= i < s.len() implies t[i] != ' ' && t[i] as u32 == if 'A' <= s[i] <= 'Z' {
        s[i] as u32 + 32
    } else {
        s[i] as int
    } by {
        let c = s[i];
        assert(t[i] == clean_char(c));
        assert(alphanumeric(c));
        if 'A' <= c && c <= 'Z' {
            assert((((c as u32) + 32) as char) as u32 == (c as u32) + 32);
        }
    }
    assert(is_word(t));
    lemma_words_of_word(t);
}

/// An ASCII character other than a letter or digit separates tokens.
pub proof fn lemma_tokens_split_ascii(a: Seq<char>, c: char, b: Seq<char>)
    requires
        (c as u32) < 128,
        !('a' <= c <= 'z'),
        !('A' <= c <= 'Z'),
        !('0' <= c <= '9'),
    ensures
        tokens(a + seq![c] + b) == tokens(a) + tokens(b),
{
    lemma_tokens_split(a, c, b);
}

/// Splits `s` into lower-case tokens: every character that is not
/// alphanumeric separates tokens, and ASCII letters are lower-cased.
pub fn tokenize(s: &str) -> (r: Vec<String>)
    ensures
        strings_view(r@) == tokens(s@),
        forall|i: int| 0 <= i < r@.len() ==> (#[trigger] r@[i])@.len() > 0 && no_nul(r@[i]@),
{
    let mut result: Vec<String> = Vec::new();
    let mut current = String::new();
    let mut in_word = false;
    let ghost mut seen: Seq<char> = Seq::empty();
    for c in it: s.chars()
        invariant
            seen == it.seq().take(it.index() as int),
            it.seq() == s@,
            in_word == ends_in_word(cleaned(seen)),
            in_word ==> current@.len() > 0,
            !in_word ==> current@.len() == 0,
            no_nul(current@),
            forall|i: int| 0 <= i < result@.len() ==> (#[trigger] result@[i])@.len() > 0 && no_nul(result@[i]@),
            words(cleaned(seen)) == if in_word {
                strings_view(result@).push(current@)
            } else {
                strings_view(result@)
            },
    {
        let ghost prev_seen = seen;
        proof {
            seen = seen.push(c);
        }
        let d = if is_alphanumeric(c) {
            to_ascii_lowercase(c)
        } else {
            ' '
        };
        assert(d != '\0') by {
            if c == '\0' {
                assert(!is_ascii_alnum(c));
            } else if 'A' <= c && c <= 'Z' {
                assert(d == ((c as u32) + 32) as char);
            }
        }
        assert(cleaned(seen) == cleaned(prev_seen).push(d));
        assert(cleaned(seen).drop_last() == cleaned(prev_seen));
        let ghost old_result = strings_view(result@);
        let ghost old_current = current@;
        if d == ' ' {
            if in_word {
                result.push(current);
                assert(strings_view(result@) == old_result.push(old_current));
                current = String::new();
                in_word = false;
            }
        } else {
            push_char(&mut current, d);
            if in_word {
                assert(old_result.push(old_current).update(old_result.len() as int, old_current.push(d))
                    == old_result.push(current@));
            } else {
                assert(current@ == seq![d]);
            }
            in_word = true;
        }
    }
    proof {
        assert(seen == s@);
    }
    let ghost last_result = strings_view(result@);
    let ghost last_current = current@;
    if in_word {
        result.push(current);
        assert(strings_view(result@) == last_result.push(last_current));
    }
    result
}

} // verus!
