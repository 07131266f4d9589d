//! Tokenization, snippets and truncation of document text.

use vstd::prelude::*;
use vstd::utf8::{encode_utf8, decode_utf8, is_char_boundary, is_ascii_chars};
use vstd::string::StringExecFns;
use crate::unicode::{
    lowercase,
    is_alphanumeric,
    str_to_lowercase,
    char_is_alphanumeric,
    push_char,
    ascii_lower,
    ascii_lower_char,
    ascii_alphanumeric,
};

verus! {

broadcast use {
    vstd::string::group_string_axioms,
    vstd::utf8::encode_utf8_valid_utf8,
    vstd::utf8::encode_utf8_decode_utf8,
};

/// The maximal runs of alphanumeric characters of `s`, in order.
pub open spec fn words(s: Seq<char>) -> Seq<Seq<char>>
    decreases s.len(),
{
    if s.len() == 0 {
        Seq::<Seq<char>>::empty()
    } else {
        let w = words(s.drop_last());
        let c = s.last();
        if !is_alphanumeric(c) {
            w
        } else if s.len() >= 2 && is_alphanumeric(s[s.len() - 2]) {
            w.update(w.len() - 1, w.last().push(c))
        } else {
            w.push(seq![c])
        }
    }
}

/// The tokens of a text: the maximal alphanumeric runs of its lowercase form.
pub open spec fn tokens_of(text: Seq<char>) -> Seq<Seq<char>> {
    words(lowercase(text))
}

/// The views of a list of strings.
pub open spec fn strings_view(v: Seq<String>) -> Seq<Seq<char>> {
    v.map_values(|s: String| s@)
}

/// Every word is a nonempty run of alphanumeric characters, and a run ends
/// the text exactly when its last character is alphanumeric.
pub proof fn lemma_words(s: Seq<char>)
    ensures
        forall|i: int|
            0 <= i < words(s).len() ==> (#[trigger] words(s)[i]).len() > 0 && forall|j: int|
                0 <= j < words(s)[i].len() ==> is_alphanumeric(#[trigger] words(s)[i][j]),
        s.len() > 0 && is_alphanumeric(s.last()) ==> words(s).len() > 0,
    decreases s.len(),
{
    if s.len() > 0 {
        let init = s.drop_last();
        lemma_words(init);
        let w = words(init);
        let c = s.last();
        if is_alphanumeric(c) && s.len() >= 2 && is_alphanumeric(s[s.len() - 2]) {
            assert(init.last() == s[s.len() - 2]);
            assert(w.len() > 0);
            let nw = w.update(w.len() - 1, w.last().push(c));
            assert forall|i: int| 0 <= i < nw.len() implies (#[trigger] nw[i]).len() > 0
                && forall|j: int| 0 <= j < nw[i].len() ==> is_alphanumeric(#[trigger] nw[i][j]) by {
                if i == w.len() - 1 {
                    assert forall|j: int| 0 <= j < nw[i].len() implies is_alphanumeric(
                        #[trigger] nw[i][j],
                    ) by {
                        if j < w.last().len() {
                            assert(nw[i][j] == w[w.len() - 1][j]);
                        }
                    }
                } else {
                    assert(nw[i] == w[i]);
                }
            }
        } else if is_alphanumeric(c) {
            let nw = w.push(seq![c]);
            assert forall|i: int| 0 <= i < nw.len() implies (#[trigger] nw[i]).len() > 0
                && forall|j: int| 0 <= j < nw[i].len() ==> is_alphanumeric(#[trigger] nw[i][j]) by {
                if i < w.len() {
                    assert(nw[i] == w[i]);
                }
            }
        }
    }
}

/// A nonempty run of alphanumeric characters is one whole word, whatever
/// its length.
pub proof fn law_words_single_run(s: Seq<char>)
    requires
        s.len() > 0,
        forall|i: int| 0 <= i < s.len() ==> is_alphanumeric(#[trigger] s[i]),
    ensures
        words(s) == seq![s],
    decreases s.len(),
{
    let init = s.drop_last();
    if s.len() == 1 {
        assert(init.len() == 0);
        assert(seq![s.last()] =~= s);
        assert(words(init).push(seq![s.last()]) =~~= seq![s]);
    } else {
        assert forall|i: int| 0 <= i < init.len() implies is_alphanumeric(#[trigger] init[i]) by {
            assert(init[i] == s[i]);
        }
        law_words_single_run(init);
        assert(is_alphanumeric(s[s.len() - 2]));
        assert(is_alphanumeric(s.last()));
        assert(init.push(s.last()) =~= s);
        assert(seq![init].update(0, init.push(s.last())) =~~= seq![s]);
    }
}

/// A separator that is not alphanumeric splits the words: the words of
/// `x`, the separator and `y` are those of `x` followed by those of `y`.
pub proof fn law_words_split(x: Seq<char>, sep: char, y: Seq<char>)
    requires
        !is_alphanumeric(sep),
    ensures
        words(x + seq![sep] + y) == words(x) + words(y),
    decreases y.len(),
{
    let z = x + seq![sep] + y;
    if y.len() == 0 {
        assert(z.drop_last() =~= x);
        assert(words(y) =~= Seq::<Seq<char>>::empty());
        assert(words(x) + words(y) =~= words(x));
    } else {
        let y1 = y.drop_last();
        law_words_split(x, sep, y1);
        let z1 = x + seq![sep] + y1;
        assert(z.drop_last() =~= z1);
        assert(z.last() == y.last());
        let c = y.last();
        let wx = words(x);
        let wy1 = words(y1);
        if !is_alphanumeric(c) {
        } else if y.len() >= 2 {
            assert(z[z.len() - 2] == y[y.len() - 2]);
            if is_alphanumeric(y[y.len() - 2]) {
                assert(y1.last() == y[y.len() - 2]);
                lemma_words(y1);
                assert((wx + wy1).update((wx + wy1).len() - 1, (wx + wy1).last().push(c)) =~= wx + wy1.update(
                    wy1.len() - 1,
                    wy1.last().push(c),
                ));
            } else {
                assert((wx + wy1).push(seq![c]) =~= wx + wy1.push(seq![c]));
            }
        } else {
            assert(z[z.len() - 2] == sep);
            assert(y1 =~= Seq::<char>::empty());
            assert(wy1 =~= Seq::<Seq<char>>::empty());
            assert(wx.push(seq![c]) =~= wx + seq![seq![c]]);
        }
    }
}

/// The maximal runs of ASCII letters and digits of `s`, in order.
pub open spec fn ascii_words(s: Seq<char>) -> Seq<Seq<char>>
    decreases s.len(),
{
    if s.len() == 0 {
        Seq::<Seq<char>>::empty()
    } else {
        let w = ascii_words(s.drop_last());
        let c = s.last();
        if !ascii_alphanumeric(c) {
            w
        } else if s.len() >= 2 && ascii_alphanumeric(s[s.len() - 2]) {
            w.update(w.len() - 1, w.last().push(c))
        } else {
            w.push(seq![c])
        }
    }
}

/// The tokens of an ASCII text: the maximal runs of letters and digits of
/// its lowercase form.
pub open spec fn ascii_tokens(text: Seq<char>) -> Seq<Seq<char>> {
    ascii_words(ascii_lower(text))
}

/// Where the two classifications agree on every character, the words are
/// the same.
proof fn lemma_words_agree(s: Seq<char>)
    requires
        forall|i: int| 0 <= i < s.len() ==> is_alphanumeric(#[trigger] s[i]) == ascii_alphanumeric(s[i]),
    ensures
        words(s) == ascii_words(s),
    decreases s.len(),
{
    if s.len() > 0 {
        let init = s.drop_last();
        assert forall|i: int| 0 <= i < init.len() implies is_alphanumeric(#[trigger] init[i]) == ascii_alphanumeric(
            init[i],
        ) by {
            assert(init[i] == s[i]);
        }
        lemma_words_agree(init);
        assert(is_alphanumeric(s[s.len() - 1]) == ascii_alphanumeric(s[s.len() - 1]));
        if s.len() >= 2 {
            assert(is_alphanumeric(s[s.len() - 2]) == ascii_alphanumeric(s[s.len() - 2]));
        }
    }
}

/// A text that ends in a letter or digit has a word.
proof fn lemma_ascii_words_end(s: Seq<char>)
    requires
        s.len() > 0,
        ascii_alphanumeric(s.last()),
    ensures
        ascii_words(s).len() > 0,
    decreases s.len(),
{
    if s.len() >= 2 && ascii_alphanumeric(s[s.len() - 2]) {
        assert(s.drop_last().last() == s[s.len() - 2]);
        lemma_ascii_words_end(s.drop_last());
    }
}

/// A nonempty run of ASCII letters and digits is one whole word, whatever
/// its length.
pub proof fn law_ascii_words_single_run(s: Seq<char>)
    requires
        s.len() > 0,
        forall|i: int| 0 <= i < s.len() ==> ascii_alphanumeric(#[trigger] s[i]),
    ensures
        ascii_words(s) == seq![s],
    decreases s.len(),
{
    let init = s.drop_last();
    if s.len() == 1 {
        assert(init.len() == 0);
        assert(seq![s.last()] =~= s);
        assert(ascii_words(init).push(seq![s.last()]) =~~= seq![s]);
    } else {
        assert forall|i: int| 0 <= i < init.len() implies ascii_alphanumeric(#[trigger] init[i]) by {
            assert(init[i] == s[i]);
        }
        law_ascii_words_single_run(init);
        assert(ascii_alphanumeric(s[s.len() - 2]));
        assert(ascii_alphanumeric(s.last()));
        assert(init.push(s.last()) =~= s);
        assert(seq![init].update(0, init.push(s.last())) =~~= seq![s]);
    }
}

/// A separator that is neither letter nor digit splits the words: the words
/// of `x`, the separator and `y` are those of `x` followed by those of `y`.
pub proof fn law_ascii_words_split(x: Seq<char>, sep: char, y: Seq<char>)
    requires
        !ascii_alphanumeric(sep),
    ensures
        ascii_words(x + seq![sep] + y) == ascii_words(x) + ascii_words(y),
    decreases y.len(),
{
    let z = x + seq![sep] + y;
    if y.len() == 0 {
        assert(z.drop_last() =~= x);
        assert(ascii_words(y) =~= Seq::<Seq<char>>::empty());
        assert(ascii_words(x) + ascii_words(y) =~= ascii_words(x));
    } else {
        let y1 = y.drop_last();
        law_ascii_words_split(x, sep, y1);
        let z1 = x + seq![sep] + y1;
        assert(z.drop_last() =~= z1);
        assert(z.last() == y.last());
        let c = y.last();
        let wx = ascii_words(x);
        let wy1 = ascii_words(y1);
        if !ascii_alphanumeric(c) {
        } else if y.len() >= 2 {
            assert(z[z.len() - 2] == y[y.len() - 2]);
            if ascii_alphanumeric(y[y.len() - 2]) {
                assert(y1.last() == y[y.len() - 2]);
                lemma_ascii_words_end(y1);
                assert((wx + wy1).update((wx + wy1).len() - 1, (wx + wy1).last().push(c)) =~= wx + wy1.update(
                    wy1.len() - 1,
                    wy1.last().push(c),
                ));
            } else {
                assert((wx + wy1).push(seq![c]) =~= wx + wy1.push(seq![c]));
            }
        } else {
            assert(z[z.len() - 2] == sep);
            assert(y1 =~= Seq::<char>::empty());
            assert(wy1 =~= Seq::<Seq<char>>::empty());
            assert(wx.push(seq![c]) =~= wx + seq![seq![c]]);
        }
    }
}

/// On ASCII texts tokens split at a space: the tokens of `a`, a space and
/// `b` are the tokens of `a` followed by those of `b`.
pub proof fn law_ascii_tokens_concat(a: Seq<char>, b: Seq<char>)
    ensures
        ascii_tokens(a + seq![' '] + b) == ascii_tokens(a) + ascii_tokens(b),
{
    assert(ascii_lower(a + seq![' '] + b) =~= ascii_lower(a) + seq![' '] + ascii_lower(b));
    law_ascii_words_split(ascii_lower(a), ' ', ascii_lower(b));
}

/// Splits a text into lowercase alphanumeric tokens; every other character
/// separates tokens.
pub fn tokenize(text: &str) -> (tokens: Vec<String>)
    ensures
        strings_view(tokens@) == tokens_of(text@),
        forall|i: int|
            0 <= i < tokens@.len() ==> (#[trigger] tokens@[i])@.len() > 0 && forall|j: int|
                0 <= j < tokens@[i]@.len() ==> is_alphanumeric(#[trigger] tokens@[i]@[j]),
        is_ascii_chars(text@) ==> strings_view(tokens@) == ascii_tokens(text@),
{
    let lowered = str_to_lowercase(text);
    proof {
        if is_ascii_chars(text@) {
            assert forall|j: int| 0 <= j < lowered@.len() implies #[trigger] lowered@[j] <= '\u{7f}' by {
                let c = text@[j];
                assert(lowered@[j] == ascii_lower_char(c));
                assert(c <= '\u{7f}');
            }
        }
    }
    let ghost low = lowered@;
    let mut tokens: Vec<String> = Vec::new();
    let mut cur = String::new();
    assert(low.take(0) =~= Seq::<char>::empty());
    for c in iter: lowered.as_str().chars()
        invariant
            iter.seq() == low,
            low == lowercase(text@),
            (if cur@.len() > 0 {
                strings_view(tokens@).push(cur@)
            } else {
                strings_view(tokens@)
            }) == words(low.take(iter.index() as int)),
            cur@.len() > 0 <==> (iter.index() > 0 && is_alphanumeric(low[iter.index() - 1])),
            is_ascii_chars(text@) ==> forall|j: int| 0 <= j < low.len() ==> #[trigger] low[j] <= '\u{7f}',
            is_ascii_chars(text@) ==> forall|j: int|
                0 <= j < iter.index() ==> is_alphanumeric(#[trigger] low[j]) == ascii_alphanumeric(low[j]),
    {
        let ghost i = iter.index() as int;
        let ghost prev = low.take(i);
        let ghost next = low.take(i + 1);
        assert(c == low[i]);
        assert(next.drop_last() =~= prev);
        assert(next.last() == c);
        let alnum = char_is_alphanumeric(c);
        if alnum {
            let ghost was = cur@;
            push_char(&mut cur, c);
            proof {
                if was.len() > 0 {
                    assert(next[next.len() - 2] == low[i - 1]);
                    let w = words(prev);
                    assert(w == strings_view(tokens@).push(was));
                    assert(w.update(w.len() - 1, w.last().push(c)) =~= strings_view(tokens@).push(
                        cur@,
                    ));
                } else {
                    if i > 0 {
                        assert(next[next.len() - 2] == low[i - 1]);
                    }
                    assert(cur@ =~= seq![c]);
                }
            }
        } else {
            if !cur.as_str().is_empty() {
                let ghost was = cur@;
                let ghost tv = strings_view(tokens@);
                let finished = cur;
                tokens.push(finished);
                cur = String::new();
                assert(strings_view(tokens@) =~= tv.push(was));
            }
        }
    }
    if !cur.as_str().is_empty() {
        let ghost tv = strings_view(tokens@);
        let ghost was = cur@;
        tokens.push(cur);
        assert(strings_view(tokens@) =~= tv.push(was));
    }
    assert(low.take(low.len() as int) =~= low);
    proof {
        lemma_words(low);
        if is_ascii_chars(text@) {
            lemma_words_agree(low);
        }
        assert forall|i: int| 0 <= i < tokens@.len() implies (#[trigger] tokens@[i])@.len() > 0
            && forall|j: int|
            0 <= j < tokens@[i]@.len() ==> is_alphanumeric(#[trigger] tokens@[i]@[j]) by {
            assert(strings_view(tokens@)[i] == tokens@[i]@);
        }
    }
    tokens
}

/// The largest character boundary of `bytes` that is at most `m`.
pub open spec fn floor_boundary(bytes: Seq<u8>, m: int) -> int
    decreases m,
{
    if m <= 0 {
        0
    } else if is_char_boundary(bytes, m) {
        m
    } else {
        floor_boundary(bytes, m - 1)
    }
}

/// A text cut to at most `max_len` bytes at a character boundary, marked
/// with "..." when it was cut.
pub open spec fn truncated(s: Seq<char>, max_len: int) -> Seq<char> {
    let bytes = encode_utf8(s);
    if bytes.len() <= max_len {
        s
    } else {
        decode_utf8(bytes.subrange(0, floor_boundary(bytes, max_len))) + seq!['.', '.', '.']
    }
}

/// The UTF-8 encoding of two texts one after the other is their encodings
/// one after the other.
pub proof fn lemma_encode_concat(a: Seq<char>, b: Seq<char>)
    ensures
        encode_utf8(a + b) == encode_utf8(a) + encode_utf8(b),
    decreases a.len(),
{
    if a.len() == 0 {
        assert(a + b =~= b);
        assert(encode_utf8(a) =~= Seq::<u8>::empty());
        assert(encode_utf8(a) + encode_utf8(b) =~= encode_utf8(b));
    } else {
        lemma_encode_concat(a.drop_first(), b);
        assert((a + b).drop_first() =~= a.drop_first() + b);
        assert((a + b)[0] == a[0]);
        assert(encode_utf8(a + b) =~= encode_utf8(a) + encode_utf8(b));
    }
}

/// Keeps at most `max_len` bytes of `s`, backing off to a character
/// boundary, and appends "..." when anything was cut; the result has at
/// most `max_len + 3` bytes.
pub fn truncate(s: &str, max_len: usize) -> (r: String)
    ensures
        r@ == truncated(s@, max_len as int),
        encode_utf8(r@).len() <= max_len + 3,
{
    let byte_len = s.as_bytes().len();
    if byte_len <= max_len {
        let r = s.to_owned();
        assert(encode_utf8(s@).len() <= max_len);
        r
    } else {
        let ghost bytes = encode_utf8(s@);
        let mut end = max_len;
        while end > 0 && !s.is_char_boundary(end)
            invariant
                end <= max_len,
                bytes == encode_utf8(s@),
                floor_boundary(bytes, max_len as int) == floor_boundary(bytes, end as int),
            decreases end,
        {
            end = end - 1;
        }
        assert(floor_boundary(bytes, end as int) == end as int);
        assert(is_char_boundary(bytes, end as int));
        let (head, _tail) = s.split_at(end);
        let mut r = head.to_owned();
        let dots = "...";
        proof {
            reveal_strlit("...");
        }
        r.append(dots);
        proof {
            assert(encode_utf8(head@) == bytes.subrange(0, end as int));
            assert(decode_utf8(encode_utf8(head@)) == head@);
            assert(dots@ =~= seq!['.', '.', '.']);
            assert(head@ == decode_utf8(bytes.subrange(0, end as int)));
            assert(r@ == head@ + seq!['.', '.', '.']);
            assert(bytes.len() > max_len);
            lemma_encode_concat(head@, dots@);
            assert(vstd::utf8::is_ascii_chars(dots@));
            vstd::utf8::is_ascii_chars_encode_utf8(dots@);
            assert(encode_utf8(head@).len() == end as int);
        }
        r
    }
}

/// The words of `ws` separated by `sep`.
pub open spec fn join(ws: Seq<Seq<char>>, sep: Seq<char>) -> Seq<char>
    decreases ws.len(),
{
    if ws.len() == 0 {
        Seq::<char>::empty()
    } else if ws.len() == 1 {
        ws[0]
    } else {
        join(ws.drop_last(), sep) + sep + ws.last()
    }
}

/// The smallest element of a nonempty sequence.
pub open spec fn seq_min(p: Seq<usize>) -> int
    decreases p.len(),
{
    if p.len() <= 1 {
        p[0] as int
    } else {
        let m = seq_min(p.drop_last());
        if p.last() < m {
            p.last() as int
        } else {
            m
        }
    }
}

/// The token at which a snippet starts: three tokens before the first
/// matched position, or the start.
pub open spec fn snippet_start(positions: Option<Seq<usize>>) -> int {
    match positions {
        Some(p) => if p.len() == 0 {
            0
        } else if seq_min(p) >= 3 {
            seq_min(p) - 3
        } else {
            0
        },
        None => 0,
    }
}

/// Where a snippet starts: at the start without positions, and otherwise
/// three tokens before the smallest position, or at the start when that
/// position is below 3.
pub proof fn law_snippet_start(p: Seq<usize>)
    ensures
        snippet_start(None) == 0,
        p.len() == 0 ==> snippet_start(Some(p)) == 0,
        p.len() > 0 ==> exists|i: int|
            0 <= i < p.len() && (forall|j: int| 0 <= j < p.len() ==> p[i] <= #[trigger] p[j]) && #[trigger] snippet_start(
                Some(p),
            ) == (if p[i] >= 3 {
                p[i] - 3
            } else {
                0
            }),
{
    if p.len() > 0 {
        lemma_seq_min(p);
        let i = choose|i: int| 0 <= i < p.len() && p[i] == seq_min(p);
        assert(forall|j: int| 0 <= j < p.len() ==> p[i] <= #[trigger] p[j]);
    }
}

/// The smallest element is one of the elements and at most each of them.
proof fn lemma_seq_min(p: Seq<usize>)
    requires
        p.len() > 0,
    ensures
        exists|i: int| 0 <= i < p.len() && p[i] == seq_min(p),
        forall|j: int| 0 <= j < p.len() ==> seq_min(p) <= #[trigger] p[j],
    decreases p.len(),
{
    if p.len() == 1 {
        assert(p[0] == seq_min(p));
    } else {
        let init = p.drop_last();
        lemma_seq_min(init);
        assert forall|j: int| 0 <= j < p.len() implies seq_min(p) <= #[trigger] p[j] by {
            if j < init.len() {
                assert(init[j] == p[j]);
            }
        }
        if p.last() < seq_min(init) {
            assert(p[p.len() - 1] == seq_min(p));
        } else {
            let i = choose|i: int| 0 <= i < init.len() && init[i] == seq_min(init);
            assert(p[i] == init[i]);
        }
    }
}

/// Joined words begin with the first word.
proof fn lemma_join_starts(ws: Seq<Seq<char>>, sep: Seq<char>)
    requires
        ws.len() > 0,
    ensures
        join(ws, sep).len() >= ws[0].len(),
        join(ws, sep).take(ws[0].len() as int) == ws[0],
    decreases ws.len(),
{
    if ws.len() > 1 {
        let init = ws.drop_last();
        lemma_join_starts(init, sep);
        assert(init[0] == ws[0]);
        let j = join(ws, sep);
        assert(j == join(init, sep) + sep + ws.last());
        assert(j.take(ws[0].len() as int) =~= join(init, sep).take(ws[0].len() as int));
    } else {
        assert(join(ws, sep).take(ws[0].len() as int) =~= ws[0]);
    }
}

/// When some position is below 3 the snippet starts at the first token,
/// with no leading "...": it begins with that token.
pub proof fn law_snippet_from_first_token(text: Seq<char>, p: Seq<usize>, i: int)
    requires
        0 <= i < p.len(),
        p[i] < 3,
        tokens_of(text).len() > 0,
    ensures
        snippet_start(Some(p)) == 0,
        snippet(text, Some(p)).take(tokens_of(text)[0].len() as int) == tokens_of(text)[0],
{
    lemma_seq_min(p);
    let toks = tokens_of(text);
    let end = if snippet_window() < toks.len() {
        snippet_window()
    } else {
        toks.len() as int
    };
    let sub = toks.subrange(0, end);
    assert(sub[0] == toks[0]);
    lemma_join_starts(sub, seq![' ']);
    let j = join(sub, seq![' ']);
    let tail = if end < toks.len() {
        seq!['.', '.', '.']
    } else {
        Seq::<char>::empty()
    };
    assert(snippet(text, Some(p)) == Seq::<char>::empty() + j + tail);
    assert((Seq::<char>::empty() + j + tail).take(toks[0].len() as int) =~= j.take(toks[0].len() as int));
}

/// The number of tokens a snippet shows.
pub open spec fn snippet_window() -> int {
    10
}

/// The snippet of a text: up to ten tokens from `snippet_start`, joined by
/// spaces and marked with "..." on a side where tokens were left out; the
/// whole text truncated to 80 bytes when the start lies past the last token.
pub open spec fn snippet(text: Seq<char>, positions: Option<Seq<usize>>) -> Seq<char> {
    let tokens = tokens_of(text);
    let start = snippet_start(positions);
    let end = if start + snippet_window() < tokens.len() {
        start + snippet_window()
    } else {
        tokens.len() as int
    };
    if start >= tokens.len() {
        truncated(text, 80)
    } else {
        (if start > 0 {
            seq!['.', '.', '.']
        } else {
            Seq::<char>::empty()
        }) + join(tokens.subrange(start, end), seq![' ']) + (if end < tokens.len() {
            seq!['.', '.', '.']
        } else {
            Seq::<char>::empty()
        })
    }
}

/// The view of an optional list of positions.
pub open spec fn positions_view(positions: Option<&Vec<usize>>) -> Option<Seq<usize>> {
    match positions {
        Some(p) => Some(p@),
        None => None,
    }
}

/// A short excerpt of `text` around the first of `positions` (token
/// indices), or from its start.
pub fn make_snippet(text: &str, positions: Option<&Vec<usize>>) -> (r: String)
    requires
        snippet_start(positions_view(positions)) + snippet_window() <= usize::MAX,
    ensures
        r@ == snippet(text@, positions_view(positions)),
{
    let tokens = tokenize(text);
    let ghost tv = strings_view(tokens@);
    let start: usize = match positions {
        Some(pos) => {
            if pos.len() == 0 {
                0
            } else {
                let mut first: usize = pos[0];
                let mut k: usize = 1;
                assert(pos@.take(1).drop_last() =~= Seq::<usize>::empty());
                assert(seq_min(pos@.take(1)) == pos@[0]);
                while k < pos.len()
                    invariant
                        1 <= k <= pos@.len(),
                        first as int == seq_min(pos@.take(k as int)),
                    decreases pos@.len() - k,
                {
                    assert(pos@.take(k + 1).drop_last() =~= pos@.take(k as int));
                    if pos[k] < first {
                        first = pos[k];
                    }
                    k = k + 1;
                }
                assert(pos@.take(k as int) =~= pos@);
                first.saturating_sub(3)
            }
        },
        None => 0,
    };
    assert(start as int == snippet_start(positions_view(positions)));
    let context_window: usize = 10;
    let end = if start + context_window < tokens.len() {
        start + context_window
    } else {
        tokens.len()
    };
    if start >= tokens.len() {
        return truncate(text, 80);
    }
    let mut joined = String::new();
    let mut k: usize = start;
    let sep = " ";
    proof {
        reveal_strlit(" ");
        assert(sep@ =~= seq![' ']);
    }
    while k < end
        invariant
            start <= k <= end <= tokens@.len(),
            start < end,
            tv == strings_view(tokens@),
            sep@ == seq![' '],
            joined@ == join(tv.subrange(start as int, k as int), seq![' ']),
        decreases end - k,
    {
        let ghost before = joined@;
        if k > start {
            joined.append(sep);
        }
        joined.append(tokens[k].as_str());
        proof {
            let ws = tv.subrange(start as int, k + 1);
            assert(ws.drop_last() =~= tv.subrange(start as int, k as int));
            assert(ws.last() == tokens@[k as int]@);
            if k == start {
                assert(ws.len() == 1);
                assert(before =~= Seq::<char>::empty());
                assert(joined@ =~= ws[0]);
            } else {
                assert(joined@ =~= before + seq![' '] + ws.last());
            }
        }
        k = k + 1;
    }
    let dots = "...";
    proof {
        reveal_strlit("...");
        assert(dots@ =~= seq!['.', '.', '.']);
    }
    let mut r = String::new();
    if start > 0 {
        r.append(dots);
    }
    r.append(joined.as_str());
    if end < tokens.len() {
        r.append(dots);
    }
    proof {
        assert(r@ =~= snippet(text@, positions_view(positions)));
    }
    r
}

/// Whether two texts are equal, compared byte by byte.
pub fn text_eq(a: &str, b: &str) -> (r: bool)
    ensures
        r == (a@ == b@),
{
    let x = a.as_bytes();
    let y = b.as_bytes();
    assert(x@ == encode_utf8(a@));
    assert(y@ == encode_utf8(b@));
    if x.len() != y.len() {
        return false;
    }
    let mut i: usize = 0;
    while i < x.len()
        invariant
            i <= x@.len(),
            x@.len() == y@.len(),
            x@ == encode_utf8(a@),
            y@ == encode_utf8(b@),
            forall|j: int| 0 <= j < i ==> x@[j] == y@[j],
        decreases x@.len() - i,
    {
        if x[i] != y[i] {
            proof {
                if a@ == b@ {
                    assert(encode_utf8(a@) == encode_utf8(b@));
                    assert(x@[i as int] == y@[i as int]);
                }
            }
            return false;
        }
        i = i + 1;
    }
    proof {
        assert(x@ =~= y@);
        assert(decode_utf8(encode_utf8(a@)) == a@);
        assert(decode_utf8(encode_utf8(b@)) == b@);
    }
    true
}

} // verus!
