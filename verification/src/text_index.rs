//! The lexical side of the text index: document ids, term dictionary and
//! posting lists. Scores are computed by the caller from what it exposes.

use vstd::prelude::*;
use vstd::utf8::encode_utf8;
use vstd::utf8::decode_utf8;
use crate::text::{tokenize, tokens_of, strings_view, text_eq};
use crate::byte_order::{lex_lt, bytes_lt, lemma_lex_transitive, lemma_lex_total, lemma_lex_irreflexive};
use crate::stable_sort::{stable_sort_of, stable_sort_of_u32, stable_sort_order_u32, occurs_in};
use crate::wand::{Posting, postings_view};
use crate::fst::{Fst, FstBuilder, has_prefix};

verus! {

broadcast use {
    vstd::string::group_string_axioms,
    vstd::utf8::encode_utf8_decode_utf8,
};

/// The distinct elements of `s` in order of first appearance.
pub open spec fn first_occurrences(s: Seq<Seq<char>>) -> Seq<Seq<char>>
    decreases s.len(),
{
    if s.len() == 0 {
        Seq::<Seq<char>>::empty()
    } else {
        let d = first_occurrences(s.drop_last());
        if d.contains(s.last()) {
            d
        } else {
            d.push(s.last())
        }
    }
}

/// No element occurs twice.
pub open spec fn no_repeats(s: Seq<Seq<char>>) -> bool {
    forall|i: int, j: int| 0 <= i < j < s.len() ==> s[i] != s[j]
}

/// The position of `x` in `s`.
pub open spec fn position_of(s: Seq<Seq<char>>, x: Seq<char>) -> int {
    choose|i: int| 0 <= i < s.len() && s[i] == x
}

/// The number of occurrences of `t` in `s`.
pub open spec fn count_of(s: Seq<Seq<char>>, t: Seq<char>) -> nat
    decreases s.len(),
{
    if s.len() == 0 {
        0
    } else {
        count_of(s.drop_last(), t) + if s.last() == t {
            1nat
        } else {
            0nat
        }
    }
}

/// A count as the `u32` that a wrapping counter holds.
pub open spec fn wrapped_u32(n: nat) -> u32 {
    (n % 0x1_0000_0000) as u32
}

/// The first occurrences are distinct and hold exactly the texts of `s`.
pub proof fn lemma_first_occurrences(s: Seq<Seq<char>>)
    ensures
        no_repeats(first_occurrences(s)),
        forall|x: Seq<char>| #[trigger] first_occurrences(s).contains(x) <==> s.contains(x),
    decreases s.len(),
{
    if s.len() > 0 {
        let init = s.drop_last();
        lemma_first_occurrences(init);
        assert forall|x: Seq<char>| #[trigger] s.contains(x) <==> init.contains(x) || x == s.last() by {
            if s.contains(x) {
                let i = choose|i: int| 0 <= i < s.len() && s[i] == x;
                if i < init.len() {
                    assert(init[i] == x);
                }
            }
            if init.contains(x) {
                let i = choose|i: int| 0 <= i < init.len() && init[i] == x;
                assert(s[i] == x);
            }
            if x == s.last() {
                assert(s[s.len() - 1] == x);
            }
        }
        let d = first_occurrences(init);
        if !d.contains(s.last()) {
            let d2 = d.push(s.last());
            assert forall|i: int, j: int| 0 <= i < j < d2.len() implies d2[i] != d2[j] by {
                if j == d.len() {
                    assert(d.contains(d[i]));
                    if d2[i] == d2[j] {
                        assert(d.contains(s.last()));
                    }
                }
            }
            assert forall|x: Seq<char>| #[trigger] d2.contains(x) <==> d.contains(x) || x == s.last() by {
                if d2.contains(x) {
                    let i = choose|i: int| 0 <= i < d2.len() && d2[i] == x;
                    if i < d.len() {
                        assert(d[i] == x);
                    }
                }
                if d.contains(x) {
                    let i = choose|i: int| 0 <= i < d.len() && d[i] == x;
                    assert(d2[i] == x);
                }
                if x == s.last() {
                    assert(d2[d.len() as int] == x);
                }
            }
        }
    }
}

/// The distinct elements of a prefix are a prefix of the distinct elements.
proof fn lemma_first_occurrences_prefix(s: Seq<Seq<char>>, k: int)
    requires
        0 <= k <= s.len(),
    ensures
        first_occurrences(s.take(k)).len() <= first_occurrences(s).len(),
        first_occurrences(s).take(first_occurrences(s.take(k)).len() as int) == first_occurrences(s.take(k)),
    decreases s.len() - k,
{
    if k == s.len() {
        assert(s.take(k) =~= s);
    } else {
        lemma_first_occurrences_prefix(s, k + 1);
        let a = first_occurrences(s.take(k));
        let b = first_occurrences(s.take(k + 1));
        assert(s.take(k + 1).drop_last() =~= s.take(k));
        assert(b == a || b == a.push(s[k]));
        let f = first_occurrences(s);
        assert(f.take(a.len() as int) =~= f.take(b.len() as int).take(a.len() as int));
        assert(b.take(a.len() as int) =~= a);
    }
}

/// Handing out ids to the strings of `s` in order, as the id map does: the
/// map after the first `j` strings is their distinct strings in order of
/// first appearance, and the id of string `j` is its position there once it
/// is added. A string seen before leaves the map as it was and gets the id
/// of its first appearance; a new one gets the number of distinct strings
/// before it.
pub proof fn law_ids_in_first_appearance_order(s: Seq<Seq<char>>, j: int)
    requires
        0 <= j < s.len(),
    ensures
        s.take(j).contains(s[j]) ==> first_occurrences(s.take(j + 1)) == first_occurrences(s.take(j)),
        forall|f: int|
            0 <= f < j && s[f] == s[j] ==> #[trigger] position_of(first_occurrences(s.take(f + 1)), s[f])
                == position_of(first_occurrences(s.take(j + 1)), s[j]),
        !s.take(j).contains(s[j]) ==> first_occurrences(s.take(j + 1)) == first_occurrences(s.take(j)).push(s[j])
            && position_of(first_occurrences(s.take(j + 1)), s[j]) == first_occurrences(s.take(j)).len(),
{
    let x = s[j];
    let big = first_occurrences(s.take(j + 1));
    let prev = first_occurrences(s.take(j));
    lemma_first_occurrences(s.take(j + 1));
    lemma_first_occurrences(s.take(j));
    assert(s.take(j + 1).drop_last() =~= s.take(j));
    assert(s.take(j + 1).last() == x);
    assert forall|f: int| 0 <= f < j && s[f] == s[j] implies #[trigger] position_of(
        first_occurrences(s.take(f + 1)),
        s[f],
    ) == position_of(big, x) by {
        let small = first_occurrences(s.take(f + 1));
        assert(s.take(j + 1).take(f + 1) =~= s.take(f + 1));
        lemma_first_occurrences_prefix(s.take(j + 1), f + 1);
        lemma_first_occurrences(s.take(f + 1));
        assert(s.take(f + 1)[f] == x);
        assert(small.contains(x));
        let p = position_of(small, x);
        assert(0 <= p < small.len() && small[p] == x);
        assert(big.take(small.len() as int)[p] == big[p]);
        lemma_position_of(big, p);
    }
    if !s.take(j).contains(x) {
        assert(!prev.contains(x));
        assert(big == prev.push(x));
        lemma_position_of(big, prev.len() as int);
    } else {
        assert(prev.contains(x));
    }
}

/// An id keeps naming its string: after any later strings have been
/// handed ids, the map still holds string `j` at the id it was given.
pub proof fn law_id_names_string_later(s: Seq<Seq<char>>, j: int, k: int)
    requires
        0 <= j < k <= s.len(),
    ensures
        0 <= position_of(first_occurrences(s.take(j + 1)), s[j]) < first_occurrences(s.take(k)).len(),
        first_occurrences(s.take(k))[position_of(first_occurrences(s.take(j + 1)), s[j])] == s[j],
{
    let t = s.take(k);
    assert(t.take(j + 1) =~= s.take(j + 1));
    let small = first_occurrences(s.take(j + 1));
    lemma_first_occurrences(s.take(j + 1));
    lemma_first_occurrences_prefix(t, j + 1);
    assert(s.take(j + 1)[j] == s[j]);
    assert(small.contains(s[j]));
    let p = position_of(small, s[j]);
    assert(0 <= p < small.len() && small[p] == s[j]);
    assert(first_occurrences(t).take(small.len() as int)[p] == first_occurrences(t)[p]);
}

/// Internal ids round-trip: the distinct ids, in order of first appearance
/// (what the index records as external ids), hold at a document's internal
/// id that document's own id, as long as the distinct ids are few enough
/// for every position to fit in a `u32`.
pub proof fn law_internal_id_round_trip(docs: Seq<(Seq<char>, Seq<char>)>, j: int)
    requires
        0 <= j < docs.len(),
        first_occurrences(doc_ids(docs)).len() <= 0x1_0000_0000,
    ensures
        (internal_id(docs, j) as int) < first_occurrences(doc_ids(docs)).len(),
        first_occurrences(doc_ids(docs))[internal_id(docs, j) as int] == docs[j].0,
{
    let ids = doc_ids(docs);
    let pre = first_occurrences(ids.take(j + 1));
    lemma_first_occurrences(ids.take(j + 1));
    lemma_first_occurrences_prefix(ids, j + 1);
    assert(ids.take(j + 1)[j] == docs[j].0);
    assert(pre.contains(docs[j].0));
    let p = position_of(pre, docs[j].0);
    assert(0 <= p < pre.len() && pre[p] == docs[j].0);
    let f = first_occurrences(ids);
    assert(f.take(pre.len() as int)[p] == f[p]);
    assert(p < 0x1_0000_0000);
    assert(internal_id(docs, j) as int == p);
}

/// Internal ids are handed out in order of first appearance: a document
/// whose id appeared before gets the internal id of that earlier document,
/// and one whose id is new gets the number of distinct ids before it (as
/// long as the distinct ids are few enough for every position to fit in a
/// `u32`).
pub proof fn law_internal_ids_in_order(docs: Seq<(Seq<char>, Seq<char>)>, j: int)
    requires
        0 <= j < docs.len(),
        first_occurrences(doc_ids(docs)).len() <= 0x1_0000_0000,
    ensures
        forall|f: int| 0 <= f < j && docs[f].0 == docs[j].0 ==> #[trigger] internal_id(docs, f) == internal_id(docs, j),
        (forall|f: int| 0 <= f < j ==> docs[f].0 != docs[j].0) ==> internal_id(docs, j) as int == first_occurrences(
            doc_ids(docs).take(j),
        ).len(),
{
    let ids = doc_ids(docs);
    let x = docs[j].0;
    let big = first_occurrences(ids.take(j + 1));
    lemma_first_occurrences(ids.take(j + 1));
    lemma_first_occurrences_prefix(ids, j + 1);
    assert(big.len() < 0x1_0000_0000 + 1);
    assert forall|f: int| 0 <= f < j && docs[f].0 == docs[j].0 implies #[trigger] internal_id(docs, f) == internal_id(
        docs,
        j,
    ) by {
        let small = first_occurrences(ids.take(f + 1));
        assert(ids.take(j + 1).take(f + 1) =~= ids.take(f + 1));
        lemma_first_occurrences_prefix(ids.take(j + 1), f + 1);
        lemma_first_occurrences(ids.take(f + 1));
        assert(ids.take(f + 1)[f] == x);
        assert(small.contains(x));
        let p = position_of(small, x);
        assert(0 <= p < small.len() && small[p] == x);
        assert(big.take(small.len() as int)[p] == big[p]);
        lemma_position_of(big, p);
        assert(position_of(big, x) == p);
    }
    if forall|f: int| 0 <= f < j ==> docs[f].0 != docs[j].0 {
        let prev = first_occurrences(ids.take(j));
        lemma_first_occurrences(ids.take(j));
        assert(ids.take(j + 1).drop_last() =~= ids.take(j));
        assert(ids.take(j + 1).last() == x);
        assert(!ids.take(j).contains(x)) by {
            if ids.take(j).contains(x) {
                let f = choose|f: int| 0 <= f < j && ids.take(j)[f] == x;
                assert(docs[f].0 == x);
            }
        }
        assert(big == prev.push(x));
        lemma_position_of(big, prev.len() as int);
    }
}

/// In a sequence without repeats, `position_of` finds the unique index.
pub proof fn lemma_position_of(s: Seq<Seq<char>>, i: int)
    requires
        no_repeats(s),
        0 <= i < s.len(),
    ensures
        position_of(s, s[i]) == i,
{
    let p = position_of(s, s[i]);
    assert(0 <= p < s.len() && s[p] == s[i]);
    if p != i {
        if p < i {
            assert(s[p] != s[i]);
        } else {
            assert(s[i] != s[p]);
        }
    }
}

/// Bidirectional mapping between external document ids and the internal
/// `u32` ids assigned in order of first appearance.
struct DocIdMap {
    to_external: Vec<String>,
}

impl DocIdMap {
    /// The external ids, indexed by internal id.
    closed spec fn view(&self) -> Seq<Seq<char>> {
        strings_view(self.to_external@)
    }

    fn new() -> (m: Self)
        ensures
            m.view() == Seq::<Seq<char>>::empty(),
    {
        let m = DocIdMap { to_external: Vec::new() };
        assert(m.view() =~= Seq::<Seq<char>>::empty());
        m
    }

    /// The internal id of `external`, assigning the next one when it is new.
    fn get_or_insert(&mut self, external: &str) -> (id: u32)
        requires
            no_repeats(old(self).view()),
        ensures
            final(self).view() == (if old(self).view().contains(external@) {
                old(self).view()
            } else {
                old(self).view().push(external@)
            }),
            no_repeats(final(self).view()),
            id == position_of(final(self).view(), external@) as u32,
            id as int <= position_of(final(self).view(), external@),
            0 <= position_of(final(self).view(), external@) < final(self).view().len(),
            !old(self).view().contains(external@) ==> position_of(final(self).view(), external@)
                == old(self).view().len(),
    {
        let mut i: usize = 0;
        while i < self.to_external.len()
            invariant
                i <= self.to_external@.len(),
                no_repeats(self.view()),
                forall|j: int| 0 <= j < i ==> self.view()[j] != external@,
            decreases self.to_external@.len() - i,
        {
            if text_eq(self.to_external[i].as_str(), external) {
                proof {
                    assert(self.view()[i as int] == external@);
                    lemma_position_of(self.view(), i as int);
                }
                #[verifier::truncate]
                let id = i as u32;
                assert(id as usize <= i) by (bit_vector)
                    requires
                        id == i as u32,
                ;
                return id;
            }
            i = i + 1;
        }
        let ghost before = self.view();
        assert(!before.contains(external@));
        let id_len = self.to_external.len();
        self.to_external.push(external.to_owned());
        proof {
            assert(self.view() =~= before.push(external@));
            assert forall|a: int, b: int| 0 <= a < b < self.view().len() implies self.view()[a]
                != self.view()[b] by {
                if b == before.len() {
                    assert(before.contains(before[a]));
                } else {
                    assert(self.view()[a] == before[a]);
                    assert(self.view()[b] == before[b]);
                }
            }
            lemma_position_of(self.view(), id_len as int);
        }
        #[verifier::truncate]
        let id = id_len as u32;
        assert(id as usize <= id_len) by (bit_vector)
            requires
                id == id_len as u32,
        ;
        id
    }

    /// The external id with internal id `id`.
    fn to_external(&self, id: u32) -> (r: &str)
        requires
            (id as int) < self.view().len(),
        ensures
            r@ == self.view()[id as int],
    {
        self.to_external[id as usize].as_str()
    }
}

/// The distinct tokens of a document in order of first appearance, each with
/// its number of occurrences, counted in a wrapping `u32`.
fn count_terms(tokens: &Vec<String>) -> (r: Vec<(String, u32)>)
    ensures
        strings_view(r@.map_values(|e: (String, u32)| e.0)) == first_occurrences(strings_view(tokens@)),
        forall|q: int|
            0 <= q < r@.len() ==> #[trigger] r@[q].1 == wrapped_u32(
                count_of(strings_view(tokens@), r@[q].0@),
            ),
{
    let ghost toks = strings_view(tokens@);
    let mut r: Vec<(String, u32)> = Vec::new();
    let mut i: usize = 0;
    assert(toks.take(0) =~= Seq::<Seq<char>>::empty());
    while i < tokens.len()
        invariant
            i <= tokens@.len(),
            toks == strings_view(tokens@),
            strings_view(r@.map_values(|e: (String, u32)| e.0)) == first_occurrences(
                toks.take(i as int),
            ),
            forall|q: int|
                0 <= q < r@.len() ==> #[trigger] r@[q].1 == wrapped_u32(
                    count_of(toks.take(i as int), r@[q].0@),
                ),
        decreases tokens@.len() - i,
    {
        let ghost prefix = toks.take(i as int);
        let ghost next = toks.take(i + 1);
        assert(next.drop_last() =~= prefix);
        assert(next.last() == tokens@[i as int]@);
        let ghost keys = strings_view(r@.map_values(|e: (String, u32)| e.0));
        proof {
            lemma_first_occurrences(prefix);
        }
        let search = find_term(&r, tokens[i].as_str());
        if let Some(q) = search {
            assert(keys[q as int] == r@[q as int].0@);
            let ghost old_r = r@;
            let c = r[q].1.wrapping_add(1);
            r[q].1 = c;
            proof {
                assert(keys[q as int] == tokens@[i as int]@);
                assert(keys.contains(next.last()));
                assert(strings_view(r@.map_values(|e: (String, u32)| e.0)) =~= keys);
                assert forall|p: int| 0 <= p < r@.len() implies #[trigger] r@[p].1 == wrapped_u32(
                    count_of(next, r@[p].0@),
                ) by {
                    let n0 = count_of(prefix, r@[p].0@);
                    if p == q {
                        assert(old_r[p].1 == wrapped_u32(n0));
                        assert(r@[p].0@ == next.last());
                        lemma_wrapped_succ(n0);
                    } else {
                        assert(old_r[p] == r@[p]);
                        assert(keys[p] == r@[p].0@);
                        assert(keys[p] != keys[q as int]) by {
                            lemma_first_occurrences(prefix);
                            if p < q {
                            } else {
                            }
                        }
                    }
                }
            }
        } else {
            let ghost old_r = r@;
            proof {
                assert(!keys.contains(next.last())) by {
                    if keys.contains(next.last()) {
                        let p = choose|p: int| 0 <= p < keys.len() && keys[p] == next.last();
                        assert(keys[p] == r@[p].0@);
                    }
                }
                assert(!prefix.contains(next.last()));
            }
            let t = tokens[i].clone();
            r.push((t, 1));
            proof {
                assert(strings_view(r@.map_values(|e: (String, u32)| e.0)) =~= keys.push(next.last()));
                assert forall|p: int| 0 <= p < r@.len() implies #[trigger] r@[p].1 == wrapped_u32(
                    count_of(next, r@[p].0@),
                ) by {
                    if p == old_r.len() {
                        lemma_count_absent(prefix, next.last());
                        assert(count_of(next, next.last()) == 1);
                    } else {
                        assert(old_r[p] == r@[p]);
                        assert(keys[p] == r@[p].0@);
                        assert(keys[p] != next.last());
                    }
                }
            }
        }
        i = i + 1;
    }
    assert(toks.take(i as int) =~= toks);
    r
}

/// The entry of `r` whose text is `t`.
fn find_term(r: &Vec<(String, u32)>, t: &str) -> (found: Option<usize>)
    ensures
        match found {
            Some(q) => q < r@.len() && r@[q as int].0@ == t@,
            None => forall|p: int| 0 <= p < r@.len() ==> r@[p].0@ != t@,
        },
{
    let mut q: usize = 0;
    while q < r.len()
        invariant
            q <= r@.len(),
            forall|p: int| 0 <= p < q ==> r@[p].0@ != t@,
        decreases r@.len() - q,
    {
        if text_eq(r[q].0.as_str(), t) {
            return Some(q);
        }
        q = q + 1;
    }
    None
}

/// A count that does not occur is zero.
proof fn lemma_count_absent(s: Seq<Seq<char>>, t: Seq<char>)
    requires
        !s.contains(t),
    ensures
        count_of(s, t) == 0,
    decreases s.len(),
{
    if s.len() > 0 {
        assert(s[s.len() - 1] == s.last());
        assert forall|x: Seq<char>| s.drop_last().contains(x) implies s.contains(x) by {
            let i = choose|i: int| 0 <= i < s.drop_last().len() && s.drop_last()[i] == x;
            assert(s[i] == x);
        }
        lemma_count_absent(s.drop_last(), t);
    }
}

/// Incrementing a wrapping counter.
proof fn lemma_wrapped_succ(n: nat)
    ensures
        vstd::wrapping::u32_specs::wrapping_add(wrapped_u32(n), 1) == wrapped_u32(n + 1),
{
    let w = n % 0x1_0000_0000;
    assert(0 <= w < 0x1_0000_0000);
    if w == 0xffff_ffff {
        assert((n + 1) % 0x1_0000_0000 == 0) by (nonlinear_arith)
            requires
                n % 0x1_0000_0000 == 0xffff_ffff,
        ;
    } else {
        assert((n + 1) % 0x1_0000_0000 == w + 1) by (nonlinear_arith)
            requires
                w == n % 0x1_0000_0000,
                w < 0xffff_ffff,
        ;
    }
}

/// The (id, text) views of the documents.
pub open spec fn docs_view(docs: Seq<(String, String)>) -> Seq<(Seq<char>, Seq<char>)> {
    docs.map_values(|d: (String, String)| (d.0@, d.1@))
}

/// The ids of the documents, in order.
pub open spec fn doc_ids(docs: Seq<(Seq<char>, Seq<char>)>) -> Seq<Seq<char>> {
    docs.map_values(|d: (Seq<char>, Seq<char>)| d.0)
}

/// The internal id of document `j`: the position of its id among the
/// distinct ids of the documents up to it, as a `u32`.
pub open spec fn internal_id(docs: Seq<(Seq<char>, Seq<char>)>, j: int) -> u32 {
    position_of(first_occurrences(doc_ids(docs).take(j + 1)), docs[j].0) as u32
}

/// The tokens of document `j`.
pub open spec fn doc_tokens(docs: Seq<(Seq<char>, Seq<char>)>, j: int) -> Seq<Seq<char>> {
    tokens_of(docs[j].1)
}

/// The postings of term `t` in document order: one (internal id, wrapped
/// term frequency) pair for each document whose tokens contain `t`.
pub open spec fn doc_order_postings(docs: Seq<(Seq<char>, Seq<char>)>, t: Seq<char>) -> Seq<(u32, u32)>
    decreases docs.len(),
{
    if docs.len() == 0 {
        Seq::<(u32, u32)>::empty()
    } else {
        let j = docs.len() - 1;
        let prev = doc_order_postings(docs.drop_last(), t);
        if doc_tokens(docs, j).contains(t) {
            prev.push((internal_id(docs, j), wrapped_u32(count_of(doc_tokens(docs, j), t))))
        } else {
            prev
        }
    }
}

/// Some document has `t` among its tokens.
pub open spec fn in_vocabulary(docs: Seq<(Seq<char>, Seq<char>)>, t: Seq<char>) -> bool {
    exists|j: int| 0 <= j < docs.len() && #[trigger] doc_tokens(docs, j).contains(t)
}

/// The token count of each internal id after the first `k` documents: each
/// document writes its count at its internal id, later documents winning.
pub open spec fn length_table(docs: Seq<(Seq<char>, Seq<char>)>, k: int, n: nat) -> Seq<usize>
    decreases k,
{
    if k <= 0 {
        Seq::new(n, |i: int| 0usize)
    } else {
        length_table(docs, k - 1, n).update(
            internal_id(docs, k - 1) as int,
            doc_tokens(docs, k - 1).len() as usize,
        )
    }
}

/// The number of tokens of all documents together.
pub open spec fn token_total(docs: Seq<(Seq<char>, Seq<char>)>) -> nat
    decreases docs.len(),
{
    if docs.len() == 0 {
        0
    } else {
        token_total(docs.drop_last()) + doc_tokens(docs, docs.len() - 1).len()
    }
}

/// The document ids of postings.
pub open spec fn doc_keys(inp: Seq<(u32, u32)>) -> Seq<u32> {
    inp.map_values(|e: (u32, u32)| e.0)
}

/// `out` is `inp` stably sorted by document id.
pub open spec fn stably_sorted_by_doc(out: Seq<(u32, u32)>, inp: Seq<(u32, u32)>) -> bool {
    exists|order: Seq<usize>|
        {
            &&& #[trigger] stable_sort_of_u32(doc_keys(inp), order)
            &&& out.len() == inp.len()
            &&& forall|p: int| 0 <= p < out.len() ==> #[trigger] out[p] == inp[order[p] as int]
        }
}

/// Terms strictly ascend in the byte order of their UTF-8 encodings.
pub open spec fn terms_ascending(ts: Seq<Seq<char>>) -> bool {
    forall|p: int, q: int|
        0 <= p < q < ts.len() ==> #[trigger] lex_lt(encode_utf8(ts[p]), encode_utf8(ts[q]))
}

/// Where `t` is, or would go, in ascending terms.
fn locate_term(terms: &Vec<String>, t: &str) -> (r: Result<usize, usize>)
    requires
        terms_ascending(strings_view(terms@)),
    ensures
        match r {
            Ok(i) => i < terms@.len() && terms@[i as int]@ == t@,
            Err(pos) => pos <= terms@.len() && (forall|p: int|
                0 <= p < pos ==> lex_lt(encode_utf8(terms@[p]@), encode_utf8(t@))) && (forall|p: int|
                pos <= p < terms@.len() ==> lex_lt(encode_utf8(t@), encode_utf8(terms@[p]@))),
        },
{
    let ghost tv = strings_view(terms@);
    let tb = t.as_bytes();
    let mut lo: usize = 0;
    let mut hi: usize = terms.len();
    while lo < hi
        invariant
            lo <= hi <= terms@.len(),
            tv == strings_view(terms@),
            terms_ascending(tv),
            tb@ == encode_utf8(t@),
            forall|p: int| 0 <= p < lo ==> lex_lt(encode_utf8(terms@[p]@), encode_utf8(t@)),
            forall|p: int| hi <= p < terms@.len() ==> lex_lt(encode_utf8(t@), encode_utf8(terms@[p]@)),
        decreases hi - lo,
    {
        let mid = lo + (hi - lo) / 2;
        let mb = terms[mid].as_str().as_bytes();
        if bytes_lt(mb, tb) {
            proof {
                assert forall|p: int| 0 <= p < mid + 1 implies lex_lt(
                    encode_utf8(terms@[p]@),
                    encode_utf8(t@),
                ) by {
                    if p < mid {
                        assert(tv[p] == terms@[p]@ && tv[mid as int] == terms@[mid as int]@);
                        lemma_lex_transitive(
                            encode_utf8(terms@[p]@),
                            encode_utf8(terms@[mid as int]@),
                            encode_utf8(t@),
                        );
                    }
                }
            }
            lo = mid + 1;
        } else if bytes_lt(tb, mb) {
            proof {
                assert forall|p: int| mid <= p < terms@.len() implies lex_lt(
                    encode_utf8(t@),
                    encode_utf8(terms@[p]@),
                ) by {
                    if p > mid {
                        assert(tv[p] == terms@[p]@ && tv[mid as int] == terms@[mid as int]@);
                        lemma_lex_transitive(
                            encode_utf8(t@),
                            encode_utf8(terms@[mid as int]@),
                            encode_utf8(terms@[p]@),
                        );
                    }
                }
            }
            hi = mid;
        } else {
            proof {
                lemma_lex_total(mb@, tb@);
                assert(decode_utf8(encode_utf8(terms@[mid as int]@)) == terms@[mid as int]@);
                assert(decode_utf8(encode_utf8(t@)) == t@);
            }
            return Ok(mid);
        }
    }
    Err(lo)
}

/// With no document containing `t`, it has no postings.
proof fn lemma_postings_absent(docs: Seq<(Seq<char>, Seq<char>)>, t: Seq<char>)
    requires
        !in_vocabulary(docs, t),
    ensures
        doc_order_postings(docs, t) == Seq::<(u32, u32)>::empty(),
    decreases docs.len(),
{
    if docs.len() > 0 {
        let init = docs.drop_last();
        assert forall|j: int| 0 <= j < init.len() implies !#[trigger] doc_tokens(init, j).contains(t) by {
            assert(doc_tokens(init, j) == doc_tokens(docs, j));
        }
        assert(!doc_tokens(docs, docs.len() - 1).contains(t));
        lemma_postings_absent(init, t);
    }
}

/// The distinct elements of a sequence are no more than its elements.
proof fn lemma_first_occurrences_len(s: Seq<Seq<char>>)
    ensures
        first_occurrences(s).len() <= s.len(),
    decreases s.len(),
{
    if s.len() > 0 {
        lemma_first_occurrences_len(s.drop_last());
    }
}

/// The texts of (text, count) entries.
pub open spec fn entry_keys(dt: Seq<(String, u32)>) -> Seq<Seq<char>> {
    strings_view(dt.map_values(|e: (String, u32)| e.0))
}

/// The count that the entries give `t`.
pub open spec fn entry_count(dt: Seq<(String, u32)>, t: Seq<char>) -> u32 {
    dt[position_of(entry_keys(dt), t)].1
}

/// The posting a document adds to term `t`: one entry when the document
/// has `t` among the first `m` of its counted terms.
pub open spec fn added_posting(dt: Seq<(String, u32)>, m: int, id: u32, t: Seq<char>) -> Seq<(u32, u32)> {
    if entry_keys(dt).take(m).contains(t) {
        seq![(id, entry_count(dt, t))]
    } else {
        Seq::<(u32, u32)>::empty()
    }
}

/// Distinct ascending terms.
proof fn lemma_ascending_distinct(ts: Seq<Seq<char>>, p: int, q: int)
    requires
        terms_ascending(ts),
        0 <= p < ts.len(),
        0 <= q < ts.len(),
        p != q,
    ensures
        ts[p] != ts[q],
{
    if p < q {
        assert(lex_lt(encode_utf8(ts[p]), encode_utf8(ts[q])));
        lemma_lex_irreflexive(encode_utf8(ts[p]));
    } else {
        assert(lex_lt(encode_utf8(ts[q]), encode_utf8(ts[p])));
        lemma_lex_irreflexive(encode_utf8(ts[q]));
    }
}

/// Adds one document's counted terms to the dictionary: each term gains a
/// posting for document `id`, new terms entering at their sorted place.
fn add_document_terms(
    terms: &mut Vec<String>,
    postings: &mut Vec<Vec<Posting>>,
    dt: &Vec<(String, u32)>,
    id: u32,
    Ghost(base): Ghost<spec_fn(Seq<char>) -> Seq<(u32, u32)>>,
)
    requires
        terms_ascending(strings_view(old(terms)@)),
        old(postings)@.len() == old(terms)@.len(),
        no_repeats(entry_keys(dt@)),
        forall|p: int|
            0 <= p < old(terms)@.len() ==> #[trigger] postings_view(old(postings)@[p]@) == base(
                old(terms)@[p]@,
            ),
        forall|t: Seq<char>|
            !strings_view(old(terms)@).contains(t) ==> #[trigger] base(t) == Seq::<(u32, u32)>::empty(),
    ensures
        terms_ascending(strings_view(final(terms)@)),
        final(postings)@.len() == final(terms)@.len(),
        forall|t: Seq<char>|
            #[trigger] strings_view(final(terms)@).contains(t) <==> strings_view(old(terms)@).contains(t)
                || entry_keys(dt@).contains(t),
        forall|p: int|
            0 <= p < final(terms)@.len() ==> #[trigger] postings_view(final(postings)@[p]@) == base(
                final(terms)@[p]@,
            ) + added_posting(dt@, dt@.len() as int, id, final(terms)@[p]@),
{
    let ghost t0 = strings_view(terms@);
    let ghost keys = entry_keys(dt@);
    let mut m: usize = 0;
    proof {
        assert forall|p: int| 0 <= p < terms@.len() implies #[trigger] postings_view(postings@[p]@)
            == base(terms@[p]@) + added_posting(dt@, 0, id, terms@[p]@) by {
            assert(keys.take(0) =~= Seq::<Seq<char>>::empty());
            assert(base(terms@[p]@) + Seq::<(u32, u32)>::empty() =~= base(terms@[p]@));
        }
        assert forall|t: Seq<char>| #[trigger] strings_view(terms@).contains(t) <==> t0.contains(t)
            || keys.take(0).contains(t) by {
            assert(keys.take(0) =~= Seq::<Seq<char>>::empty());
        }
    }
    while m < dt.len()
        invariant
            m <= dt@.len(),
            keys == entry_keys(dt@),
            no_repeats(keys),
            terms_ascending(strings_view(terms@)),
            postings@.len() == terms@.len(),
            forall|t: Seq<char>|
                #[trigger] strings_view(terms@).contains(t) <==> t0.contains(t) || keys.take(
                    m as int,
                ).contains(t),
            forall|p: int|
                0 <= p < terms@.len() ==> #[trigger] postings_view(postings@[p]@) == base(
                    terms@[p]@,
                ) + added_posting(dt@, m as int, id, terms@[p]@),
            forall|t: Seq<char>| !t0.contains(t) ==> #[trigger] base(t) == Seq::<(u32, u32)>::empty(),
        decreases dt@.len() - m,
    {
        let ghost tv = strings_view(terms@);
        let ghost old_terms = terms@;
        let ghost old_postings = postings@;
        let ghost t = dt@[m as int].0@;
        assert(keys[m as int] == t);
        proof {
            lemma_position_of(keys, m as int);
            assert(!keys.take(m as int).contains(t)) by {
                if keys.take(m as int).contains(t) {
                    let q = choose|q: int| 0 <= q < m && keys.take(m as int)[q] == t;
                    assert(keys[q] == keys[m as int]);
                }
            }
            let prev = keys.take(m as int);
            let next = keys.take(m + 1);
            assert(next =~= prev.push(t));
            assert forall|x: Seq<char>| #[trigger] next.contains(x) <==> prev.contains(x) || x == t by {
                if next.contains(x) {
                    let q = choose|q: int| 0 <= q < next.len() && next[q] == x;
                    if q < m {
                        assert(prev[q] == x);
                    }
                }
                if prev.contains(x) {
                    let q = choose|q: int| 0 <= q < prev.len() && prev[q] == x;
                    assert(next[q] == x);
                }
                if x == t {
                    assert(next[m as int] == x);
                }
            }
        }
        let posting = Posting { doc_id: id, tf: dt[m].1 };
        assert(entry_count(dt@, t) == dt@[m as int].1);
        match locate_term(terms, dt[m].0.as_str()) {
            Ok(i) => {
                postings[i].push(posting);
                proof {
                    assert forall|p: int| 0 <= p < terms@.len() implies #[trigger] postings_view(
                        postings@[p]@,
                    ) == base(terms@[p]@) + added_posting(dt@, m + 1, id, terms@[p]@) by {
                        if p == i {
                            assert(postings_view(postings@[p]@) =~= postings_view(
                                old_postings[p]@,
                            ).push((id, entry_count(dt@, t))));
                        } else {
                            assert(postings@[p] == old_postings[p]);
                            lemma_ascending_distinct(tv, p, i as int);
                            assert(tv[p] == terms@[p]@);
                        }
                    }
                    assert forall|x: Seq<char>| #[trigger] strings_view(terms@).contains(x) <==> t0.contains(x)
                        || keys.take(m + 1).contains(x) by {
                        if x == t {
                            assert(strings_view(terms@)[i as int] == t);
                        }
                    }
                }
            },
            Err(pos) => {
                let name = dt[m].0.clone();
                terms.insert(pos, name);
                let mut fresh: Vec<Posting> = Vec::new();
                fresh.push(posting);
                postings.insert(pos, fresh);
                proof {
                    assert(!tv.contains(t)) by {
                        if tv.contains(t) {
                            let q = choose|q: int| 0 <= q < tv.len() && tv[q] == t;
                            assert(tv[q] == old_terms[q]@);
                            if q < pos {
                                lemma_lex_irreflexive(encode_utf8(t));
                            } else {
                                lemma_lex_irreflexive(encode_utf8(t));
                            }
                        }
                    }
                    assert(!t0.contains(t));
                    let nv = strings_view(terms@);
                    assert(nv =~= tv.insert(pos as int, t));
                    assert forall|p: int, q: int| 0 <= p < q < nv.len() implies #[trigger] lex_lt(
                        encode_utf8(nv[p]),
                        encode_utf8(nv[q]),
                    ) by {
                        if p < pos && q == pos {
                            assert(nv[p] == old_terms[p]@);
                        } else if p == pos && q > pos {
                            assert(nv[q] == old_terms[q - 1]@);
                        } else if p < pos && q > pos {
                            assert(nv[p] == old_terms[p]@);
                            assert(nv[q] == old_terms[q - 1]@);
                            lemma_lex_transitive(
                                encode_utf8(nv[p]),
                                encode_utf8(t),
                                encode_utf8(nv[q]),
                            );
                        } else if p > pos {
                            assert(nv[p] == tv[p - 1] && nv[q] == tv[q - 1]);
                        } else {
                            assert(nv[p] == tv[p] && nv[q] == tv[q]);
                        }
                    }
                    assert forall|x: Seq<char>| #[trigger] nv.contains(x) <==> t0.contains(x)
                        || keys.take(m + 1).contains(x) by {
                        if nv.contains(x) {
                            let q = choose|q: int| 0 <= q < nv.len() && nv[q] == x;
                            if q < pos {
                                assert(tv[q] == x);
                            } else if q > pos {
                                assert(tv[q - 1] == x);
                            }
                        }
                        if tv.contains(x) {
                            let q = choose|q: int| 0 <= q < tv.len() && tv[q] == x;
                            if q < pos {
                                assert(nv[q] == x);
                            } else {
                                assert(nv[q + 1] == x);
                            }
                        }
                        if x == t {
                            assert(nv[pos as int] == x);
                        }
                    }
                    assert forall|p: int| 0 <= p < terms@.len() implies #[trigger] postings_view(
                        postings@[p]@,
                    ) == base(terms@[p]@) + added_posting(dt@, m + 1, id, terms@[p]@) by {
                        if p == pos {
                            assert(terms@[p]@ == t);
                            assert(base(t) == Seq::<(u32, u32)>::empty());
                            assert(postings_view(postings@[p]@) =~= seq![(id, entry_count(dt@, t))]);
                            assert(base(t) + seq![(id, entry_count(dt@, t))] =~= seq![
                                (id, entry_count(dt@, t)),
                            ]);
                        } else {
                            let op = if p < pos {
                                p
                            } else {
                                p - 1
                            };
                            assert(postings@[p] == old_postings[op]);
                            assert(terms@[p] == old_terms[op]);
                            assert(tv[op] == old_terms[op]@);
                            if old_terms[op]@ == t {
                                assert(tv.contains(t));
                            }
                        }
                    }
                }
            },
        }
        m = m + 1;
    }
    assert(keys.take(m as int) =~= keys);
}

/// The postings stably sorted by document id.
fn sort_postings(ps: &Vec<Posting>) -> (r: Vec<Posting>)
    ensures
        stably_sorted_by_doc(postings_view(r@), postings_view(ps@)),
{
    let ghost pv = postings_view(ps@);
    let mut keys: Vec<u32> = Vec::new();
    let mut i: usize = 0;
    while i < ps.len()
        invariant
            i <= ps@.len(),
            pv == postings_view(ps@),
            keys@.len() == i,
            forall|q: int| 0 <= q < i ==> #[trigger] keys@[q] == ps@[q].doc_id,
        decreases ps@.len() - i,
    {
        keys.push(ps[i].doc_id);
        i = i + 1;
    }
    let order = stable_sort_order_u32(&keys);
    assert(keys@ =~= doc_keys(pv));
    let mut r: Vec<Posting> = Vec::new();
    let mut q: usize = 0;
    while q < order.len()
        invariant
            q <= order@.len(),
            order@.len() == ps@.len(),
            pv == postings_view(ps@),
            stable_sort_of_u32(doc_keys(pv), order@),
            r@.len() == q,
            forall|p: int| 0 <= p < q ==> #[trigger] postings_view(r@)[p] == pv[order@[p] as int],
        decreases order@.len() - q,
    {
        let j = order[q];
        let ghost before = r@;
        r.push(Posting { doc_id: ps[j].doc_id, tf: ps[j].tf });
        assert(postings_view(r@) =~= postings_view(before).push(pv[j as int]));
        q = q + 1;
    }
    assert(stable_sort_of_u32(doc_keys(pv), order@));
    r
}

/// One step of the document loop: how the postings of a term grow.
proof fn lemma_postings_step(dv: Seq<(Seq<char>, Seq<char>)>, k: int, t: Seq<char>)
    requires
        0 <= k < dv.len(),
    ensures
        doc_order_postings(dv.take(k + 1), t) == doc_order_postings(dv.take(k), t) + (if tokens_of(
            dv[k].1,
        ).contains(t) {
            seq![(internal_id(dv, k), wrapped_u32(count_of(tokens_of(dv[k].1), t)))]
        } else {
            Seq::<(u32, u32)>::empty()
        }),
        in_vocabulary(dv.take(k + 1), t) <==> in_vocabulary(dv.take(k), t) || tokens_of(
            dv[k].1,
        ).contains(t),
        token_total(dv.take(k + 1)) == token_total(dv.take(k)) + tokens_of(dv[k].1).len(),
{
    let next = dv.take(k + 1);
    let prev = dv.take(k);
    assert(next.drop_last() =~= prev);
    assert(doc_ids(next).take(k + 1) =~= doc_ids(dv).take(k + 1));
    assert(next[k] == dv[k]);
    assert(internal_id(next, k) == internal_id(dv, k));
    assert(doc_tokens(next, k) == tokens_of(dv[k].1));
    if tokens_of(dv[k].1).contains(t) {
        assert(doc_order_postings(prev, t) + seq![
            (internal_id(dv, k), wrapped_u32(count_of(tokens_of(dv[k].1), t))),
        ] =~= doc_order_postings(prev, t).push(
            (internal_id(dv, k), wrapped_u32(count_of(tokens_of(dv[k].1), t))),
        ));
    } else {
        assert(doc_order_postings(prev, t) + Seq::<(u32, u32)>::empty() =~= doc_order_postings(
            prev,
            t,
        ));
    }
    if in_vocabulary(next, t) {
        let j = choose|j: int| 0 <= j < next.len() && #[trigger] doc_tokens(next, j).contains(t);
        if j < k {
            assert(doc_tokens(prev, j) == doc_tokens(next, j));
        }
    }
    if in_vocabulary(prev, t) {
        let j = choose|j: int| 0 <= j < prev.len() && #[trigger] doc_tokens(prev, j).contains(t);
        assert(doc_tokens(prev, j) == doc_tokens(next, j));
    }
    if tokens_of(dv[k].1).contains(t) {
        assert(doc_tokens(next, k).contains(t));
    }
}

/// The list of a document's posting list.
struct PostingList {
    entries: Vec<Posting>,
}

/// The lexical part of the text index: the term dictionary as an FST from
/// each term's UTF-8 bytes to its position, the posting list of each term
/// sorted by internal document id, and the token count and text of each
/// document.
pub struct TextIndex {
    fst: Fst,
    posting_lists: Vec<PostingList>,
    term_strings: Vec<String>,
    doc_id_map: DocIdMap,
    doc_lengths: Vec<usize>,
    total_length: u128,
    doc_count: usize,
    doc_texts: Vec<String>,
}

impl TextIndex {
    /// The terms in ascending byte order.
    pub closed spec fn terms(&self) -> Seq<Seq<char>> {
        strings_view(self.term_strings@)
    }

    /// The (internal document id, term frequency) pairs of term `i`.
    pub closed spec fn postings(&self, i: int) -> Seq<(u32, u32)> {
        postings_view(self.posting_lists@[i].entries@)
    }

    /// The term dictionary: UTF-8 bytes of a term to its position.
    pub closed spec fn dictionary(&self) -> Map<Seq<u8>, u64> {
        self.fst@
    }

    /// The external document ids, indexed by internal id.
    pub closed spec fn external_ids(&self) -> Seq<Seq<char>> {
        self.doc_id_map.view()
    }

    /// The token count recorded for each internal id.
    pub closed spec fn lengths(&self) -> Seq<usize> {
        self.doc_lengths@
    }

    /// The number of tokens of all documents.
    pub closed spec fn total_tokens(&self) -> u128 {
        self.total_length
    }

    /// The document texts, in input order.
    pub closed spec fn texts(&self) -> Seq<Seq<char>> {
        strings_view(self.doc_texts@)
    }

    /// The number of documents indexed.
    pub closed spec fn num_docs(&self) -> usize {
        self.doc_count
    }

    /// The shape the index keeps: a well-formed FST mapping each term's
    /// bytes to its position and nothing else, one posting list per term,
    /// terms ascending, distinct external ids, and one length and one text
    /// per document.
    pub closed spec fn wf(&self) -> bool {
        &&& self.fst.wf()
        &&& terms_ascending(self.terms())
        &&& self.posting_lists@.len() == self.term_strings@.len()
        &&& forall|i: int|
            0 <= i < self.terms().len() ==> #[trigger] self.dictionary().contains_key(
                encode_utf8(self.terms()[i]),
            ) && self.dictionary()[encode_utf8(self.terms()[i])] == i
        &&& forall|k: Seq<u8>|
            #[trigger] self.dictionary().contains_key(k) ==> exists|i: int|
                0 <= i < self.terms().len() && encode_utf8(self.terms()[i]) == k
        &&& no_repeats(self.external_ids())
        &&& self.doc_lengths@.len() == self.doc_count
        &&& self.doc_texts@.len() == self.doc_count
    }

    /// Builds the index over (id, text) documents: documents get internal
    /// ids in order of first appearance of their id, each term of the
    /// tokenized texts gets a posting (internal id, occurrences) per document
    /// that contains it, sorted stably by internal id, and the terms are
    /// stored in ascending byte order in an FST.
    pub fn new(docs: Vec<(String, String)>) -> (index: Self)
        ensures
            index.wf(),
            index.num_docs() == docs@.len(),
            index.external_ids() == first_occurrences(doc_ids(docs_view(docs@))),
            index.texts() == docs_view(docs@).map_values(|d: (Seq<char>, Seq<char>)| d.1),
            index.lengths() == length_table(docs_view(docs@), docs@.len() as int, docs@.len()),
            index.total_tokens() == token_total(docs_view(docs@)),
            forall|t: Seq<char>|
                #[trigger] index.terms().contains(t) <==> in_vocabulary(docs_view(docs@), t),
            forall|i: int|
                0 <= i < index.terms().len() ==> stably_sorted_by_doc(
                    #[trigger] index.postings(i),
                    doc_order_postings(docs_view(docs@), index.terms()[i]),
                ),
    {
        let ghost dv = docs_view(docs@);
        let ghost ids = doc_ids(dv);
        let doc_count = docs.len();
        let mut doc_id_map = DocIdMap::new();
        let mut doc_lengths: Vec<usize> = Vec::new();
        let mut z: usize = 0;
        while z < doc_count
            invariant
                z <= doc_count,
                doc_lengths@ == Seq::new(z as nat, |i: int| 0usize),
            decreases doc_count - z,
        {
            doc_lengths.push(0);
            assert(doc_lengths@ =~= Seq::new((z + 1) as nat, |i: int| 0usize));
            z = z + 1;
        }
        let mut doc_texts: Vec<String> = Vec::new();
        let mut terms: Vec<String> = Vec::new();
        let mut postings: Vec<Vec<Posting>> = Vec::new();
        let mut total_length: u128 = 0;
        let mut k: usize = 0;
        proof {
            assert(ids.take(0) =~= Seq::<Seq<char>>::empty());
            assert(dv.take(0) =~= Seq::<(Seq<char>, Seq<char>)>::empty());
            assert(strings_view(doc_texts@) =~= dv.take(0).map_values(
                |d: (Seq<char>, Seq<char>)| d.1,
            ));
            assert forall|t: Seq<char>| #[trigger] strings_view(terms@).contains(t) <==> in_vocabulary(
                dv.take(0),
                t,
            ) by {}
        }
        while k < docs.len()
            invariant
                k <= docs@.len(),
                doc_count == docs@.len(),
                dv == docs_view(docs@),
                ids == doc_ids(dv),
                doc_id_map.view() == first_occurrences(ids.take(k as int)),
                no_repeats(doc_id_map.view()),
                doc_lengths@ == length_table(dv, k as int, doc_count as nat),
                doc_lengths@.len() == doc_count,
                total_length == token_total(dv.take(k as int)),
                total_length <= k * 0x1_0000_0000_0000_0000,
                strings_view(doc_texts@) == dv.take(k as int).map_values(
                    |d: (Seq<char>, Seq<char>)| d.1,
                ),
                terms_ascending(strings_view(terms@)),
                postings@.len() == terms@.len(),
                forall|t: Seq<char>|
                    #[trigger] strings_view(terms@).contains(t) <==> in_vocabulary(
                        dv.take(k as int),
                        t,
                    ),
                forall|p: int|
                    0 <= p < terms@.len() ==> #[trigger] postings_view(postings@[p]@)
                        == doc_order_postings(dv.take(k as int), terms@[p]@),
            decreases docs@.len() - k,
        {
            proof {
                lemma_first_occurrences(ids.take(k as int));
                assert(ids.take(k + 1).drop_last() =~= ids.take(k as int));
                assert(ids.take(k + 1).last() == docs@[k as int].0@);
            }
            let id = doc_id_map.get_or_insert(docs[k].0.as_str());
            proof {
                lemma_first_occurrences_len(ids.take(k + 1));
                assert(internal_id(dv, k as int) == id);
            }
            let tokens = tokenize(docs[k].1.as_str());
            let ghost old_lengths = doc_lengths@;
            doc_lengths[id as usize] = tokens.len();
            assert(doc_lengths@ == old_lengths.update(id as int, tokens@.len() as usize));
            assert(tokens.len() <= usize::MAX);
            total_length = total_length + tokens.len() as u128;
            let ghost old_texts = strings_view(doc_texts@);
            doc_texts.push(docs[k].1.clone());
            let dt = count_terms(&tokens);
            let ghost toks = strings_view(tokens@);
            proof {
                lemma_first_occurrences(toks);
                lemma_postings_step(dv, k as int, Seq::<char>::empty());
                assert forall|t: Seq<char>| !strings_view(terms@).contains(t) implies #[trigger] doc_order_postings(
                    dv.take(k as int),
                    t,
                ) == Seq::<(u32, u32)>::empty() by {
                    lemma_postings_absent(dv.take(k as int), t);
                }
                assert(entry_keys(dt@) == first_occurrences(toks));
                assert(dv.take(k + 1).map_values(|d: (Seq<char>, Seq<char>)| d.1) =~= old_texts.push(
                    docs@[k as int].1@,
                ));
            }
            let ghost base = |t: Seq<char>| doc_order_postings(dv.take(k as int), t);
            add_document_terms(&mut terms, &mut postings, &dt, id, Ghost(base));
            proof {
                assert forall|t: Seq<char>| #[trigger] strings_view(terms@).contains(t) <==> in_vocabulary(
                    dv.take(k + 1),
                    t,
                ) by {
                    lemma_postings_step(dv, k as int, t);
                }
                assert forall|p: int| 0 <= p < terms@.len() implies #[trigger] postings_view(
                    postings@[p]@,
                ) == doc_order_postings(dv.take(k + 1), terms@[p]@) by {
                    let t = terms@[p]@;
                    lemma_postings_step(dv, k as int, t);
                    let keys = entry_keys(dt@);
                    assert(keys.take(dt@.len() as int) =~= keys);
                    if keys.contains(t) {
                        let q = position_of(keys, t);
                        assert(keys[q] == t);
                        assert(dt@[q].0@ == keys[q]);
                        assert(dt@[q].1 == wrapped_u32(count_of(toks, dt@[q].0@)));
                    }
                }
                assert(strings_view(tokens@).len() == tokens@.len());
                assert(length_table(dv, k + 1, doc_count as nat) == length_table(
                    dv,
                    k as int,
                    doc_count as nat,
                ).update(internal_id(dv, k as int) as int, tokens@.len() as usize));
            }
            k = k + 1;
        }
        assert(dv.take(doc_count as int) =~= dv);
        assert(ids.take(doc_count as int) =~= ids);
        // Sort each posting list by document id
        let mut posting_lists: Vec<PostingList> = Vec::new();
        let mut p: usize = 0;
        while p < terms.len()
            invariant
                p <= terms@.len(),
                postings@.len() == terms@.len(),
                posting_lists@.len() == p,
                forall|q: int|
                    0 <= q < p ==> stably_sorted_by_doc(
                        #[trigger] postings_view(posting_lists@[q].entries@),
                        postings_view(postings@[q]@),
                    ),
            decreases terms@.len() - p,
        {
            let sorted = sort_postings(&postings[p]);
            posting_lists.push(PostingList { entries: sorted });
            p = p + 1;
        }
        // Build the term dictionary
        let mut builder = FstBuilder::new();
        let mut q: usize = 0;
        while q < terms.len()
            invariant
                q <= terms@.len(),
                builder@.len() == q,
                forall|r: int|
                    0 <= r < q ==> #[trigger] builder@[r] == (encode_utf8(terms@[r]@), r as u64),
            decreases terms@.len() - q,
        {
            builder.insert(terms[q].as_str().as_bytes(), q as u64);
            q = q + 1;
        }
        let ghost es = builder@;
        let fst = builder.build();
        assert(strings_view(doc_texts@).len() == doc_texts@.len());
        let index = TextIndex {
            fst,
            posting_lists,
            term_strings: terms,
            doc_id_map,
            doc_lengths,
            total_length,
            doc_count,
            doc_texts,
        };
        proof {
            let tv = index.terms();
            assert forall|i: int| 0 <= i < tv.len() implies #[trigger] index.dictionary().contains_key(
                encode_utf8(tv[i]),
            ) && index.dictionary()[encode_utf8(tv[i])] == i by {
                assert(es[i] == (encode_utf8(tv[i]), i as u64));
                assert forall|j: int| i < j < es.len() implies es[j].0 != encode_utf8(tv[i]) by {
                    assert(es[j] == (encode_utf8(tv[j]), j as u64));
                    assert(lex_lt(encode_utf8(tv[i]), encode_utf8(tv[j])));
                    lemma_lex_irreflexive(encode_utf8(tv[i]));
                }
                crate::fst::lemma_entries_map_value(es, encode_utf8(tv[i]), i);
            }
            assert forall|key: Seq<u8>| #[trigger] index.dictionary().contains_key(key) implies exists|i: int|
                0 <= i < tv.len() && encode_utf8(tv[i]) == key by {
                crate::fst::lemma_entries_map_dom(es, key);
                let i = choose|i: int| 0 <= i < es.len() && es[i].0 == key;
                assert(es[i] == (encode_utf8(tv[i]), i as u64));
            }
            assert forall|i: int| 0 <= i < tv.len() implies stably_sorted_by_doc(
                #[trigger] index.postings(i),
                doc_order_postings(dv, tv[i]),
            ) by {
                assert(postings_view(postings@[i]@) == doc_order_postings(dv, terms@[i]@));
            }
        }
        index
    }
}

/// Adds `x` to a strictly ascending list unless it is already there.
fn insert_sorted_unique(v: &mut Vec<usize>, x: usize)
    requires
        forall|p: int, q: int| 0 <= p < q < old(v)@.len() ==> old(v)@[p] < old(v)@[q],
    ensures
        forall|p: int, q: int| 0 <= p < q < final(v)@.len() ==> final(v)@[p] < final(v)@[q],
        forall|y: usize| #[trigger] final(v)@.contains(y) <==> old(v)@.contains(y) || y == x,
{
    let mut pos: usize = 0;
    while pos < v.len() && v[pos] < x
        invariant
            pos <= v@.len(),
            forall|p: int| 0 <= p < pos ==> v@[p] < x,
        decreases v@.len() - pos,
    {
        pos = pos + 1;
    }
    if pos < v.len() && v[pos] == x {
        assert(v@[pos as int] == x);
        return;
    }
    let ghost old_v = v@;
    v.insert(pos, x);
    proof {
        assert forall|p: int, q: int| 0 <= p < q < v@.len() implies v@[p] < v@[q] by {
            if p < pos && q == pos {
            } else if p == pos && q > pos {
                assert(old_v[q - 1] >= x);
            } else if p < pos && q > pos {
                assert(old_v[p] < old_v[q - 1]);
            } else if p > pos {
                assert(old_v[p - 1] < old_v[q - 1]);
            } else {
                assert(old_v[p] < old_v[q]);
            }
        }
        assert forall|y: usize| #[trigger] v@.contains(y) <==> old_v.contains(y) || y == x by {
            if v@.contains(y) {
                let i = choose|i: int| 0 <= i < v@.len() && v@[i] == y;
                if i < pos {
                    assert(old_v[i] == y);
                } else if i > pos {
                    assert(old_v[i - 1] == y);
                }
            }
            if old_v.contains(y) {
                let i = choose|i: int| 0 <= i < old_v.len() && old_v[i] == y;
                if i < pos {
                    assert(v@[i] == y);
                } else {
                    assert(v@[i + 1] == y);
                }
            }
            if y == x {
                assert(v@[pos as int] == y);
            }
        }
    }
}

impl TextIndex {
    /// Term `i` has a nonempty posting list.
    pub closed spec fn has_postings(&self, i: int) -> bool {
        0 <= i < self.posting_lists@.len() && self.posting_lists@[i].entries@.len() > 0
    }

    /// The dictionary positions that a query token selects: the position of
    /// the token itself when it is a term, otherwise the positions of all
    /// terms that start with it.
    pub open spec fn selects(&self, tok: Seq<char>, i: int) -> bool {
        let key = encode_utf8(tok);
        if self.dictionary().contains_key(key) {
            self.dictionary()[key] as usize == i
        } else {
            exists|k: Seq<u8>|
                #[trigger] self.dictionary().contains_key(k) && has_prefix(k, key)
                    && self.dictionary()[k] as usize == i
        }
    }

    /// How a token selects terms: a token that is itself a term selects that
    /// term and no other; a token that is not a term selects every term that
    /// starts with it, whatever the token's length, and no other.
    pub proof fn law_selects(&self, tok: Seq<char>, k: Seq<u8>, i: int)
        ensures
            self.dictionary().contains_key(encode_utf8(tok)) ==> (self.selects(tok, i) <==> i
                == self.dictionary()[encode_utf8(tok)] as usize),
            !self.dictionary().contains_key(encode_utf8(tok)) && self.dictionary().contains_key(k) && has_prefix(
                k,
                encode_utf8(tok),
            ) ==> self.selects(tok, self.dictionary()[k] as usize as int),
            !self.dictionary().contains_key(encode_utf8(tok)) && self.selects(tok, i) ==> exists|k2: Seq<u8>|
                #[trigger] self.dictionary().contains_key(k2) && has_prefix(k2, encode_utf8(tok))
                    && self.dictionary()[k2] as usize == i,
    {
    }

    /// Collect posting list indices for query tokens using FST exact and
    /// prefix lookup: the ascending, distinct positions with a nonempty
    /// posting list that some token selects.
    pub fn resolve_terms(&self, tokens: &Vec<String>) -> (indices: Vec<usize>)
        requires
            self.wf(),
        ensures
            forall|p: int, q: int| 0 <= p < q < indices@.len() ==> indices@[p] < indices@[q],
            forall|i: usize|
                #[trigger] indices@.contains(i) <==> self.has_postings(i as int) && exists|j: int|
                    0 <= j < tokens@.len() && self.selects(tokens@[j]@, i as int),
    {
        let mut indices: Vec<usize> = Vec::new();
        let mut j: usize = 0;
        while j < tokens.len()
            invariant
                self.wf(),
                j <= tokens@.len(),
                forall|p: int, q: int| 0 <= p < q < indices@.len() ==> indices@[p] < indices@[q],
                forall|i: usize|
                    #[trigger] indices@.contains(i) <==> self.has_postings(i as int) && exists|jj: int|
                        0 <= jj < j && self.selects(tokens@[jj]@, i as int),
            decreases tokens@.len() - j,
        {
            let key = tokens[j].as_str().as_bytes();
            let ghost tok = tokens@[j as int]@;
            let ghost before = indices@;
            assert(key@ == encode_utf8(tok));
            // Exact match
            match self.fst.get(key) {
                Some(idx) => {
                    #[verifier::truncate]
                    let i = idx as usize;
                    if i < self.posting_lists.len() && !self.posting_lists[i].entries.is_empty() {
                        insert_sorted_unique(&mut indices, i);
                    }
                    proof {
                        assert forall|x: usize| #[trigger] indices@.contains(x) <==> self.has_postings(
                            x as int,
                        ) && exists|jj: int| 0 <= jj < j + 1 && self.selects(tokens@[jj]@, x as int) by {
                            if self.selects(tok, x as int) {
                                assert(x == i);
                            }
                            if exists|jj: int| 0 <= jj < j + 1 && self.selects(tokens@[jj]@, x as int) {
                                let jj = choose|jj: int|
                                    0 <= jj < j + 1 && self.selects(tokens@[jj]@, x as int);
                                if jj < j {
                                    assert(exists|jk: int|
                                        0 <= jk < j && self.selects(tokens@[jk]@, x as int));
                                }
                            }
                            if x == i && self.has_postings(x as int) {
                                assert(self.selects(tokens@[j as int]@, x as int));
                            }
                        }
                    }
                },
                None => {
                    // Prefix expansion: find all terms starting with this token
                    let found = self.fst.prefix_search(key);
                    let ghost es = self.fst.entries_with_prefix(key@);
                    let ghost ds = crate::fst::decoded_pairs(es);
                    proof {
                        self.fst.lemma_prefix_entries(key@);
                    }
                    let ghost order = choose|order: Seq<usize>|
                        {
                            &&& stable_sort_of(crate::fst::decoded_sort_keys(ds), order)
                            &&& found@.len() == ds.len()
                            &&& forall|p: int|
                                0 <= p < found@.len() ==> (#[trigger] found@[p].0@, found@[p].1)
                                    == ds[order[p] as int]
                        };
                    assert(!self.dictionary().contains_key(key@));
                    assert forall|p: int| 0 <= p < es.len() implies #[trigger] ds[p].1 == es[p].1 by {}
                    let mut r: usize = 0;
                    while r < found.len()
                        invariant
                            self.wf(),
                            r <= found@.len(),
                            stable_sort_of(crate::fst::decoded_sort_keys(ds), order),
                            found@.len() == ds.len(),
                            ds.len() == es.len(),
                            forall|p: int|
                                0 <= p < found@.len() ==> (#[trigger] found@[p].0@, found@[p].1)
                                    == ds[order[p] as int],
                            forall|p: int| 0 <= p < es.len() ==> #[trigger] ds[p].1 == es[p].1,
                            forall|p: int, q: int|
                                0 <= p < q < indices@.len() ==> indices@[p] < indices@[q],
                            forall|x: usize|
                                #[trigger] indices@.contains(x) <==> before.contains(x) || (
                                self.has_postings(x as int) && exists|p: int|
                                    0 <= p < r && found@[p].1 as usize == x),
                        decreases found@.len() - r,
                    {
                        #[verifier::truncate]
                        let i = found[r].1 as usize;
                        if i < self.posting_lists.len() && !self.posting_lists[i].entries.is_empty() {
                            insert_sorted_unique(&mut indices, i);
                        }
                        proof {
                            assert forall|x: usize| #[trigger] indices@.contains(x) <==> before.contains(x)
                                || (self.has_postings(x as int) && exists|p: int|
                                0 <= p < r + 1 && found@[p].1 as usize == x) by {
                                if x == i && self.has_postings(x as int) {
                                    assert(found@[r as int].1 as usize == x);
                                }
                                if exists|p: int| 0 <= p < r + 1 && found@[p].1 as usize == x {
                                    let p = choose|p: int| 0 <= p < r + 1 && found@[p].1 as usize == x;
                                    if p < r {
                                        assert(exists|pp: int| 0 <= pp < r && found@[pp].1 as usize == x);
                                    }
                                }
                            }
                        }
                        r = r + 1;
                    }
                    proof {
                        assert forall|x: usize| #[trigger] indices@.contains(x) <==> self.has_postings(
                            x as int,
                        ) && exists|jj: int| 0 <= jj < j + 1 && self.selects(tokens@[jj]@, x as int) by {
                            // A value among the prefix results is selected by the token, and back.
                            if exists|p: int| 0 <= p < found@.len() && found@[p].1 as usize == x {
                                let p = choose|p: int| 0 <= p < found@.len() && found@[p].1 as usize == x;
                                assert((found@[p].0@, found@[p].1) == ds[order[p] as int]);
                                let e = es[order[p] as int];
                                assert(ds[order[p] as int].1 == e.1);
                                assert(order[p] < es.len());
                                assert(has_prefix(e.0, key@));
                                assert(self.fst@.contains_key(e.0) && self.fst@[e.0] == e.1);
                                assert(self.selects(tok, x as int));
                            }
                            if self.selects(tok, x as int) {
                                let k = choose|k: Seq<u8>|
                                    #[trigger] self.dictionary().contains_key(k) && has_prefix(k, key@)
                                        && self.dictionary()[k] as usize == x as int;
                                let q = choose|q: int| 0 <= q < es.len() && es[q] == (k, self.fst@[k]);
                                assert(occurs_in(order, q));
                                let p = choose|p: int| 0 <= p < order.len() && order[p] == q;
                                assert((found@[p].0@, found@[p].1) == ds[order[p] as int]);
                                assert(found@[p].1 == ds[q].1);
                                assert(found@[p].1 as usize == x);
                            }
                            if exists|jj: int| 0 <= jj < j + 1 && self.selects(tokens@[jj]@, x as int) {
                                let jj = choose|jj: int|
                                    0 <= jj < j + 1 && self.selects(tokens@[jj]@, x as int);
                                if jj < j {
                                    assert(exists|jk: int|
                                        0 <= jk < j && self.selects(tokens@[jk]@, x as int));
                                }
                            }
                        }
                    }
                },
            }
            j = j + 1;
        }
        indices
    }
}

/// The largest term frequency bounds every term frequency of the list and
/// is one of them (0 for an empty list).
pub proof fn law_max_tf(ps: Seq<(u32, u32)>)
    ensures
        forall|p: int| 0 <= p < ps.len() ==> #[trigger] ps[p].1 <= max_tf_of(ps),
        ps.len() == 0 ==> max_tf_of(ps) == 0,
        ps.len() > 0 ==> exists|p: int| 0 <= p < ps.len() && #[trigger] ps[p].1 == max_tf_of(ps),
    decreases ps.len(),
{
    if ps.len() > 0 {
        let init = ps.drop_last();
        law_max_tf(init);
        assert forall|p: int| 0 <= p < ps.len() implies #[trigger] ps[p].1 <= max_tf_of(ps) by {
            if p < init.len() {
                assert(init[p] == ps[p]);
            }
        }
        if ps.last().1 <= max_tf_of(init) && init.len() > 0 {
            let p = choose|p: int| 0 <= p < init.len() && #[trigger] init[p].1 == max_tf_of(init);
            assert(ps[p] == init[p]);
        } else {
            assert(ps[ps.len() - 1].1 == max_tf_of(ps));
        }
    }
}

/// The smallest positive length is absent exactly when every length is 0;
/// otherwise it is one of the positive lengths and at most each of them.
pub proof fn law_min_positive(ls: Seq<usize>)
    ensures
        min_positive(ls) is None <==> forall|i: int| 0 <= i < ls.len() ==> #[trigger] ls[i] == 0,
        min_positive(ls) matches Some(m) ==> m > 0 && (exists|i: int| 0 <= i < ls.len() && #[trigger] ls[i] == m)
            && forall|i: int| 0 <= i < ls.len() && #[trigger] ls[i] > 0 ==> m <= ls[i],
    decreases ls.len(),
{
    if ls.len() > 0 {
        let init = ls.drop_last();
        law_min_positive(init);
        let x = ls.last();
        assert forall|i: int| 0 <= i < init.len() implies init[i] == #[trigger] ls[i] by {}
        if min_positive(ls) is None {
            assert forall|i: int| 0 <= i < ls.len() implies #[trigger] ls[i] == 0 by {
                if i < init.len() {
                    assert(init[i] == ls[i]);
                }
            }
        } else {
            assert(!(forall|i: int| 0 <= i < ls.len() ==> #[trigger] ls[i] == 0)) by {
                if x != 0 {
                    assert(ls[ls.len() - 1] != 0);
                } else {
                    let i = choose|i: int| 0 <= i < init.len() && #[trigger] init[i] != 0;
                    assert(ls[i] == init[i]);
                }
            }
            let m = min_positive(ls)->0;
            if x != 0 && (min_positive(init) is None || x < min_positive(init)->0) {
                assert(ls[ls.len() - 1] == m);
            } else {
                let i = choose|i: int| 0 <= i < init.len() && #[trigger] init[i] == m;
                assert(ls[i] == m);
            }
            assert forall|i: int| 0 <= i < ls.len() && #[trigger] ls[i] > 0 implies m <= ls[i] by {
                if i < init.len() {
                    assert(init[i] == ls[i]);
                }
            }
        }
    }
}

/// The largest term frequency of a posting list, or 0 when it is empty.
pub open spec fn max_tf_of(ps: Seq<(u32, u32)>) -> u32
    decreases ps.len(),
{
    if ps.len() == 0 {
        0
    } else {
        let m = max_tf_of(ps.drop_last());
        if ps.last().1 > m {
            ps.last().1
        } else {
            m
        }
    }
}

/// The smallest positive length, if any length is positive.
pub open spec fn min_positive(ls: Seq<usize>) -> Option<usize>
    decreases ls.len(),
{
    if ls.len() == 0 {
        None
    } else {
        let m = min_positive(ls.drop_last());
        let x = ls.last();
        if x == 0 {
            m
        } else {
            match m {
                Some(y) => if x < y {
                    Some(x)
                } else {
                    Some(y)
                },
                None => Some(x),
            }
        }
    }
}

impl TextIndex {
    /// The terms a query text searches for: the ascending, distinct
    /// positions with a nonempty posting list that one of the query's
    /// tokens selects.
    pub fn query_terms(&self, query_text: &str) -> (indices: Vec<usize>)
        requires
            self.wf(),
        ensures
            forall|p: int, q: int| 0 <= p < q < indices@.len() ==> indices@[p] < indices@[q],
            forall|i: usize|
                #[trigger] indices@.contains(i) <==> self.has_postings(i as int) && exists|j: int|
                    0 <= j < tokens_of(query_text@).len() && self.selects(tokens_of(query_text@)[j], i as int),
    {
        let tokens = tokenize(query_text);
        let indices = self.resolve_terms(&tokens);
        proof {
            assert forall|j: int| 0 <= j < tokens@.len() implies #[trigger] tokens@[j]@ == tokens_of(query_text@)[j] by {
                assert(strings_view(tokens@)[j] == tokens@[j]@);
            }
        }
        indices
    }

    /// The number of documents indexed.
    pub fn doc_count(&self) -> (n: usize)
        ensures
            n == self.num_docs(),
    {
        self.doc_count
    }

    /// The number of distinct terms.
    pub fn term_count(&self) -> (n: usize)
        ensures
            n == self.terms().len(),
    {
        self.term_strings.len()
    }

    /// The posting list of term `i`, sorted by internal document id.
    pub fn term_postings(&self, i: usize) -> (ps: &Vec<Posting>)
        requires
            self.wf(),
            i < self.terms().len(),
        ensures
            postings_view(ps@) == self.postings(i as int),
    {
        &self.posting_lists[i].entries
    }

    /// The token count recorded for internal id `id`.
    pub fn doc_length(&self, id: usize) -> (n: usize)
        requires
            self.wf(),
            id < self.num_docs(),
        ensures
            n == self.lengths()[id as int],
    {
        self.doc_lengths[id]
    }

    /// The recorded token counts, indexed by internal id.
    pub fn doc_lengths(&self) -> (ls: &Vec<usize>)
        ensures
            ls@ == self.lengths(),
    {
        &self.doc_lengths
    }

    /// The number of tokens of all documents.
    pub fn total_length(&self) -> (n: u128)
        ensures
            n == self.total_tokens(),
    {
        self.total_length
    }

    /// The number of distinct external ids.
    pub fn id_count(&self) -> (n: usize)
        ensures
            n == self.external_ids().len(),
    {
        self.doc_id_map.to_external.len()
    }

    /// The external id of internal id `id`.
    pub fn external_id(&self, id: u32) -> (r: &str)
        requires
            (id as int) < self.external_ids().len(),
        ensures
            r@ == self.external_ids()[id as int],
    {
        self.doc_id_map.to_external(id)
    }

    /// The text of the `i`-th document.
    pub fn doc_text(&self, i: usize) -> (r: &str)
        requires
            self.wf(),
            i < self.num_docs(),
        ensures
            r@ == self.texts()[i as int],
    {
        self.doc_texts[i].as_str()
    }

    /// The largest term frequency in the posting list of term `i`.
    pub fn max_tf(&self, i: usize) -> (m: u32)
        requires
            self.wf(),
            i < self.terms().len(),
        ensures
            m == max_tf_of(self.postings(i as int)),
            forall|p: int| 0 <= p < self.postings(i as int).len() ==> #[trigger] self.postings(i as int)[p].1 <= m,
            self.postings(i as int).len() > 0 ==> exists|p: int|
                0 <= p < self.postings(i as int).len() && #[trigger] self.postings(i as int)[p].1 == m,
    {
        proof {
            law_max_tf(self.postings(i as int));
        }
        let ps = &self.posting_lists[i].entries;
        let ghost pv = postings_view(ps@);
        let mut m: u32 = 0;
        let mut q: usize = 0;
        assert(pv.take(0) =~= Seq::<(u32, u32)>::empty());
        while q < ps.len()
            invariant
                q <= ps@.len(),
                pv == postings_view(ps@),
                m == max_tf_of(pv.take(q as int)),
            decreases ps@.len() - q,
        {
            assert(pv.take(q + 1).drop_last() =~= pv.take(q as int));
            if ps[q].tf > m {
                m = ps[q].tf;
            }
            q = q + 1;
        }
        assert(pv.take(q as int) =~= pv);
        m
    }

    /// The smallest positive recorded token count, if there is one.
    pub fn min_positive_length(&self) -> (m: Option<usize>)
        ensures
            m == min_positive(self.lengths()),
            m is None <==> forall|i: int| 0 <= i < self.lengths().len() ==> #[trigger] self.lengths()[i] == 0,
            m matches Some(v) ==> v > 0 && (exists|i: int| 0 <= i < self.lengths().len() && #[trigger] self.lengths()[i]
                == v) && forall|i: int| 0 <= i < self.lengths().len() && #[trigger] self.lengths()[i] > 0 ==> v
                <= self.lengths()[i],
    {
        proof {
            law_min_positive(self.lengths());
        }
        let ls = &self.doc_lengths;
        let mut m: Option<usize> = None;
        let mut q: usize = 0;
        assert(ls@.take(0) =~= Seq::<usize>::empty());
        while q < ls.len()
            invariant
                q <= ls@.len(),
                m == min_positive(ls@.take(q as int)),
            decreases ls@.len() - q,
        {
            assert(ls@.take(q + 1).drop_last() =~= ls@.take(q as int));
            let x = ls[q];
            if x != 0 {
                m = match m {
                    Some(y) => if x < y {
                        Some(x)
                    } else {
                        Some(y)
                    },
                    None => Some(x),
                };
            }
            q = q + 1;
        }
        assert(ls@.take(q as int) =~= ls@);
        m
    }
}

} // verus!
