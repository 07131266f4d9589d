//! Postings of the inverted index and the cursor movement of a WAND
//! traversal.

use vstd::prelude::*;
use crate::grouping::{grouped, group_add, distinct_keys, lemma_grouped_push};
use crate::stable_sort::{stable_sort_of_u32, stable_sort_order_u32};

verus! {

/// One document's entry in a term's posting list: its internal id and the
/// number of times the term occurs in it.
#[derive(Clone)]
pub struct Posting {
    pub doc_id: u32,
    pub tf: u32,
}

/// The (doc_id, tf) pairs of a posting list.
pub open spec fn postings_view(ps: Seq<Posting>) -> Seq<(u32, u32)> {
    ps.map_values(|p: Posting| (p.doc_id, p.tf))
}

/// A position in one term's posting list.
#[derive(Clone, Copy)]
pub struct PostingCursor<'a> {
    term_idx: usize,
    posting_list: &'a [Posting],
    current_pos: usize,
}

/// The first position at or after `pos` whose document is at least
/// `target`, or the end of the list.
pub open spec fn skip_to(ps: Seq<(u32, u32)>, pos: int, target: u32) -> int
    decreases ps.len() - pos,
{
    if pos >= ps.len() || ps[pos].0 >= target {
        pos
    } else {
        skip_to(ps, pos + 1, target)
    }
}

impl<'a> PostingCursor<'a> {
    /// The (doc_id, tf) pairs of the cursor's posting list.
    pub closed spec fn postings(&self) -> Seq<(u32, u32)> {
        postings_view(self.posting_list@)
    }

    /// The index of the cursor's term among the query's terms.
    pub closed spec fn term(&self) -> usize {
        self.term_idx
    }

    /// The cursor's position in its list.
    pub closed spec fn pos(&self) -> int {
        self.current_pos as int
    }

    /// The position is within the list or just past its end.
    pub open spec fn wf(&self) -> bool {
        0 <= self.pos() <= self.postings().len()
    }

    /// The cursor is past the end of its list.
    pub open spec fn exhausted(&self) -> bool {
        self.pos() >= self.postings().len()
    }

    /// The document under the cursor.
    pub open spec fn current(&self) -> u32 {
        self.postings()[self.pos()].0
    }

    /// A cursor at the start of `posting_list`.
    pub fn new(term_idx: usize, posting_list: &'a [Posting]) -> (c: Self)
        ensures
            c.wf(),
            c.term() == term_idx,
            c.postings() == postings_view(posting_list@),
            c.pos() == 0,
    {
        PostingCursor { term_idx, posting_list, current_pos: 0 }
    }

    /// The document under the cursor.
    pub fn current_doc_id(&self) -> (d: u32)
        requires
            self.wf(),
            !self.exhausted(),
        ensures
            d == self.current(),
    {
        self.posting_list[self.current_pos].doc_id
    }

    /// The term frequency under the cursor.
    pub fn current_tf(&self) -> (tf: u32)
        requires
            self.wf(),
            !self.exhausted(),
        ensures
            tf == self.postings()[self.pos()].1,
    {
        self.posting_list[self.current_pos].tf
    }

    /// The index of the cursor's term among the query's terms.
    pub fn term_index(&self) -> (t: usize)
        ensures
            t == self.term(),
    {
        self.term_idx
    }

    /// The length of the cursor's posting list: the term's document
    /// frequency.
    pub fn list_len(&self) -> (n: usize)
        ensures
            n == self.postings().len(),
    {
        self.posting_list.len()
    }

    /// Moves forward to the first posting whose document is at least
    /// `target_doc_id`, or to the end.
    pub fn advance_to(&mut self, target_doc_id: u32)
        requires
            old(self).wf(),
        ensures
            final(self).wf(),
            final(self).term() == old(self).term(),
            final(self).postings() == old(self).postings(),
            final(self).pos() == skip_to(old(self).postings(), old(self).pos(), target_doc_id),
    {
        let ghost ps = self.postings();
        let ghost start = self.pos();
        while self.current_pos < self.posting_list.len()
            && self.posting_list[self.current_pos].doc_id < target_doc_id
            invariant
                ps == self.postings(),
                self.wf(),
                self.term() == old(self).term(),
                skip_to(ps, start, target_doc_id) == skip_to(ps, self.pos(), target_doc_id),
            decreases self.posting_list@.len() - self.current_pos,
        {
            assert(ps[self.pos()].0 == self.posting_list@[self.pos()].doc_id);
            self.current_pos = self.current_pos + 1;
        }
        proof {
            if self.pos() < ps.len() {
                assert(ps[self.pos()].0 == self.posting_list@[self.pos()].doc_id);
            }
        }
    }

    /// Moves one posting forward.
    pub fn advance(&mut self)
        requires
            old(self).wf(),
            !old(self).exhausted(),
        ensures
            final(self).wf(),
            final(self).term() == old(self).term(),
            final(self).postings() == old(self).postings(),
            final(self).pos() == old(self).pos() + 1,
    {
        let n = self.posting_list.len();
        assert(self.postings().len() == n);
        self.current_pos = self.current_pos + 1;
    }

    /// Whether the cursor is past the end of its list.
    pub fn is_exhausted(&self) -> (r: bool)
        ensures
            r == self.exhausted(),
    {
        self.current_pos >= self.posting_list.len()
    }
}

/// Every cursor is well formed.
pub open spec fn all_wf(cs: Seq<PostingCursor<'_>>) -> bool {
    forall|i: int| 0 <= i < cs.len() ==> #[trigger] cs[i].wf()
}

/// The cursors that are not exhausted, in order.
pub open spec fn live<'a>(cs: Seq<PostingCursor<'a>>) -> Seq<PostingCursor<'a>>
    decreases cs.len(),
{
    if cs.len() == 0 {
        Seq::<PostingCursor<'a>>::empty()
    } else {
        let prev = live(cs.drop_last());
        if cs.last().exhausted() {
            prev
        } else {
            prev.push(cs.last())
        }
    }
}

/// The documents under the cursors.
pub open spec fn currents(cs: Seq<PostingCursor<'_>>) -> Seq<u32> {
    cs.map_values(|c: PostingCursor<'_>| c.current())
}

/// The indices of the nonempty lists, in order.
pub open spec fn nonempty_lists(lists: Seq<Vec<Posting>>) -> Seq<usize>
    decreases lists.len(),
{
    if lists.len() == 0 {
        Seq::<usize>::empty()
    } else {
        let prev = nonempty_lists(lists.drop_last());
        if lists.last()@.len() > 0 {
            prev.push((lists.len() - 1) as usize)
        } else {
            prev
        }
    }
}

/// `c2` is `c` moved one posting forward where `c` stands on `doc`, else
/// `c` unchanged.
pub open spec fn moved_past(c: PostingCursor<'_>, c2: PostingCursor<'_>, doc: u32) -> bool {
    &&& c2.term() == c.term()
    &&& c2.postings() == c.postings()
    &&& c2.pos() == if !c.exhausted() && c.current() == doc {
        c.pos() + 1
    } else {
        c.pos()
    }
}

/// The (tf, document frequency) of each live cursor that stands on `doc`,
/// in order: what scoring `doc` reads.
pub open spec fn matches_at(cs: Seq<PostingCursor<'_>>, doc: u32) -> Seq<(u32, nat)>
    decreases cs.len(),
{
    if cs.len() == 0 {
        Seq::<(u32, nat)>::empty()
    } else {
        let prev = matches_at(cs.drop_last(), doc);
        let c = cs.last();
        if !c.exhausted() && c.current() == doc {
            prev.push((c.postings()[c.pos()].1, c.postings().len()))
        } else {
            prev
        }
    }
}

/// A cursor at the start of each nonempty posting list, tagged with the
/// list's index.
pub fn open_cursors<'a>(posting_lists: &'a [Vec<Posting>]) -> (cs: Vec<PostingCursor<'a>>)
    ensures
        all_wf(cs@),
        cs@.len() == nonempty_lists(posting_lists@).len(),
        forall|p: int|
            0 <= p < cs@.len() ==> {
                let t = nonempty_lists(posting_lists@)[p];
                &&& (#[trigger] cs@[p]).term() == t
                &&& cs@[p].postings() == postings_view(posting_lists@[t as int]@)
                &&& cs@[p].pos() == 0
            },
{
    let ghost ls = posting_lists@;
    let mut cs: Vec<PostingCursor<'a>> = Vec::new();
    let mut i: usize = 0;
    while i < posting_lists.len()
        invariant
            i <= ls.len(),
            ls == posting_lists@,
            all_wf(cs@),
            cs@.len() == nonempty_lists(ls.take(i as int)).len(),
            forall|p: int|
                0 <= p < cs@.len() ==> {
                    let t = nonempty_lists(ls.take(i as int))[p];
                    &&& (#[trigger] cs@[p]).term() == t
                    &&& t < i
                    &&& cs@[p].postings() == postings_view(ls[t as int]@)
                    &&& cs@[p].pos() == 0
                },
        decreases ls.len() - i,
    {
        let ghost before = cs@;
        assert(ls.take(i + 1).drop_last() =~= ls.take(i as int));
        assert(ls.take(i + 1).last() == ls[i as int]);
        if posting_lists[i].len() > 0 {
            let c = PostingCursor::new(i, posting_lists[i].as_slice());
            cs.push(c);
            proof {
                assert forall|p: int| 0 <= p < cs@.len() implies #[trigger] cs@[p].wf() by {
                    if p < before.len() {
                        assert(before[p].wf());
                    }
                }
            }
        }
        i = i + 1;
    }
    assert(ls.take(ls.len() as int) =~= ls);
    cs
}

/// Drops the exhausted cursors, keeping the order of the rest.
pub fn retain_live<'a>(cursors: &mut Vec<PostingCursor<'a>>)
    requires
        all_wf(old(cursors)@),
    ensures
        final(cursors)@ == live(old(cursors)@),
        all_wf(final(cursors)@),
{
    let ghost cs = cursors@;
    let mut kept: Vec<PostingCursor<'a>> = Vec::new();
    let mut i: usize = 0;
    while i < cursors.len()
        invariant
            i <= cs.len(),
            cs == cursors@,
            all_wf(cs),
            kept@ == live(cs.take(i as int)),
            all_wf(kept@),
        decreases cs.len() - i,
    {
        assert(cs.take(i + 1).drop_last() =~= cs.take(i as int));
        assert(cs.take(i + 1).last() == cs[i as int]);
        let c = cursors[i];
        if !c.is_exhausted() {
            let ghost before = kept@;
            kept.push(c);
            proof {
                assert(cs[i as int].wf());
                assert forall|p: int| 0 <= p < kept@.len() implies #[trigger] kept@[p].wf() by {
                    if p < before.len() {
                        assert(before[p].wf());
                    }
                }
            }
        }
        i = i + 1;
    }
    assert(cs.take(cs.len() as int) =~= cs);
    *cursors = kept;
}

/// Orders live cursors by the document under each, stably.
pub fn sort_by_current<'a>(cursors: &mut Vec<PostingCursor<'a>>)
    requires
        all_wf(old(cursors)@),
        forall|i: int| 0 <= i < old(cursors)@.len() ==> !(#[trigger] old(cursors)@[i]).exhausted(),
    ensures
        all_wf(final(cursors)@),
        exists|order: Seq<usize>|
            {
                &&& stable_sort_of_u32(currents(old(cursors)@), order)
                &&& final(cursors)@.len() == old(cursors)@.len()
                &&& forall|p: int| 0 <= p < order.len() ==> #[trigger] final(cursors)@[p] == old(cursors)@[order[p] as int]
            },
{
    let ghost cs = cursors@;
    let mut keys: Vec<u32> = Vec::new();
    let mut i: usize = 0;
    while i < cursors.len()
        invariant
            i <= cs.len(),
            cs == cursors@,
            all_wf(cs),
            forall|j: int| 0 <= j < cs.len() ==> !(#[trigger] cs[j]).exhausted(),
            keys@.len() == i,
            forall|j: int| 0 <= j < i ==> keys@[j] == #[trigger] currents(cs)[j],
        decreases cs.len() - i,
    {
        assert(cs[i as int].wf() && !cs[i as int].exhausted());
        keys.push(cursors[i].current_doc_id());
        i = i + 1;
    }
    assert(keys@ =~= currents(cs));
    let order = stable_sort_order_u32(&keys);
    let mut sorted: Vec<PostingCursor<'a>> = Vec::new();
    let mut p: usize = 0;
    while p < order.len()
        invariant
            p <= order@.len(),
            cs == cursors@,
            all_wf(cs),
            stable_sort_of_u32(currents(cs), order@),
            sorted@.len() == p,
            forall|q: int| 0 <= q < p ==> #[trigger] sorted@[q] == cs[order@[q] as int],
        decreases order@.len() - p,
    {
        let j = order[p];
        assert(j < cs.len());
        sorted.push(cursors[j]);
        p = p + 1;
    }
    proof {
        assert forall|q: int| 0 <= q < sorted@.len() implies #[trigger] sorted@[q].wf() by {
            assert(cs[order@[q] as int].wf());
        }
    }
    *cursors = sorted;
}

/// Moves every cursor that stands on `doc` one posting forward.
pub fn advance_matching<'a>(cursors: &mut Vec<PostingCursor<'a>>, doc: u32)
    requires
        all_wf(old(cursors)@),
    ensures
        all_wf(final(cursors)@),
        final(cursors)@.len() == old(cursors)@.len(),
        forall|i: int| 0 <= i < old(cursors)@.len() ==> moved_past(old(cursors)@[i], #[trigger] final(cursors)@[i], doc),
{
    let ghost cs = cursors@;
    let mut i: usize = 0;
    while i < cursors.len()
        invariant
            i <= cs.len(),
            cursors@.len() == cs.len(),
            all_wf(cs),
            all_wf(cursors@),
            forall|j: int| 0 <= j < i ==> moved_past(cs[j], #[trigger] cursors@[j], doc),
            forall|j: int| i <= j < cs.len() ==> #[trigger] cursors@[j] == cs[j],
        decreases cs.len() - i,
    {
        let mut c = cursors[i];
        assert(c.wf());
        if !c.is_exhausted() && c.current_doc_id() == doc {
            c.advance();
        }
        let ghost before = cursors@;
        cursors.set(i, c);
        proof {
            assert forall|j: int| 0 <= j < cursors@.len() implies #[trigger] cursors@[j].wf() by {
                if j != i {
                    assert(before[j].wf());
                }
            }
        }
        i = i + 1;
    }
}

/// Moves each of the first `count` cursors forward to the first posting
/// whose document is at least `doc`.
pub fn advance_first_to<'a>(cursors: &mut Vec<PostingCursor<'a>>, count: usize, doc: u32)
    requires
        all_wf(old(cursors)@),
        count <= old(cursors)@.len(),
    ensures
        all_wf(final(cursors)@),
        final(cursors)@.len() == old(cursors)@.len(),
        forall|i: int|
            0 <= i < count ==> {
                &&& (#[trigger] final(cursors)@[i]).term() == old(cursors)@[i].term()
                &&& final(cursors)@[i].postings() == old(cursors)@[i].postings()
                &&& final(cursors)@[i].pos() == skip_to(old(cursors)@[i].postings(), old(cursors)@[i].pos(), doc)
            },
        forall|i: int| count <= i < old(cursors)@.len() ==> #[trigger] final(cursors)@[i] == old(cursors)@[i],
{
    let ghost cs = cursors@;
    let mut i: usize = 0;
    while i < count
        invariant
            i <= count <= cs.len(),
            cursors@.len() == cs.len(),
            all_wf(cs),
            all_wf(cursors@),
            forall|j: int|
                0 <= j < i ==> {
                    &&& (#[trigger] cursors@[j]).term() == cs[j].term()
                    &&& cursors@[j].postings() == cs[j].postings()
                    &&& cursors@[j].pos() == skip_to(cs[j].postings(), cs[j].pos(), doc)
                },
            forall|j: int| i <= j < cs.len() ==> #[trigger] cursors@[j] == cs[j],
        decreases count - i,
    {
        let mut c = cursors[i];
        assert(c.wf());
        c.advance_to(doc);
        let ghost before = cursors@;
        cursors.set(i, c);
        proof {
            assert forall|j: int| 0 <= j < cursors@.len() implies #[trigger] cursors@[j].wf() by {
                if j != i {
                    assert(before[j].wf());
                }
            }
        }
        i = i + 1;
    }
}

/// The (tf, document frequency) of each live cursor standing on `doc`.
pub fn matching_terms(cursors: &[PostingCursor<'_>], doc: u32) -> (r: Vec<(u32, usize)>)
    requires
        all_wf(cursors@),
    ensures
        r@.len() == matches_at(cursors@, doc).len(),
        forall|i: int|
            0 <= i < r@.len() ==> (#[trigger] r@[i]).0 == matches_at(cursors@, doc)[i].0 && r@[i].1
                == matches_at(cursors@, doc)[i].1,
{
    let ghost cs = cursors@;
    let mut r: Vec<(u32, usize)> = Vec::new();
    let mut i: usize = 0;
    while i < cursors.len()
        invariant
            i <= cs.len(),
            cs == cursors@,
            all_wf(cs),
            r@.len() == matches_at(cs.take(i as int), doc).len(),
            forall|j: int|
                0 <= j < r@.len() ==> (#[trigger] r@[j]).0 == matches_at(cs.take(i as int), doc)[j].0
                    && r@[j].1 == matches_at(cs.take(i as int), doc)[j].1,
        decreases cs.len() - i,
    {
        assert(cs.take(i + 1).drop_last() =~= cs.take(i as int));
        assert(cs.take(i + 1).last() == cs[i as int]);
        let c = cursors[i];
        assert(c.wf());
        if !c.is_exhausted() && c.current_doc_id() == doc {
            r.push((c.current_tf(), c.list_len()));
        }
        i = i + 1;
    }
    assert(cs.take(cs.len() as int) =~= cs);
    r
}

/// Each posting of a list keyed by its document, with its tf and the
/// list's length.
pub open spec fn list_scan(ps: Seq<Posting>) -> Seq<(u32, (u32, usize))> {
    ps.map_values(|p: Posting| (p.doc_id, (p.tf, ps.len() as usize)))
}

/// The postings of all lists in order, keyed by document.
pub open spec fn posting_scan(lists: Seq<Vec<Posting>>) -> Seq<(u32, (u32, usize))>
    decreases lists.len(),
{
    if lists.len() == 0 {
        Seq::<(u32, (u32, usize))>::empty()
    } else {
        posting_scan(lists.drop_last()) + list_scan(lists.last()@)
    }
}

/// The view of groups of (tf, document frequency) pairs.
pub open spec fn doc_groups_view(g: Seq<(u32, Vec<(u32, usize)>)>) -> Seq<(u32, Seq<(u32, usize)>)> {
    g.map_values(|e: (u32, Vec<(u32, usize)>)| (e.0, e.1@))
}

/// Adds `v` to the group of `key`, or opens a new group for it.
fn add_to_doc_group(groups: &mut Vec<(u32, Vec<(u32, usize)>)>, key: u32, v: (u32, usize))
    requires
        distinct_keys(doc_groups_view(old(groups)@)),
    ensures
        doc_groups_view(final(groups)@) == group_add(doc_groups_view(old(groups)@), key, v),
{
    let ghost g = doc_groups_view(groups@);
    let mut i: usize = 0;
    while i < groups.len()
        invariant
            i <= groups@.len(),
            g == doc_groups_view(groups@),
            g == doc_groups_view(old(groups)@),
            distinct_keys(g),
            forall|j: int| 0 <= j < i ==> groups@[j].0 != key,
        decreases groups@.len() - i,
    {
        if groups[i].0 == key {
            groups[i].1.push(v);
            proof {
                assert(g[i as int].0 == key);
                let c = choose|c: int| 0 <= c < g.len() && g[c].0 == key;
                if c < i {
                    assert(g[c].0 != g[i as int].0);
                } else if c > i {
                    assert(g[i as int].0 != g[c].0);
                }
                assert(c == i);
                assert(group_add(g, key, v) == g.update(i as int, (key, g[i as int].1.push(v))));
                assert(doc_groups_view(groups@) =~= g.update(i as int, (key, g[i as int].1.push(v))));
            }
            return;
        }
        i = i + 1;
    }
    proof {
        assert forall|j: int| 0 <= j < g.len() implies g[j].0 != key by {
            assert(g[j].0 == groups@[j].0);
        }
    }
    let mut vs: Vec<(u32, usize)> = Vec::new();
    vs.push(v);
    groups.push((key, vs));
    assert(doc_groups_view(groups@) =~= g.push((key, seq![v])));
}

/// The postings of all lists grouped by document: each document in order
/// of first appearance, with the (tf, document frequency) of each of its
/// postings in list order.
pub fn group_by_doc(posting_lists: &[Vec<Posting>]) -> (groups: Vec<(u32, Vec<(u32, usize)>)>)
    ensures
        doc_groups_view(groups@) == grouped(posting_scan(posting_lists@)),
{
    let ghost ls = posting_lists@;
    let mut groups: Vec<(u32, Vec<(u32, usize)>)> = Vec::new();
    assert(doc_groups_view(groups@) =~= grouped(posting_scan(ls.take(0))));
    let mut t: usize = 0;
    while t < posting_lists.len()
        invariant
            t <= ls.len(),
            ls == posting_lists@,
            doc_groups_view(groups@) == grouped(posting_scan(ls.take(t as int))),
        decreases ls.len() - t,
    {
        let ps = &posting_lists[t];
        let df = ps.len();
        let ghost base = posting_scan(ls.take(t as int));
        let ghost sc = list_scan(ps@);
        let mut k: usize = 0;
        assert(base + sc.take(0) =~= base);
        while k < ps.len()
            invariant
                k <= ps@.len(),
                df == ps@.len(),
                sc == list_scan(ps@),
                doc_groups_view(groups@) == grouped(base + sc.take(k as int)),
            decreases ps@.len() - k,
        {
            let ghost cur = base + sc.take(k as int);
            proof {
                lemma_grouped_push(cur, ps@[k as int].doc_id, (ps@[k as int].tf, df));
                assert(cur.push((ps@[k as int].doc_id, (ps@[k as int].tf, df))) =~= base + sc.take(k + 1));
            }
            add_to_doc_group(&mut groups, ps[k].doc_id, (ps[k].tf, df));
            k = k + 1;
        }
        proof {
            assert(sc.take(ps@.len() as int) =~= sc);
            assert(ls.take(t + 1).drop_last() =~= ls.take(t as int));
            assert(ls.take(t + 1).last() == ls[t as int]);
        }
        t = t + 1;
    }
    assert(ls.take(ls.len() as int) =~= ls);
    groups
}

} // verus!
