//! The rank bookkeeping of reciprocal rank fusion: which ranks each result
//! id holds across several ranked lists, and the restriction of a ranked
//! list to a set of candidate ids.

use vstd::prelude::*;
use crate::grouping::{grouped, group_add, distinct_keys, lemma_grouped_push, keys_in_order, lemma_keys_in_order};
use crate::text::{text_eq, strings_view};

verus! {

/// Each id of one ranked list with its rank (its position, from zero).
pub open spec fn list_ranks(ids: Seq<String>) -> Seq<(Seq<char>, usize)> {
    ids.map(|r: int, s: String| (s@, r as usize))
}

/// The ids of all ranked lists in order, each with its rank in its list.
pub open spec fn rank_scan(lists: Seq<Vec<String>>) -> Seq<(Seq<char>, usize)>
    decreases lists.len(),
{
    if lists.len() == 0 {
        Seq::<(Seq<char>, usize)>::empty()
    } else {
        rank_scan(lists.drop_last()) + list_ranks(lists.last()@)
    }
}

/// The view of groups of ranks.
pub open spec fn rank_groups_view(g: Seq<(String, Vec<usize>)>) -> Seq<(Seq<char>, Seq<usize>)> {
    g.map_values(|e: (String, Vec<usize>)| (e.0@, e.1@))
}

/// Adds rank `r` to the group of `id`, or opens a new group for it.
fn add_rank(groups: &mut Vec<(String, Vec<usize>)>, id: &str, r: usize)
    requires
        distinct_keys(rank_groups_view(old(groups)@)),
    ensures
        rank_groups_view(final(groups)@) == group_add(rank_groups_view(old(groups)@), id@, r),
{
    let ghost g = rank_groups_view(groups@);
    let mut i: usize = 0;
    while i < groups.len()
        invariant
            i <= groups@.len(),
            g == rank_groups_view(groups@),
            g == rank_groups_view(old(groups)@),
            distinct_keys(g),
            forall|j: int| 0 <= j < i ==> groups@[j].0@ != id@,
        decreases groups@.len() - i,
    {
        if text_eq(groups[i].0.as_str(), id) {
            groups[i].1.push(r);
            proof {
                assert(g[i as int].0 == id@);
                let c = choose|c: int| 0 <= c < g.len() && g[c].0 == id@;
                if c < i {
                    assert(g[c].0 != g[i as int].0);
                } else if c > i {
                    assert(g[i as int].0 != g[c].0);
                }
                assert(group_add(g, id@, r) == g.update(i as int, (id@, g[i as int].1.push(r))));
                assert(rank_groups_view(groups@) =~= g.update(i as int, (id@, g[i as int].1.push(r))));
            }
            return;
        }
        i = i + 1;
    }
    proof {
        assert forall|j: int| 0 <= j < g.len() implies g[j].0 != id@ by {
            assert(g[j].0 == groups@[j].0@);
        }
    }
    let mut rs: Vec<usize> = Vec::new();
    rs.push(r);
    groups.push((id.to_owned(), rs));
    assert(rank_groups_view(groups@) =~= g.push((id@, seq![r])));
}

/// The ranks of each id over ranked lists of ids: each distinct id in
/// order of first appearance (list by list), with every rank at which it
/// appears, in list order. Reciprocal rank fusion scores an id by the sum
/// over these ranks of `1 / (k + rank + 1)`.
pub fn rank_groups(lists: &[Vec<String>]) -> (groups: Vec<(String, Vec<usize>)>)
    ensures
        rank_groups_view(groups@) == grouped(rank_scan(lists@)),
{
    let ghost ls = lists@;
    let mut groups: Vec<(String, Vec<usize>)> = Vec::new();
    assert(rank_groups_view(groups@) =~= grouped(rank_scan(ls.take(0))));
    let mut t: usize = 0;
    while t < lists.len()
        invariant
            t <= ls.len(),
            ls == lists@,
            rank_groups_view(groups@) == grouped(rank_scan(ls.take(t as int))),
        decreases ls.len() - t,
    {
        let ids = &lists[t];
        let ghost base = rank_scan(ls.take(t as int));
        let ghost sc = list_ranks(ids@);
        let mut k: usize = 0;
        assert(base + sc.take(0) =~= base);
        while k < ids.len()
            invariant
                k <= ids@.len(),
                sc == list_ranks(ids@),
                rank_groups_view(groups@) == grouped(base + sc.take(k as int)),
            decreases ids@.len() - k,
        {
            let ghost cur = base + sc.take(k as int);
            proof {
                lemma_grouped_push(cur, ids@[k as int]@, k);
                assert(cur.push((ids@[k as int]@, k)) =~= base + sc.take(k + 1));
            }
            add_rank(&mut groups, ids[k].as_str(), k);
            k = k + 1;
        }
        proof {
            assert(sc.take(ids@.len() as int) =~= sc);
            assert(ls.take(t + 1).drop_last() =~= ls.take(t as int));
            assert(ls.take(t + 1).last() == ls[t as int]);
        }
        t = t + 1;
    }
    assert(ls.take(ls.len() as int) =~= ls);
    groups
}

/// An id occurs in the scan of ranked lists exactly when it is in one of
/// them.
proof fn lemma_rank_scan_ids(lists: Seq<Vec<String>>, id: Seq<char>)
    ensures
        (exists|j: int| 0 <= j < rank_scan(lists).len() && #[trigger] rank_scan(lists)[j].0 == id) <==> exists|
            t: int,
            r: int,
        | 0 <= t < lists.len() && 0 <= r < lists[t]@.len() && #[trigger] lists[t]@[r]@ == id,
    decreases lists.len(),
{
    if lists.len() > 0 {
        let prev = lists.drop_last();
        lemma_rank_scan_ids(prev, id);
        let a = rank_scan(prev);
        let b = list_ranks(lists.last()@);
        let sc = rank_scan(lists);
        assert(sc == a + b);
        let n = lists.len() - 1;
        if exists|j: int| 0 <= j < sc.len() && #[trigger] sc[j].0 == id {
            let j = choose|j: int| 0 <= j < sc.len() && #[trigger] sc[j].0 == id;
            if j < a.len() {
                assert(a[j].0 == id);
                let (t, r) = choose|t: int, r: int|
                    0 <= t < prev.len() && 0 <= r < prev[t]@.len() && #[trigger] prev[t]@[r]@ == id;
                assert(lists[t] == prev[t]);
            } else {
                assert(b[j - a.len()].0 == id);
                assert(lists[n]@[j - a.len()]@ == id);
            }
        }
        if exists|t: int, r: int| 0 <= t < lists.len() && 0 <= r < lists[t]@.len() && #[trigger] lists[t]@[r]@ == id {
            let (t, r) = choose|t: int, r: int|
                0 <= t < lists.len() && 0 <= r < lists[t]@.len() && #[trigger] lists[t]@[r]@ == id;
            if t < n {
                assert(prev[t]@[r]@ == id);
                let j = choose|j: int| 0 <= j < a.len() && #[trigger] a[j].0 == id;
                assert(sc[j] == a[j]);
            } else {
                assert(b[r].0 == id);
                assert(sc[a.len() + r] == b[r]);
            }
        }
    }
}

/// Fusion keeps each id once: the grouped ids are distinct, and an id is
/// among them exactly when it appears in one of the ranked lists.
pub proof fn law_rank_groups_cover(lists: Seq<Vec<String>>, id: Seq<char>)
    ensures
        distinct_keys(grouped(rank_scan(lists))),
        (exists|i: int| 0 <= i < grouped(rank_scan(lists)).len() && #[trigger] grouped(rank_scan(lists))[i].0 == id)
            <==> exists|t: int, r: int|
            0 <= t < lists.len() && 0 <= r < lists[t]@.len() && #[trigger] lists[t]@[r]@ == id,
{
    let sc = rank_scan(lists);
    let g = grouped(sc);
    let ks = keys_in_order(sc);
    lemma_keys_in_order(sc);
    lemma_rank_scan_ids(lists, id);
    assert forall|i: int, j: int| 0 <= i < j < g.len() implies g[i].0 != g[j].0 by {
        assert(g[i].0 == ks[i] && g[j].0 == ks[j]);
    }
    if exists|i: int| 0 <= i < g.len() && #[trigger] g[i].0 == id {
        let i = choose|i: int| 0 <= i < g.len() && #[trigger] g[i].0 == id;
        assert(ks[i] == id);
        assert(ks.contains(id));
    }
    if ks.contains(id) {
        let i = choose|i: int| 0 <= i < ks.len() && ks[i] == id;
        assert(g[i].0 == id);
    }
}

/// The positions, in order, of the ids that are among `candidates`.
pub open spec fn candidate_positions(ids: Seq<Seq<char>>, candidates: Seq<Seq<char>>) -> Seq<usize>
    decreases ids.len(),
{
    if ids.len() == 0 {
        Seq::<usize>::empty()
    } else {
        let prev = candidate_positions(ids.drop_last(), candidates);
        if candidates.contains(ids.last()) {
            prev.push((ids.len() - 1) as usize)
        } else {
            prev
        }
    }
}

/// Whether `id` is one of `candidates`.
pub fn is_candidate(candidates: &[String], id: &str) -> (r: bool)
    ensures
        r == strings_view(candidates@).contains(id@),
{
    let ghost cv = strings_view(candidates@);
    let mut i: usize = 0;
    while i < candidates.len()
        invariant
            i <= candidates@.len(),
            cv == strings_view(candidates@),
            forall|j: int| 0 <= j < i ==> cv[j] != id@,
        decreases candidates@.len() - i,
    {
        if text_eq(candidates[i].as_str(), id) {
            assert(cv[i as int] == id@);
            return true;
        }
        i = i + 1;
    }
    proof {
        if cv.contains(id@) {
            let j = choose|j: int| 0 <= j < cv.len() && cv[j] == id@;
            assert(false);
        }
    }
    false
}

/// The positions of a ranked list of ids that a candidate filter keeps:
/// those of ids among `candidates`, in rank order.
pub fn filter_candidates(ids: &[String], candidates: &[String]) -> (kept: Vec<usize>)
    ensures
        kept@ == candidate_positions(strings_view(ids@), strings_view(candidates@)),
{
    let ghost iv = strings_view(ids@);
    let ghost cv = strings_view(candidates@);
    let mut kept: Vec<usize> = Vec::new();
    let mut i: usize = 0;
    while i < ids.len()
        invariant
            i <= ids@.len(),
            iv == strings_view(ids@),
            cv == strings_view(candidates@),
            kept@ == candidate_positions(iv.take(i as int), cv),
        decreases ids@.len() - i,
    {
        assert(iv.take(i + 1).drop_last() =~= iv.take(i as int));
        assert(iv.take(i + 1).last() == ids@[i as int]@);
        if is_candidate(candidates, ids[i].as_str()) {
            kept.push(i);
        }
        i = i + 1;
    }
    assert(iv.take(iv.len() as int) =~= iv);
    kept
}

} // verus!
