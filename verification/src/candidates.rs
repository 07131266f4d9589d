//! The documents a hybrid search may return when restricted to an entity:
//! those linked to the entity or to any of its neighbors in the graph,
//! sorted and without repeats.

use vstd::prelude::*;
use vstd::utf8::{encode_utf8, encode_utf8_decode_utf8};
use crate::byte_order::{lex_lt, lemma_lex_transitive};
use crate::stable_sort::{stable_sort_of, stable_sort_order, occurs_in};
use crate::text::{strings_view, text_eq};
use crate::graph::{GraphIndex, GraphHit, hits_view};

verus! {

/// Each text comes strictly before the next in the byte order of its UTF-8
/// encoding: the texts are sorted and distinct.
pub open spec fn ascending_texts(ts: Seq<Seq<char>>) -> bool {
    forall|i: int, j: int| 0 <= i < j < ts.len() ==> lex_lt(encode_utf8(#[trigger] ts[i]), encode_utf8(#[trigger] ts[j]))
}

/// The UTF-8 encodings of texts.
pub open spec fn encodings(ts: Seq<Seq<char>>) -> Seq<Seq<u8>> {
    ts.map_values(|t: Seq<char>| encode_utf8(t))
}

/// The texts, sorted by their UTF-8 bytes, with repeats removed.
pub fn sorted_unique(ids: &Vec<String>) -> (r: Vec<String>)
    ensures
        ascending_texts(strings_view(r@)),
        forall|x: Seq<char>| strings_view(r@).contains(x) <==> strings_view(ids@).contains(x),
{
    let ghost iv = strings_view(ids@);
    let mut keys: Vec<Vec<u8>> = Vec::new();
    let mut i: usize = 0;
    while i < ids.len()
        invariant
            i <= ids@.len(),
            iv == strings_view(ids@),
            keys@.len() == i,
            forall|q: int| 0 <= q < i ==> #[trigger] keys@[q]@ == encode_utf8(iv[q]),
        decreases ids@.len() - i,
    {
        keys.push(vstd::slice::slice_to_vec(ids[i].as_str().as_bytes()));
        i = i + 1;
    }
    let order = stable_sort_order(&keys);
    let ghost kv = keys@.map_values(|k: Vec<u8>| k@);
    assert(kv =~= encodings(iv));
    let mut r: Vec<String> = Vec::new();
    let mut p: usize = 0;
    while p < order.len()
        invariant
            p <= order@.len(),
            iv == strings_view(ids@),
            stable_sort_of(encodings(iv), order@),
            ascending_texts(strings_view(r@)),
            p > 0 ==> r@.len() > 0 && strings_view(r@).last() == iv[order@[p - 1] as int],
            forall|x: Seq<char>|
                strings_view(r@).contains(x) <==> exists|q: int| 0 <= q < p && #[trigger] iv[order@[q] as int] == x,
        decreases order@.len() - p,
    {
        let j = order[p];
        let ghost rv = strings_view(r@);
        let ghost x = iv[j as int];
        let fresh = r.len() == 0 || !text_eq(r[r.len() - 1].as_str(), ids[j].as_str());
        if fresh {
            r.push(ids[j].clone());
            proof {
                let rv2 = strings_view(r@);
                assert(rv2 =~= rv.push(x));
                if p == 0 {
                    assert(rv.len() == 0) by {
                        if rv.len() > 0 {
                            assert(rv.contains(rv[0]));
                        }
                    }
                }
                if p > 0 {
                    let last = iv[order@[p - 1] as int];
                    assert(rv.last() == last);
                    assert(last != x);
                    let ek = encodings(iv);
                    assert(crate::byte_order::lex_le(ek[order@[p - 1] as int], ek[order@[p as int] as int]));
                    assert(encode_utf8(last) != encode_utf8(x)) by {
                        encode_utf8_decode_utf8(last);
                        encode_utf8_decode_utf8(x);
                    }
                    assert(lex_lt(encode_utf8(last), encode_utf8(x)));
                    assert forall|a: int, b: int| 0 <= a < b < rv2.len() implies lex_lt(
                        encode_utf8(#[trigger] rv2[a]),
                        encode_utf8(#[trigger] rv2[b]),
                    ) by {
                        if b == rv.len() {
                            if a < rv.len() - 1 {
                                assert(lex_lt(encode_utf8(rv[a]), encode_utf8(rv[rv.len() - 1])));
                                lemma_lex_transitive(encode_utf8(rv[a]), encode_utf8(last), encode_utf8(x));
                            }
                        } else {
                            assert(rv2[a] == rv[a] && rv2[b] == rv[b]);
                        }
                    }
                }
                assert forall|y: Seq<char>| rv2.contains(y) <==> exists|q: int|
                    0 <= q < p + 1 && #[trigger] iv[order@[q] as int] == y by {
                    if rv2.contains(y) && y != x {
                        let a = choose|a: int| 0 <= a < rv2.len() && rv2[a] == y;
                        assert(rv[a] == y);
                        assert(rv.contains(y));
                    }
                    if exists|q: int| 0 <= q < p + 1 && #[trigger] iv[order@[q] as int] == y {
                        let q = choose|q: int| 0 <= q < p + 1 && #[trigger] iv[order@[q] as int] == y;
                        if q < p {
                            assert(rv.contains(y));
                            let a = choose|a: int| 0 <= a < rv.len() && rv[a] == y;
                            assert(rv2[a] == y);
                        } else {
                            assert(rv2[rv.len() as int] == y);
                        }
                    }
                }
            }
        } else {
            proof {
                assert(rv.last() == x);
                assert forall|y: Seq<char>| rv.contains(y) <==> exists|q: int|
                    0 <= q < p + 1 && #[trigger] iv[order@[q] as int] == y by {
                    if exists|q: int| 0 <= q < p + 1 && #[trigger] iv[order@[q] as int] == y {
                        let q = choose|q: int| 0 <= q < p + 1 && #[trigger] iv[order@[q] as int] == y;
                        if q == p {
                            assert(rv[rv.len() - 1] == y);
                        }
                    }
                }
            }
        }
        p = p + 1;
    }
    proof {
        let rv = strings_view(r@);
        assert forall|x: Seq<char>| rv.contains(x) <==> iv.contains(x) by {
            if iv.contains(x) {
                let j = choose|j: int| 0 <= j < iv.len() && iv[j] == x;
                assert(occurs_in(order@, j));
                let q = choose|q: int| 0 <= q < order@.len() && order@[q] == j;
                assert(iv[order@[q] as int] == x);
            }
            if rv.contains(x) {
                let q = choose|q: int| 0 <= q < order@.len() && #[trigger] iv[order@[q] as int] == x;
                assert(iv[order@[q] as int] == x);
            }
        }
    }
    r
}

/// The documents linked to the hits, hit by hit.
pub open spec fn hit_docs(g: GraphIndex, hs: Seq<(Seq<char>, usize, Seq<char>)>) -> Seq<Seq<char>>
    decreases hs.len(),
{
    if hs.len() == 0 {
        Seq::<Seq<char>>::empty()
    } else {
        hit_docs(g, hs.drop_last()) + g.docs_of(hs.last().0)
    }
}

/// The documents linked to `seed` and to each of the hits.
pub open spec fn candidate_pool(g: GraphIndex, seed: Seq<char>, hs: Seq<(Seq<char>, usize, Seq<char>)>) -> Seq<Seq<char>> {
    g.docs_of(seed) + hit_docs(g, hs)
}

/// Appends clones of `docs` to `ids`.
fn extend_cloned(ids: &mut Vec<String>, docs: &[String])
    ensures
        strings_view(final(ids)@) == strings_view(old(ids)@) + strings_view(docs@),
{
    let ghost start = strings_view(ids@);
    let mut i: usize = 0;
    while i < docs.len()
        invariant
            i <= docs@.len(),
            start == strings_view(old(ids)@),
            strings_view(ids@) == start + strings_view(docs@).take(i as int),
        decreases docs@.len() - i,
    {
        let ghost before = ids@;
        let d = docs[i].clone();
        assert(d@ == docs@[i as int]@);
        ids.push(d);
        assert(strings_view(ids@) =~= strings_view(before).push(d@));
        assert(strings_view(docs@).take(i + 1) =~= strings_view(docs@).take(i as int).push(d@));
        assert(strings_view(ids@) =~= start + strings_view(docs@).take(i + 1));
        i = i + 1;
    }
    assert(strings_view(docs@).take(docs@.len() as int) =~= strings_view(docs@));
}

/// The documents a hybrid search restricted to `entity` may return: those
/// linked to `entity` and to each entity one hop from it (among the first
/// 100 that a one-hop graph search finds), sorted by their UTF-8 bytes,
/// without repeats.
pub fn candidate_docs(graph: &GraphIndex, entity: &str) -> (ids: Vec<String>)
    requires
        graph.wf(),
    ensures
        ascending_texts(strings_view(ids@)),
        exists|hs: Seq<(Seq<char>, usize, Seq<char>)>|
            #[trigger] graph.search_result(entity@, 1, 100, hs) && forall|x: Seq<char>|
                strings_view(ids@).contains(x) <==> candidate_pool(*graph, entity@, hs).contains(x),
{
    let mut pool: Vec<String> = Vec::new();
    extend_cloned(&mut pool, graph.get_entity_docs(entity));
    let hits: Vec<GraphHit> = graph.search(entity, 1, 100);
    let ghost hs = hits_view(hits@);
    let mut k: usize = 0;
    assert(strings_view(pool@) =~= graph.docs_of(entity@) + hit_docs(*graph, hs.take(0)));
    while k < hits.len()
        invariant
            graph.wf(),
            k <= hits@.len(),
            hs == hits_view(hits@),
            strings_view(pool@) == graph.docs_of(entity@) + hit_docs(*graph, hs.take(k as int)),
        decreases hits@.len() - k,
    {
        let ghost before = strings_view(pool@);
        extend_cloned(&mut pool, graph.get_entity_docs(hits[k].id.as_str()));
        proof {
            assert(hs.take(k + 1).drop_last() =~= hs.take(k as int));
            assert(hs.take(k + 1).last().0 == hits@[k as int].id@);
            assert(strings_view(pool@) =~= graph.docs_of(entity@) + hit_docs(*graph, hs.take(k + 1)));
        }
        k = k + 1;
    }
    assert(hs.take(hs.len() as int) =~= hs);
    let ids = sorted_unique(&pool);
    assert(graph.search_result(entity@, 1, 100, hs));
    ids
}

} // verus!
