//! The knowledge graph: adjacency in both directions, the documents linked
//! to each entity, and breadth-first traversal with hop counts.

use vstd::prelude::*;
use vstd::string::StringExecFns;
use crate::types::Triple;
use crate::text::{strings_view, text_eq, join};
use crate::text_index::no_repeats;

verus! {

broadcast use vstd::string::group_string_axioms;

/// The (subject, predicate, object) texts of triples.
pub open spec fn triples_view(ts: Seq<Triple>) -> Seq<(Seq<char>, Seq<char>, Seq<char>)> {
    ts.map_values(|t: Triple| t.view3())
}

/// The (predicate, object) of each triple whose subject is `e`, in order.
pub open spec fn out_edges(ts: Seq<(Seq<char>, Seq<char>, Seq<char>)>, e: Seq<char>) -> Seq<(Seq<char>, Seq<char>)>
    decreases ts.len(),
{
    if ts.len() == 0 {
        Seq::<(Seq<char>, Seq<char>)>::empty()
    } else {
        let prev = out_edges(ts.drop_last(), e);
        let t = ts.last();
        if t.0 == e {
            prev.push((t.1, t.2))
        } else {
            prev
        }
    }
}

/// The (predicate, subject) of each triple whose object is `e`, in order.
pub open spec fn in_edges(ts: Seq<(Seq<char>, Seq<char>, Seq<char>)>, e: Seq<char>) -> Seq<(Seq<char>, Seq<char>)>
    decreases ts.len(),
{
    if ts.len() == 0 {
        Seq::<(Seq<char>, Seq<char>)>::empty()
    } else {
        let prev = in_edges(ts.drop_last(), e);
        let t = ts.last();
        if t.2 == e {
            prev.push((t.1, t.0))
        } else {
            prev
        }
    }
}

/// Some triple has `e` as subject or object.
pub open spec fn mentioned(ts: Seq<(Seq<char>, Seq<char>, Seq<char>)>, e: Seq<char>) -> bool {
    exists|j: int| 0 <= j < ts.len() && mentions(#[trigger] ts[j], e)
}

/// `e` is the subject or the object of triple `t`.
pub open spec fn mentions(t: (Seq<char>, Seq<char>, Seq<char>), e: Seq<char>) -> bool {
    t.0 == e || t.2 == e
}

/// The document list that the pairs give `e`, the last pair for `e` winning.
pub open spec fn docs_lookup(pairs: Seq<(Seq<char>, Seq<Seq<char>>)>, e: Seq<char>) -> Option<Seq<Seq<char>>>
    decreases pairs.len(),
{
    if pairs.len() == 0 {
        None
    } else if pairs.last().0 == e {
        Some(pairs.last().1)
    } else {
        docs_lookup(pairs.drop_last(), e)
    }
}

/// The views of (entity, documents) pairs.
pub open spec fn entity_docs_view(pairs: Seq<(String, Vec<String>)>) -> Seq<(Seq<char>, Seq<Seq<char>>)> {
    pairs.map_values(|p: (String, Vec<String>)| (p.0@, strings_view(p.1@)))
}

/// The keys of an association list.
pub open spec fn keys_of<V>(pairs: Seq<(String, V)>) -> Seq<Seq<char>> {
    pairs.map_values(|p: (String, V)| p.0@)
}

/// The views of (predicate, entity) edges.
pub open spec fn edges_view(es: Seq<(String, String)>) -> Seq<(Seq<char>, Seq<char>)> {
    es.map_values(|e: (String, String)| (e.0@, e.1@))
}

/// The edges an adjacency list gives `e`, none when `e` is absent.
pub open spec fn adjacency(adj: Seq<(String, Vec<(String, String)>)>, e: Seq<char>) -> Seq<(Seq<char>, Seq<char>)> {
    if exists|i: int| 0 <= i < adj.len() && adj[i].0@ == e {
        edges_view(adj[choose|i: int| 0 <= i < adj.len() && adj[i].0@ == e].1@)
    } else {
        Seq::<(Seq<char>, Seq<char>)>::empty()
    }
}

/// `e` is a key of either adjacency list.
pub open spec fn in_either(
    a: Seq<(String, Vec<(String, String)>)>,
    b: Seq<(String, Vec<(String, String)>)>,
    e: Seq<char>,
) -> bool {
    keys_of(a).contains(e) || keys_of(b).contains(e)
}

/// The entities one more triple mentions.
proof fn lemma_mentioned_step(tv: Seq<(Seq<char>, Seq<char>, Seq<char>)>, k: int, e: Seq<char>)
    requires
        0 <= k < tv.len(),
    ensures
        mentioned(tv.take(k + 1), e) <==> mentioned(tv.take(k), e) || e == tv[k].0 || e == tv[k].2,
{
    let next = tv.take(k + 1);
    let prev = tv.take(k);
    if mentioned(next, e) {
        let j = choose|j: int| 0 <= j < next.len() && mentions(next[j], e);
        if j < k {
            assert(prev[j] == next[j]);
        }
    }
    if mentioned(prev, e) {
        let j = choose|j: int| 0 <= j < prev.len() && mentions(prev[j], e);
        assert(next[j] == prev[j]);
    }
    if e == tv[k].0 || e == tv[k].2 {
        assert(next[k] == tv[k]);
    }
}

/// The position of key `k`.
fn find_key<V>(pairs: &Vec<(String, V)>, k: &str) -> (r: Option<usize>)
    ensures
        match r {
            Some(i) => i < pairs@.len() && pairs@[i as int].0@ == k@,
            None => forall|i: int| 0 <= i < pairs@.len() ==> pairs@[i].0@ != k@,
        },
{
    let mut i: usize = 0;
    while i < pairs.len()
        invariant
            i <= pairs@.len(),
            forall|j: int| 0 <= j < i ==> pairs@[j].0@ != k@,
        decreases pairs@.len() - i,
    {
        if text_eq(pairs[i].0.as_str(), k) {
            return Some(i);
        }
        i = i + 1;
    }
    None
}

/// With distinct keys, the edges of the key at position `i`.
proof fn lemma_adjacency_at(adj: Seq<(String, Vec<(String, String)>)>, i: int)
    requires
        no_repeats(keys_of(adj)),
        0 <= i < adj.len(),
    ensures
        adjacency(adj, adj[i].0@) == edges_view(adj[i].1@),
{
    let c = choose|j: int| 0 <= j < adj.len() && adj[j].0@ == adj[i].0@;
    assert(0 <= c < adj.len() && adj[c].0@ == adj[i].0@);
    if c != i {
        assert(keys_of(adj)[c] == adj[c].0@ && keys_of(adj)[i] == adj[i].0@);
        if c < i {
            assert(keys_of(adj)[c] != keys_of(adj)[i]);
        } else {
            assert(keys_of(adj)[i] != keys_of(adj)[c]);
        }
    }
}

/// Appends edge (`a`, `b`) to the list of `key`, adding the key when new.
fn add_edge(adj: &mut Vec<(String, Vec<(String, String)>)>, key: &str, a: &str, b: &str)
    requires
        no_repeats(keys_of(old(adj)@)),
    ensures
        no_repeats(keys_of(final(adj)@)),
        forall|e: Seq<char>|
            #[trigger] adjacency(final(adj)@, e) == if e == key@ {
                adjacency(old(adj)@, e).push((a@, b@))
            } else {
                adjacency(old(adj)@, e)
            },
        forall|e: Seq<char>|
            #[trigger] keys_of(final(adj)@).contains(e) <==> keys_of(old(adj)@).contains(e) || e == key@,
{
    let ghost old_adj = adj@;
    let edge = (a.to_owned(), b.to_owned());
    match find_key(adj, key) {
        Some(i) => {
            adj[i].1.push(edge);
            proof {
                assert(keys_of(adj@) =~= keys_of(old_adj));
                assert(keys_of(adj@)[i as int] == key@);
                assert forall|e: Seq<char>| #[trigger] adjacency(adj@, e) == if e == key@ {
                    adjacency(old_adj, e).push((a@, b@))
                } else {
                    adjacency(old_adj, e)
                } by {
                    if e == key@ {
                        lemma_adjacency_at(adj@, i as int);
                        lemma_adjacency_at(old_adj, i as int);
                        assert(edges_view(adj@[i as int].1@) =~= edges_view(old_adj[i as int].1@).push(
                            (a@, b@),
                        ));
                    } else {
                        if exists|j: int| 0 <= j < adj@.len() && adj@[j].0@ == e {
                            let j = choose|j: int| 0 <= j < adj@.len() && adj@[j].0@ == e;
                            lemma_adjacency_at(adj@, j);
                            lemma_adjacency_at(old_adj, j);
                            assert(j != i);
                            assert(adj@[j] == old_adj[j]);
                        } else {
                            assert forall|j: int| 0 <= j < old_adj.len() implies old_adj[j].0@ != e by {
                                assert(adj@[j].0@ == old_adj[j].0@);
                            }
                        }
                    }
                }
            }
        },
        None => {
            let mut list: Vec<(String, String)> = Vec::new();
            list.push(edge);
            adj.push((key.to_owned(), list));
            proof {
                let n = old_adj.len() as int;
                assert(keys_of(adj@) =~= keys_of(old_adj).push(key@));
                assert forall|x: int, y: int| 0 <= x < y < keys_of(adj@).len() implies keys_of(adj@)[x]
                    != keys_of(adj@)[y] by {
                    if y == n {
                        assert(keys_of(adj@)[x] == old_adj[x].0@);
                    } else {
                        assert(keys_of(adj@)[x] == keys_of(old_adj)[x]);
                        assert(keys_of(adj@)[y] == keys_of(old_adj)[y]);
                    }
                }
                assert forall|e: Seq<char>| #[trigger] adjacency(adj@, e) == if e == key@ {
                    adjacency(old_adj, e).push((a@, b@))
                } else {
                    adjacency(old_adj, e)
                } by {
                    if e == key@ {
                        lemma_adjacency_at(adj@, n);
                        assert(edges_view(adj@[n].1@) =~= seq![(a@, b@)]);
                        assert(adjacency(old_adj, e) =~= Seq::<(Seq<char>, Seq<char>)>::empty());
                    } else {
                        if exists|j: int| 0 <= j < adj@.len() && adj@[j].0@ == e {
                            let j = choose|j: int| 0 <= j < adj@.len() && adj@[j].0@ == e;
                            lemma_adjacency_at(adj@, j);
                            assert(j < n);
                            assert(adj@[j] == old_adj[j]);
                            assert(no_repeats(keys_of(old_adj)));
                            lemma_adjacency_at(old_adj, j);
                        } else {
                            assert forall|j: int| 0 <= j < old_adj.len() implies old_adj[j].0@ != e by {
                                assert(adj@[j] == old_adj[j]);
                            }
                        }
                    }
                }
                assert forall|e: Seq<char>| #[trigger] keys_of(adj@).contains(e) <==> keys_of(
                    old_adj,
                ).contains(e) || e == key@ by {
                    if keys_of(adj@).contains(e) {
                        let j = choose|j: int| 0 <= j < keys_of(adj@).len() && keys_of(adj@)[j] == e;
                        if j < n {
                            assert(keys_of(old_adj)[j] == e);
                        }
                    }
                    if keys_of(old_adj).contains(e) {
                        let j = choose|j: int| 0 <= j < keys_of(old_adj).len() && keys_of(old_adj)[j] == e;
                        assert(keys_of(adj@)[j] == e);
                    }
                    if e == key@ {
                        assert(keys_of(adj@)[n] == e);
                    }
                }
            }
        },
    }
}

/// The documents an association list gives `e`, if `e` is a key.
pub open spec fn doc_list(pairs: Seq<(String, Vec<String>)>, e: Seq<char>) -> Option<Seq<Seq<char>>> {
    if exists|i: int| 0 <= i < pairs.len() && pairs[i].0@ == e {
        Some(strings_view(pairs[choose|i: int| 0 <= i < pairs.len() && pairs[i].0@ == e].1@))
    } else {
        None
    }
}

/// With distinct keys, the documents of the key at position `i`.
proof fn lemma_doc_list_at(pairs: Seq<(String, Vec<String>)>, i: int)
    requires
        no_repeats(keys_of(pairs)),
        0 <= i < pairs.len(),
    ensures
        doc_list(pairs, pairs[i].0@) == Some(strings_view(pairs[i].1@)),
{
    let c = choose|j: int| 0 <= j < pairs.len() && pairs[j].0@ == pairs[i].0@;
    assert(0 <= c < pairs.len() && pairs[c].0@ == pairs[i].0@);
    if c != i {
        assert(keys_of(pairs)[c] == pairs[c].0@ && keys_of(pairs)[i] == pairs[i].0@);
        if c < i {
            assert(keys_of(pairs)[c] != keys_of(pairs)[i]);
        } else {
            assert(keys_of(pairs)[i] != keys_of(pairs)[c]);
        }
    }
}

/// Sets the documents of `key`, replacing earlier ones.
fn set_docs(pairs: &mut Vec<(String, Vec<String>)>, key: String, docs: Vec<String>)
    requires
        no_repeats(keys_of(old(pairs)@)),
    ensures
        no_repeats(keys_of(final(pairs)@)),
        forall|e: Seq<char>|
            #[trigger] doc_list(final(pairs)@, e) == if e == key@ {
                Some(strings_view(docs@))
            } else {
                doc_list(old(pairs)@, e)
            },
{
    let ghost old_pairs = pairs@;
    let ghost kv = key@;
    let ghost dv = strings_view(docs@);
    match find_key(pairs, key.as_str()) {
        Some(i) => {
            pairs[i].1 = docs;
            proof {
                assert(keys_of(pairs@) =~= keys_of(old_pairs));
                assert forall|e: Seq<char>| #[trigger] doc_list(pairs@, e) == if e == kv {
                    Some(dv)
                } else {
                    doc_list(old_pairs, e)
                } by {
                    if e == kv {
                        lemma_doc_list_at(pairs@, i as int);
                    } else if exists|j: int| 0 <= j < pairs@.len() && pairs@[j].0@ == e {
                        let j = choose|j: int| 0 <= j < pairs@.len() && pairs@[j].0@ == e;
                        lemma_doc_list_at(pairs@, j);
                        lemma_doc_list_at(old_pairs, j);
                        assert(pairs@[j] == old_pairs[j]);
                    } else {
                        assert forall|j: int| 0 <= j < old_pairs.len() implies old_pairs[j].0@ != e by {
                            assert(pairs@[j].0@ == old_pairs[j].0@);
                        }
                    }
                }
            }
        },
        None => {
            pairs.push((key, docs));
            proof {
                let n = old_pairs.len() as int;
                assert(keys_of(pairs@) =~= keys_of(old_pairs).push(kv));
                assert forall|x: int, y: int| 0 <= x < y < keys_of(pairs@).len() implies keys_of(
                    pairs@,
                )[x] != keys_of(pairs@)[y] by {
                    if y == n {
                        assert(keys_of(pairs@)[x] == old_pairs[x].0@);
                    } else {
                        assert(keys_of(pairs@)[x] == keys_of(old_pairs)[x]);
                        assert(keys_of(pairs@)[y] == keys_of(old_pairs)[y]);
                    }
                }
                assert forall|e: Seq<char>| #[trigger] doc_list(pairs@, e) == if e == kv {
                    Some(dv)
                } else {
                    doc_list(old_pairs, e)
                } by {
                    if e == kv {
                        lemma_doc_list_at(pairs@, n);
                    } else if exists|j: int| 0 <= j < pairs@.len() && pairs@[j].0@ == e {
                        let j = choose|j: int| 0 <= j < pairs@.len() && pairs@[j].0@ == e;
                        lemma_doc_list_at(pairs@, j);
                        assert(j < n);
                        assert(pairs@[j] == old_pairs[j]);
                        lemma_doc_list_at(old_pairs, j);
                    } else {
                        assert forall|j: int| 0 <= j < old_pairs.len() implies old_pairs[j].0@ != e by {
                            assert(pairs@[j] == old_pairs[j]);
                        }
                    }
                }
            }
        },
    }
}

/// A knowledge graph of triples with bidirectional adjacency, and the
/// documents linked to each entity.
pub struct GraphIndex {
    outgoing: Vec<(String, Vec<(String, String)>)>,
    incoming: Vec<(String, Vec<(String, String)>)>,
    entity_docs: Vec<(String, Vec<String>)>,
}

impl GraphIndex {
    /// The (predicate, object) edges leaving `e`.
    pub closed spec fn out_of(&self, e: Seq<char>) -> Seq<(Seq<char>, Seq<char>)> {
        adjacency(self.outgoing@, e)
    }

    /// The (predicate, subject) edges entering `e`.
    pub closed spec fn in_of(&self, e: Seq<char>) -> Seq<(Seq<char>, Seq<char>)> {
        adjacency(self.incoming@, e)
    }

    /// `e` is the subject or object of some triple.
    pub closed spec fn in_graph(&self, e: Seq<char>) -> bool {
        in_either(self.outgoing@, self.incoming@, e)
    }

    /// The documents linked to `e`, none when `e` has no entry.
    pub closed spec fn docs_of(&self, e: Seq<char>) -> Seq<Seq<char>> {
        match doc_list(self.entity_docs@, e) {
            Some(d) => d,
            None => Seq::<Seq<char>>::empty(),
        }
    }

    /// The neighbors of `e` with the predicate of the edge: leaving edges
    /// first, then entering ones.
    pub open spec fn neighbors(&self, e: Seq<char>) -> Seq<(Seq<char>, Seq<char>)> {
        self.out_of(e) + self.in_of(e)
    }

    /// Each adjacency list and the document map have distinct keys.
    pub closed spec fn wf(&self) -> bool {
        &&& no_repeats(keys_of(self.outgoing@))
        &&& no_repeats(keys_of(self.incoming@))
        &&& no_repeats(keys_of(self.entity_docs@))
        &&& forall|e: Seq<char>, q: int|
            0 <= q < self.neighbors(e).len() ==> self.in_graph(#[trigger] self.neighbors(e)[q].1)
    }

    /// Builds the adjacency of the triples in both directions and the map
    /// from entities to documents (the last pair for an entity winning).
    pub fn new(triples: Vec<Triple>, entity_docs: Vec<(String, Vec<String>)>) -> (g: Self)
        ensures
            g.wf(),
            forall|e: Seq<char>| #[trigger] g.out_of(e) == out_edges(triples_view(triples@), e),
            forall|e: Seq<char>| #[trigger] g.in_of(e) == in_edges(triples_view(triples@), e),
            forall|e: Seq<char>| #[trigger] g.in_graph(e) <==> mentioned(triples_view(triples@), e),
            forall|e: Seq<char>|
                #[trigger] g.docs_of(e) == match docs_lookup(entity_docs_view(entity_docs@), e) {
                    Some(d) => d,
                    None => Seq::<Seq<char>>::empty(),
                },
    {
        let ghost tv = triples_view(triples@);
        let mut outgoing: Vec<(String, Vec<(String, String)>)> = Vec::new();
        let mut incoming: Vec<(String, Vec<(String, String)>)> = Vec::new();
        let mut k: usize = 0;
        proof {
            assert(tv.take(0) =~= Seq::<(Seq<char>, Seq<char>, Seq<char>)>::empty());
            assert forall|e: Seq<char>| #[trigger] adjacency(outgoing@, e) == out_edges(tv.take(0), e)
                by {}
            assert forall|e: Seq<char>| #[trigger] adjacency(incoming@, e) == in_edges(tv.take(0), e)
                by {}
        }
        while k < triples.len()
            invariant
                k <= triples@.len(),
                tv == triples_view(triples@),
                no_repeats(keys_of(outgoing@)),
                no_repeats(keys_of(incoming@)),
                forall|e: Seq<char>| #[trigger] adjacency(outgoing@, e) == out_edges(tv.take(k as int), e),
                forall|e: Seq<char>| #[trigger] adjacency(incoming@, e) == in_edges(tv.take(k as int), e),
                forall|e: Seq<char>|
                    #[trigger] in_either(outgoing@, incoming@, e) <==> mentioned(tv.take(k as int), e),
            decreases triples@.len() - k,
        {
            let t = &triples[k];
            let ghost tk = tv[k as int];
            let ghost old_out = outgoing@;
            let ghost old_in = incoming@;
            add_edge(&mut outgoing, t.subject.as_str(), t.predicate.as_str(), t.object.as_str());
            add_edge(&mut incoming, t.object.as_str(), t.predicate.as_str(), t.subject.as_str());
            proof {
                let next = tv.take(k + 1);
                let prev = tv.take(k as int);
                assert(next.drop_last() =~= prev);
                assert(next.last() == tk);
                assert forall|e: Seq<char>| #[trigger] adjacency(outgoing@, e) == out_edges(next, e) by {}
                assert forall|e: Seq<char>| #[trigger] adjacency(incoming@, e) == in_edges(next, e) by {}
                assert forall|e: Seq<char>|
                    #[trigger] in_either(outgoing@, incoming@, e) <==> mentioned(next, e) by {
                    assert(keys_of(outgoing@).contains(e) <==> keys_of(old_out).contains(e) || e == tk.0);
                    assert(keys_of(incoming@).contains(e) <==> keys_of(old_in).contains(e) || e == tk.2);
                    assert(in_either(old_out, old_in, e) <==> mentioned(prev, e));
                    lemma_mentioned_step(tv, k as int, e);
                }
            }
            k = k + 1;
        }
        assert(tv.take(k as int) =~= tv);
        let ghost dv = entity_docs_view(entity_docs@);
        let ghost all = entity_docs@;
        let n_pairs = entity_docs.len();
        let mut docs_map: Vec<(String, Vec<String>)> = Vec::new();
        let mut entries = entity_docs;
        let mut k: usize = 0;
        proof {
            assert(dv.take(0) =~= Seq::<(Seq<char>, Seq<Seq<char>>)>::empty());
            assert(all.skip(0) =~= all);
        }
        assert(all.len() == n_pairs);
        while entries.len() > 0
            invariant
                k <= all.len(),
                all.len() <= usize::MAX,
                entries@ == all.skip(k as int),
                dv == entity_docs_view(all),
                no_repeats(keys_of(docs_map@)),
                forall|e: Seq<char>| #[trigger] doc_list(docs_map@, e) == docs_lookup(dv.take(k as int), e),
            decreases entries@.len(),
        {
            let p = entries.remove(0);
            assert(p == all[k as int]);
            assert(entries@ =~= all.skip(k + 1));
            set_docs(&mut docs_map, p.0, p.1);
            proof {
                let next = dv.take(k + 1);
                assert(next.drop_last() =~= dv.take(k as int));
                assert(next.last() == dv[k as int]);
                assert(dv[k as int] == (all[k as int].0@, strings_view(all[k as int].1@)));
            }
            k = k + 1;
        }
        assert(k == all.len());
        assert(dv.take(k as int) =~= dv);
        let g = GraphIndex { outgoing, incoming, entity_docs: docs_map };
        proof {
            assert forall|e: Seq<char>, q: int|
                0 <= q < g.neighbors(e).len() implies g.in_graph(#[trigger] g.neighbors(e)[q].1) by {
                let outs = g.out_of(e);
                if q < outs.len() {
                    assert(g.neighbors(e)[q] == outs[q]);
                    lemma_out_edges_mentioned(tv, e, q);
                } else {
                    assert(g.neighbors(e)[q] == g.in_of(e)[q - outs.len()]);
                    lemma_in_edges_mentioned(tv, e, q - outs.len());
                }
            }
        }
        g
    }

    /// The documents linked to `entity`, empty when it has none.
    pub fn get_entity_docs(&self, entity: &str) -> (docs: &[String])
        requires
            self.wf(),
        ensures
            strings_view(docs@) == self.docs_of(entity@),
    {
        match find_key(&self.entity_docs, entity) {
            Some(i) => {
                proof {
                    lemma_doc_list_at(self.entity_docs@, i as int);
                }
                self.entity_docs[i].1.as_slice()
            },
            None => {
                let empty: &[String] = &[];
                assert(strings_view(empty@) =~= Seq::<Seq<char>>::empty());
                empty
            },
        }
    }
}

/// The targets of the edges out of `e` are mentioned by the triples.
proof fn lemma_out_edges_mentioned(ts: Seq<(Seq<char>, Seq<char>, Seq<char>)>, e: Seq<char>, q: int)
    requires
        0 <= q < out_edges(ts, e).len(),
    ensures
        mentioned(ts, out_edges(ts, e)[q].1),
    decreases ts.len(),
{
    let init = ts.drop_last();
    let prev = out_edges(init, e);
    if q < prev.len() {
        if ts.last().0 == e {
            assert(out_edges(ts, e)[q] == prev[q]);
        }
        lemma_out_edges_mentioned(init, e, q);
        let j = choose|j: int| 0 <= j < init.len() && mentions(#[trigger] init[j], prev[q].1);
        assert(ts[j] == init[j]);
    } else {
        assert(mentions(ts[ts.len() - 1], out_edges(ts, e)[q].1));
    }
}

/// The sources of the edges into `e` are mentioned by the triples.
proof fn lemma_in_edges_mentioned(ts: Seq<(Seq<char>, Seq<char>, Seq<char>)>, e: Seq<char>, q: int)
    requires
        0 <= q < in_edges(ts, e).len(),
    ensures
        mentioned(ts, in_edges(ts, e)[q].1),
    decreases ts.len(),
{
    let init = ts.drop_last();
    let prev = in_edges(init, e);
    if q < prev.len() {
        if ts.last().2 == e {
            assert(in_edges(ts, e)[q] == prev[q]);
        }
        lemma_in_edges_mentioned(init, e, q);
        let j = choose|j: int| 0 <= j < init.len() && mentions(#[trigger] init[j], prev[q].1);
        assert(ts[j] == init[j]);
    } else {
        assert(mentions(ts[ts.len() - 1], in_edges(ts, e)[q].1));
    }
}

/// The adjacency is bidirectional: `b` is reached from `a` over predicate
/// `p` exactly when `a` is reached from `b` backwards over `p`, and both
/// hold exactly when some triple is (a, p, b).
pub proof fn law_adjacency_bidirectional(
    ts: Seq<(Seq<char>, Seq<char>, Seq<char>)>,
    a: Seq<char>,
    p: Seq<char>,
    b: Seq<char>,
)
    ensures
        out_edges(ts, a).contains((p, b)) <==> ts.contains((a, p, b)),
        in_edges(ts, b).contains((p, a)) <==> ts.contains((a, p, b)),
    decreases ts.len(),
{
    if ts.len() > 0 {
        let prev = ts.drop_last();
        law_adjacency_bidirectional(prev, a, p, b);
        let t = ts.last();
        assert(ts =~= prev.push(t));
        if prev.contains((a, p, b)) {
            let j = choose|j: int| 0 <= j < prev.len() && prev[j] == (a, p, b);
            assert(ts[j] == (a, p, b));
        }
        if ts.contains((a, p, b)) {
            let j = choose|j: int| 0 <= j < ts.len() && ts[j] == (a, p, b);
            if j < prev.len() {
                assert(prev[j] == (a, p, b));
            }
        }
        let po = out_edges(prev, a);
        if out_edges(ts, a).contains((p, b)) && !po.contains((p, b)) {
            let q = choose|q: int| 0 <= q < out_edges(ts, a).len() && out_edges(ts, a)[q] == (p, b);
            if t.0 == a {
                if q < po.len() {
                    assert(po[q] == (p, b));
                }
            }
            assert(t == (a, p, b));
        }
        if po.contains((p, b)) && t.0 == a {
            let q = choose|q: int| 0 <= q < po.len() && po[q] == (p, b);
            assert(out_edges(ts, a)[q] == (p, b));
        }
        if t == (a, p, b) {
            assert(out_edges(ts, a)[po.len() as int] == (p, b));
        }
        let pi = in_edges(prev, b);
        if in_edges(ts, b).contains((p, a)) && !pi.contains((p, a)) {
            let q = choose|q: int| 0 <= q < in_edges(ts, b).len() && in_edges(ts, b)[q] == (p, a);
            if t.2 == b {
                if q < pi.len() {
                    assert(pi[q] == (p, a));
                }
            }
            assert(t == (a, p, b));
        }
        if pi.contains((p, a)) && t.2 == b {
            let q = choose|q: int| 0 <= q < pi.len() && pi[q] == (p, a);
            assert(in_edges(ts, b)[q] == (p, a));
        }
        if t == (a, p, b) {
            assert(in_edges(ts, b)[pi.len() as int] == (p, a));
        }
    }
}

/// One entity that a graph search reaches: its name, the number of hops at
/// which it was first reached, and a snippet naming the edge it was reached
/// by.
pub struct GraphHit {
    pub id: String,
    pub hops: usize,
    pub snippet: String,
}

/// The (id, hops, snippet) views of hits.
pub open spec fn hits_view(hs: Seq<GraphHit>) -> Seq<(Seq<char>, usize, Seq<char>)> {
    hs.map_values(|h: GraphHit| (h.id@, h.hops, h.snippet@))
}

/// The text of an edge `from --predicate--> to`, followed by the documents
/// of `to` when they join to a nonempty text.
pub open spec fn edge_snippet(from: Seq<char>, predicate: Seq<char>, to: Seq<char>, docs: Seq<Seq<char>>) -> Seq<char> {
    let d = join(docs, seq![',', ' ']);
    let base = from + seq![' ', '-', '-'] + predicate + seq!['-', '-', '>', ' '] + to;
    if d.len() == 0 {
        base
    } else {
        base + seq![' ', '(', 'd', 'o', 'c', 's', ':', ' '] + d + seq![')']
    }
}

/// The ids of hits are distinct and differ from the seed.
pub open spec fn hits_distinct(seed: Seq<char>, hs: Seq<(Seq<char>, usize, Seq<char>)>) -> bool {
    &&& forall|i: int| 0 <= i < hs.len() ==> #[trigger] hs[i].0 != seed
    &&& forall|i: int, j: int| 0 <= i < j < hs.len() ==> hs[i].0 != hs[j].0
}

/// `x` is the seed or the id of a hit.
pub open spec fn visited(seed: Seq<char>, hs: Seq<(Seq<char>, usize, Seq<char>)>, x: Seq<char>) -> bool {
    x == seed || exists|i: int| 0 <= i < hs.len() && #[trigger] hs[i].0 == x
}

impl GraphIndex {
    /// Hit `i` was reached over an edge of `p` with the right snippet.
    pub open spec fn reached_from(&self, p: Seq<char>, h: (Seq<char>, usize, Seq<char>)) -> bool {
        self.reached_via(p, self.neighbors(p), h)
    }

    /// `h` was reached over one of the edges `es` leaving `p`, with the
    /// snippet of that edge.
    pub open spec fn reached_via(
        &self,
        p: Seq<char>,
        es: Seq<(Seq<char>, Seq<char>)>,
        h: (Seq<char>, usize, Seq<char>),
    ) -> bool {
        exists|q: int|
            0 <= q < es.len() && #[trigger] es[q].1 == h.0 && h.2 == edge_snippet(p, es[q].0, h.0, self.docs_of(h.0))
    }

    /// The first `top_k` hits of the breadth-first search from `seed` over
    /// at most `hops` hops: the last of its states, which has the shape that
    /// `bfs_result` describes.
    pub open spec fn search_result(
        &self,
        seed: Seq<char>,
        hops: usize,
        top_k: usize,
        hs: Seq<(Seq<char>, usize, Seq<char>)>,
    ) -> bool {
        exists|states: Seq<Seq<(Seq<char>, usize, Seq<char>)>>|
            #[trigger] self.bfs_trace(seed, hops, states) && self.bfs_result(seed, hops, states.last()) && hs
                == states.last().take(
                if top_k < states.last().len() {
                    top_k as int
                } else {
                    states.last().len() as int
                },
            )
    }

    /// What a breadth-first search from `seed` over at most `hops` hops (at
    /// least one) finds, in the order found: distinct entities other than
    /// the seed, with hop counts that never decrease, each reached from the
    /// seed (at hop 1) or from an earlier hit one hop closer; every neighbor
    /// of the seed is found at hop 1, and every neighbor of a hit closer
    /// than `hops` is found at most one hop further.
    pub open spec fn bfs_result(&self, seed: Seq<char>, hops: usize, hs: Seq<(Seq<char>, usize, Seq<char>)>) -> bool {
        &&& hits_distinct(seed, hs)
        &&& forall|i: int|
            0 <= i < hs.len() ==> 1 <= #[trigger] hs[i].1 && (hs[i].1 <= hops || hs[i].1 == 1)
        &&& forall|i: int, j: int| 0 <= i < j < hs.len() ==> #[trigger] hs[i].1 <= #[trigger] hs[j].1
        &&& forall|i: int|
            0 <= i < hs.len() ==> (#[trigger] hs[i].1 == 1 && self.reached_from(seed, hs[i])) || (
            hs[i].1 > 1 && exists|j: int|
                0 <= j < i && hs[j].1 + 1 == hs[i].1 && self.reached_from(hs[j].0, hs[i]))
        &&& forall|q: int|
            0 <= q < self.neighbors(seed).len() ==> #[trigger] self.neighbors(seed)[q].1 == seed
                || exists|i: int| 0 <= i < hs.len() && hs[i].0 == self.neighbors(seed)[q].1 && hs[i].1 == 1
        &&& forall|i: int, q: int|
            0 <= i < hs.len() && hs[i].1 < hops && 0 <= q < self.neighbors(hs[i].0).len() ==> #[trigger] self.neighbors(
                hs[i].0,
            )[q].1 == seed || exists|j: int|
                0 <= j < hs.len() && hs[j].0 == self.neighbors(hs[i].0)[q].1 && hs[j].1 <= hs[i].1 + 1
    }
}

impl GraphIndex {
    /// `acc` after recording, at `hop`, the target of each edge of `es`
    /// (edges leaving `from`, in order) that is neither the seed nor already
    /// recorded, with the snippet of that edge.
    pub open spec fn visit_spec(
        &self,
        from: Seq<char>,
        es: Seq<(Seq<char>, Seq<char>)>,
        hop: usize,
        seed: Seq<char>,
        acc: Seq<(Seq<char>, usize, Seq<char>)>,
    ) -> Seq<(Seq<char>, usize, Seq<char>)>
        decreases es.len(),
    {
        if es.len() == 0 {
            acc
        } else {
            let prev = self.visit_spec(from, es.drop_last(), hop, seed, acc);
            let nb = es.last().1;
            if visited(seed, prev, nb) {
                prev
            } else {
                prev.push((nb, hop, edge_snippet(from, es.last().0, nb, self.docs_of(nb))))
            }
        }
    }

    /// One step of the search: hit `qi` is expanded (its neighbors recorded
    /// one hop further) when its hop count is below `hops`.
    pub open spec fn bfs_step(
        &self,
        seed: Seq<char>,
        hops: usize,
        acc: Seq<(Seq<char>, usize, Seq<char>)>,
        qi: int,
    ) -> Seq<(Seq<char>, usize, Seq<char>)> {
        if acc[qi].1 < hops {
            self.visit_spec(acc[qi].0, self.neighbors(acc[qi].0), (acc[qi].1 + 1) as usize, seed, acc)
        } else {
            acc
        }
    }

    /// The states of the breadth-first search from `seed`: first the
    /// neighbors of the seed at hop 1, then one step per hit in the order
    /// recorded, until every hit has been handled.
    pub open spec fn bfs_trace(
        &self,
        seed: Seq<char>,
        hops: usize,
        states: Seq<Seq<(Seq<char>, usize, Seq<char>)>>,
    ) -> bool {
        &&& states.len() >= 1
        &&& states[0] == self.visit_spec(seed, self.neighbors(seed), 1, seed, Seq::empty())
        &&& forall|k: int|
            0 <= k < states.len() - 1 ==> k < states[k].len() && #[trigger] states[k + 1] == self.bfs_step(
                seed,
                hops,
                states[k],
                k,
            )
        &&& states.last().len() == states.len() - 1
    }

    /// `b` is a neighbor of `a`, over an edge in either direction.
    pub open spec fn adjacent(&self, a: Seq<char>, b: Seq<char>) -> bool {
        exists|q: int| 0 <= q < self.neighbors(a).len() && #[trigger] self.neighbors(a)[q].1 == b
    }

    /// Each entity of `path` is a neighbor of the one before it.
    pub open spec fn is_path(&self, path: Seq<Seq<char>>) -> bool {
        forall|k: int| 0 <= k < path.len() - 1 ==> #[trigger] self.adjacent(path[k], path[k + 1])
    }

    /// Every entity reached by a breadth-first search is at the end of a
    /// path from the seed with as many steps as its hop count.
    pub proof fn law_bfs_hit_has_path(
        &self,
        seed: Seq<char>,
        hops: usize,
        hs: Seq<(Seq<char>, usize, Seq<char>)>,
        i: int,
    )
        requires
            self.bfs_result(seed, hops, hs),
            0 <= i < hs.len(),
        ensures
            exists|path: Seq<Seq<char>>|
                #[trigger] self.is_path(path) && path.len() == hs[i].1 + 1 && path[0] == seed && path.last()
                    == hs[i].0,
    {
        reveal(GraphIndex::inv_parents);
        assert(self.inv_parents(seed, hs));
        self.lemma_hit_path(seed, hs, i);
    }

    /// A hit whose ancestors are recorded before it ends a path from the
    /// seed with as many steps as its hop count.
    proof fn lemma_hit_path(&self, seed: Seq<char>, hs: Seq<(Seq<char>, usize, Seq<char>)>, i: int)
        requires
            self.inv_parents(seed, hs),
            0 <= i < hs.len(),
        ensures
            exists|path: Seq<Seq<char>>|
                #[trigger] self.is_path(path) && path.len() == hs[i].1 + 1 && path[0] == seed && path.last()
                    == hs[i].0,
        decreases i,
    {
        reveal(GraphIndex::inv_parents);
        if hs[i].1 == 1 && self.reached_from(seed, hs[i]) {
            let path = seq![seed, hs[i].0];
            let q = choose|q: int|
                0 <= q < self.neighbors(seed).len() && #[trigger] self.neighbors(seed)[q].1 == hs[i].0
                    && hs[i].2 == edge_snippet(seed, self.neighbors(seed)[q].0, hs[i].0, self.docs_of(hs[i].0));
            assert(self.adjacent(path[0], path[1]));
            assert(self.is_path(path));
            assert(path.len() == hs[i].1 + 1 && path[0] == seed && path.last() == hs[i].0);
        } else {
            let j = choose|j: int| 0 <= j < i && hs[j].1 + 1 == hs[i].1 && self.reached_from(hs[j].0, hs[i]);
            self.lemma_hit_path(seed, hs, j);
            let pj = choose|path: Seq<Seq<char>>|
                #[trigger] self.is_path(path) && path.len() == hs[j].1 + 1 && path[0] == seed && path.last()
                    == hs[j].0;
            let path = pj.push(hs[i].0);
            let q = choose|q: int|
                0 <= q < self.neighbors(hs[j].0).len() && #[trigger] self.neighbors(hs[j].0)[q].1 == hs[i].0
                    && hs[i].2 == edge_snippet(hs[j].0, self.neighbors(hs[j].0)[q].0, hs[i].0, self.docs_of(hs[i].0));
            assert forall|k: int| 0 <= k < path.len() - 1 implies #[trigger] self.adjacent(path[k], path[k + 1]) by {
                if k < pj.len() - 1 {
                    assert(path[k] == pj[k] && path[k + 1] == pj[k + 1]);
                    assert(self.adjacent(pj[k], pj[k + 1]));
                } else {
                    assert(path[k] == hs[j].0 && path[k + 1] == hs[i].0);
                    assert(self.neighbors(hs[j].0)[q].1 == hs[i].0);
                }
            }
            assert(self.is_path(path));
            assert(path.len() == hs[i].1 + 1 && path[0] == seed && path.last() == hs[i].0);
        }
    }

    /// A breadth-first search from the seed over `hops` hops finds every
    /// entity at most `hops` steps away (one step when `hops` is zero),
    /// other than the seed, at a hop count no larger than the steps of any
    /// path to it.
    pub proof fn law_bfs_finds_within_reach(
        &self,
        seed: Seq<char>,
        hops: usize,
        hs: Seq<(Seq<char>, usize, Seq<char>)>,
        path: Seq<Seq<char>>,
    )
        requires
            self.bfs_result(seed, hops, hs),
            self.is_path(path),
            path.len() >= 2,
            path[0] == seed,
            path.len() - 1 <= hops || path.len() == 2,
        ensures
            path.last() == seed || exists|i: int|
                0 <= i < hs.len() && #[trigger] hs[i].0 == path.last() && hs[i].1 <= path.len() - 1,
    {
        self.lemma_reach_step(seed, hops, hs, path, path.len() - 1);
    }

    /// The entity `k` steps along a path from the seed is the seed or a hit
    /// at hop count at most `k`.
    proof fn lemma_reach_step(
        &self,
        seed: Seq<char>,
        hops: usize,
        hs: Seq<(Seq<char>, usize, Seq<char>)>,
        path: Seq<Seq<char>>,
        k: int,
    )
        requires
            self.bfs_result(seed, hops, hs),
            self.is_path(path),
            path[0] == seed,
            1 <= k < path.len(),
            k <= hops || k == 1,
        ensures
            path[k] == seed || exists|i: int| 0 <= i < hs.len() && #[trigger] hs[i].0 == path[k] && hs[i].1 <= k,
        decreases k,
    {
        let m = k - 1;
        assert(self.adjacent(path[m], path[m + 1]));
        let a = path[k - 1];
        let q = choose|q: int| 0 <= q < self.neighbors(a).len() && #[trigger] self.neighbors(a)[q].1 == path[k];
        if k == 1 || a == seed {
            assert(self.neighbors(seed)[q].1 == path[k]);
            if path[k] != seed {
                let i = choose|i: int|
                    0 <= i < hs.len() && hs[i].0 == self.neighbors(seed)[q].1 && hs[i].1 == 1;
                assert(hs[i].0 == path[k]);
            }
        } else {
            self.lemma_reach_step(seed, hops, hs, path, k - 1);
            let i = choose|i: int| 0 <= i < hs.len() && #[trigger] hs[i].0 == a && hs[i].1 <= k - 1;
            assert(hs[i].1 < hops);
            assert(self.neighbors(hs[i].0)[q].1 == path[k]);
            if path[k] != seed {
                let j = choose|j: int|
                    0 <= j < hs.len() && hs[j].0 == self.neighbors(hs[i].0)[q].1 && hs[j].1 <= hs[i].1 + 1;
                assert(hs[j].0 == path[k]);
            }
        }
    }
}

/// Joins texts with ", ".
fn join_docs(docs: &[String]) -> (r: String)
    ensures
        r@ == join(strings_view(docs@), seq![',', ' ']),
{
    let sep = ", ";
    proof {
        reveal_strlit(", ");
        assert(sep@ =~= seq![',', ' ']);
    }
    let ghost dv = strings_view(docs@);
    let mut r = String::new();
    let mut k: usize = 0;
    assert(dv.take(0) =~= Seq::<Seq<char>>::empty());
    while k < docs.len()
        invariant
            k <= docs@.len(),
            dv == strings_view(docs@),
            sep@ == seq![',', ' '],
            r@ == join(dv.take(k as int), seq![',', ' ']),
        decreases docs@.len() - k,
    {
        let ghost before = r@;
        if k > 0 {
            r.append(sep);
        }
        r.append(docs[k].as_str());
        proof {
            let ws = dv.take(k + 1);
            assert(ws.drop_last() =~= dv.take(k as int));
            assert(ws.last() == docs@[k as int]@);
            if k == 0 {
                assert(before =~= Seq::<char>::empty());
                assert(r@ =~= ws[0]);
            } else {
                assert(r@ =~= before + seq![',', ' '] + ws.last());
            }
        }
        k = k + 1;
    }
    assert(dv.take(k as int) =~= dv);
    r
}

/// The edges an adjacency list gives `e`, as a slice.
fn edges_for<'a>(adj: &'a Vec<(String, Vec<(String, String)>)>, e: &str) -> (r: &'a [(String, String)])
    requires
        no_repeats(keys_of(adj@)),
    ensures
        edges_view(r@) == adjacency(adj@, e@),
{
    match find_key(adj, e) {
        Some(i) => {
            proof {
                lemma_adjacency_at(adj@, i as int);
            }
            adj[i].1.as_slice()
        },
        None => {
            let empty: &[(String, String)] = &[];
            assert(edges_view(empty@) =~= Seq::<(Seq<char>, Seq<char>)>::empty());
            empty
        },
    }
}

impl GraphIndex {
    /// The snippet of edge `from --predicate--> to`.
    fn snippet_for(&self, from: &str, predicate: &str, to: &str) -> (r: String)
        requires
            self.wf(),
        ensures
            r@ == edge_snippet(from@, predicate@, to@, self.docs_of(to@)),
    {
        let docs = join_docs(self.get_entity_docs(to));
        let dashes = " --";
        let arrow = "--> ";
        let open = " (docs: ";
        let close = ")";
        proof {
            reveal_strlit(" --");
            reveal_strlit("--> ");
            reveal_strlit(" (docs: ");
            reveal_strlit(")");
        }
        let mut s = String::new();
        s.append(from);
        s.append(dashes);
        s.append(predicate);
        s.append(arrow);
        s.append(to);
        if !docs.as_str().is_empty() {
            s.append(open);
            s.append(docs.as_str());
            s.append(close);
        }
        proof {
            assert(dashes@ =~= seq![' ', '-', '-']);
            assert(arrow@ =~= seq!['-', '-', '>', ' ']);
            assert(open@ =~= seq![' ', '(', 'd', 'o', 'c', 's', ':', ' ']);
            assert(close@ =~= seq![')']);
            assert(s@ =~= edge_snippet(from@, predicate@, to@, self.docs_of(to@)));
        }
        s
    }

    /// Whether `x` is the seed or already a hit.
    fn is_visited(seed: &str, results: &Vec<GraphHit>, x: &str) -> (r: bool)
        ensures
            r == visited(seed@, hits_view(results@), x@),
    {
        if text_eq(seed, x) {
            return true;
        }
        let mut i: usize = 0;
        while i < results.len()
            invariant
                i <= results@.len(),
                forall|j: int| 0 <= j < i ==> hits_view(results@)[j].0 != x@,
            decreases results@.len() - i,
        {
            if text_eq(results[i].id.as_str(), x) {
                assert(hits_view(results@)[i as int].0 == x@);
                return true;
            }
            i = i + 1;
        }
        false
    }

    /// Records, at `hop`, each target of `edges` (leaving `from`) that is not
    /// yet visited.
    fn visit_edges(
        &self,
        from: &str,
        edges: &[(String, String)],
        hop: usize,
        seed: &str,
        results: &mut Vec<GraphHit>,
    )
        requires
            self.wf(),
            hits_distinct(seed@, hits_view(old(results)@)),
        ensures
            hits_view(final(results)@).take(old(results)@.len() as int) == hits_view(old(results)@),
            final(results)@.len() >= old(results)@.len(),
            hits_distinct(seed@, hits_view(final(results)@)),
            forall|i: int|
                old(results)@.len() <= i < final(results)@.len() ==> #[trigger] hits_view(final(results)@)[i].1
                    == hop && self.reached_via(from@, edges_view(edges@), hits_view(final(results)@)[i]),
            forall|q: int|
                0 <= q < edges@.len() ==> #[trigger] visited(
                    seed@,
                    hits_view(final(results)@),
                    edges_view(edges@)[q].1,
                ),
            hits_view(final(results)@) == self.visit_spec(from@, edges_view(edges@), hop, seed@, hits_view(old(results)@)),
    {
        let ghost r0 = hits_view(results@);
        let ghost ev = edges_view(edges@);
        let mut k: usize = 0;
        while k < edges.len()
            invariant
                self.wf(),
                r0 == hits_view(old(results)@),
                hits_view(results@) == self.visit_spec(from@, ev.take(k as int), hop, seed@, r0),
                k <= edges@.len(),
                ev == edges_view(edges@),
                hits_view(results@).take(r0.len() as int) == r0,
                results@.len() >= r0.len(),
                hits_distinct(seed@, hits_view(results@)),
                forall|i: int|
                    r0.len() <= i < results@.len() ==> #[trigger] hits_view(results@)[i].1 == hop
                        && self.reached_via(from@, ev, hits_view(results@)[i]),
                forall|q: int| 0 <= q < k ==> #[trigger] visited(seed@, hits_view(results@), ev[q].1),
            decreases edges@.len() - k,
        {
            let neighbor = edges[k].1.as_str();
            let ghost before = hits_view(results@);
            proof {
                assert(ev.take(k + 1).drop_last() =~= ev.take(k as int));
                assert(ev.take(k + 1).last() == ev[k as int]);
            }
            if !Self::is_visited(seed, results, neighbor) {
                let snippet = self.snippet_for(from, edges[k].0.as_str(), neighbor);
                let hit = GraphHit { id: neighbor.to_owned(), hops: hop, snippet };
                results.push(hit);
                proof {
                    let after = hits_view(results@);
                    assert(after =~= before.push((ev[k as int].1, hop, after[before.len() as int].2)));
                    assert(after.take(r0.len() as int) =~= before.take(r0.len() as int));
                    assert forall|i: int, j: int| 0 <= i < j < after.len() implies after[i].0 != after[j].0 by {
                        if j == before.len() {
                            assert(before[i].0 == after[i].0);
                            if after[i].0 == after[j].0 {
                                assert(visited(seed@, before, ev[k as int].1));
                            }
                        }
                    }
                    assert forall|q: int| 0 <= q < k + 1 implies #[trigger] visited(seed@, after, ev[q].1) by {
                        if q == k {
                            assert(after[before.len() as int].0 == ev[q].1);
                        } else {
                            assert(visited(seed@, before, ev[q].1));
                            if ev[q].1 != seed@ {
                                let i = choose|i: int| 0 <= i < before.len() && #[trigger] before[i].0 == ev[q].1;
                                assert(after[i].0 == ev[q].1);
                            }
                        }
                    }
                    assert forall|i: int|
                        r0.len() <= i < after.len() implies #[trigger] after[i].1 == hop && self.reached_via(
                        from@,
                        ev,
                        after[i],
                    ) by {
                        if i == before.len() {
                            assert(ev[k as int].1 == after[i].0);
                        } else {
                            assert(after[i] == before[i]);
                        }
                    }
                }
            }
            k = k + 1;
        }
        assert(ev.len() == edges@.len());
        assert(r0.len() == old(results)@.len());
        assert(ev.take(ev.len() as int) =~= ev);
    }
}

/// Distinct texts all drawn from `keys` are no more than `keys`.
proof fn lemma_distinct_bound(ids: Seq<Seq<char>>, keys: Seq<Seq<char>>)
    requires
        forall|i: int, j: int| 0 <= i < j < ids.len() ==> ids[i] != ids[j],
        forall|i: int| 0 <= i < ids.len() ==> keys.contains(#[trigger] ids[i]),
    ensures
        ids.len() <= keys.len(),
{
    assert(ids.no_duplicates());
    ids.unique_seq_to_set();
    keys.lemma_cardinality_of_set();
    assert forall|x: Seq<char>| ids.to_set().contains(x) implies keys.to_set().contains(x) by {
        let i = choose|i: int| 0 <= i < ids.len() && ids[i] == x;
        assert(keys.contains(ids[i]));
    }
    vstd::seq_lib::seq_to_set_is_finite(keys);
    vstd::set_lib::lemma_len_subset(ids.to_set(), keys.to_set());
}

/// Visited stays visited as hits are appended.
proof fn lemma_visited_grows(
    seed: Seq<char>,
    hs: Seq<(Seq<char>, usize, Seq<char>)>,
    hs2: Seq<(Seq<char>, usize, Seq<char>)>,
    x: Seq<char>,
)
    requires
        hs.len() <= hs2.len(),
        hs2.take(hs.len() as int) == hs,
        visited(seed, hs, x),
    ensures
        visited(seed, hs2, x),
{
    if x != seed {
        let i = choose|i: int| 0 <= i < hs.len() && #[trigger] hs[i].0 == x;
        assert(hs2.take(hs.len() as int)[i] == hs2[i]);
    }
}

impl GraphIndex {
    /// Visiting two runs of edges one after the other is visiting them
    /// together.
    proof fn lemma_visit_concat(
        &self,
        from: Seq<char>,
        a: Seq<(Seq<char>, Seq<char>)>,
        b: Seq<(Seq<char>, Seq<char>)>,
        hop: usize,
        seed: Seq<char>,
        acc: Seq<(Seq<char>, usize, Seq<char>)>,
    )
        ensures
            self.visit_spec(from, a + b, hop, seed, acc) == self.visit_spec(
                from,
                b,
                hop,
                seed,
                self.visit_spec(from, a, hop, seed, acc),
            ),
        decreases b.len(),
    {
        if b.len() == 0 {
            assert(a + b =~= a);
        } else {
            self.lemma_visit_concat(from, a, b.drop_last(), hop, seed, acc);
            assert((a + b).drop_last() =~= a + b.drop_last());
            assert((a + b).last() == b.last());
        }
    }

    /// Reached over some edges, then over those edges with more beside them.
    proof fn lemma_reached_via_concat(
        &self,
        p: Seq<char>,
        a: Seq<(Seq<char>, Seq<char>)>,
        b: Seq<(Seq<char>, Seq<char>)>,
        h: (Seq<char>, usize, Seq<char>),
    )
        ensures
            self.reached_via(p, a, h) ==> self.reached_via(p, a + b, h),
            self.reached_via(p, b, h) ==> self.reached_via(p, a + b, h),
    {
        if self.reached_via(p, a, h) {
            let q = choose|q: int|
                0 <= q < a.len() && #[trigger] a[q].1 == h.0 && h.2 == edge_snippet(p, a[q].0, h.0, self.docs_of(h.0));
            assert((a + b)[q] == a[q]);
        }
        if self.reached_via(p, b, h) {
            let q = choose|q: int|
                0 <= q < b.len() && #[trigger] b[q].1 == h.0 && h.2 == edge_snippet(p, b[q].0, h.0, self.docs_of(h.0));
            assert((a + b)[a.len() + q] == b[q]);
        }
    }

    /// Records, at `hop`, each neighbor of `current` not yet visited.
    fn expand(&self, current: &str, hop: usize, seed: &str, results: &mut Vec<GraphHit>)
        requires
            self.wf(),
            hits_distinct(seed@, hits_view(old(results)@)),
        ensures
            hits_view(final(results)@).take(old(results)@.len() as int) == hits_view(old(results)@),
            final(results)@.len() >= old(results)@.len(),
            hits_distinct(seed@, hits_view(final(results)@)),
            forall|i: int|
                old(results)@.len() <= i < final(results)@.len() ==> #[trigger] hits_view(final(results)@)[i].1
                    == hop && self.reached_from(current@, hits_view(final(results)@)[i]),
            forall|q: int|
                0 <= q < self.neighbors(current@).len() ==> #[trigger] visited(
                    seed@,
                    hits_view(final(results)@),
                    self.neighbors(current@)[q].1,
                ),
            hits_view(final(results)@) == self.visit_spec(
                current@,
                self.neighbors(current@),
                hop,
                seed@,
                hits_view(old(results)@),
            ),
    {
        let ghost r0 = hits_view(results@);
        let outs = edges_for(&self.outgoing, current);
        let ins = edges_for(&self.incoming, current);
        let ghost ov = edges_view(outs@);
        let ghost iv = edges_view(ins@);
        assert(self.neighbors(current@) == ov + iv);
        self.visit_edges(current, outs, hop, seed, results);
        let ghost r1 = hits_view(results@);
        self.visit_edges(current, ins, hop, seed, results);
        let ghost r2 = hits_view(results@);
        proof {
            let nb = self.neighbors(current@);
            assert(r2.take(r0.len() as int) =~= r1.take(r1.len() as int).take(r0.len() as int));
            assert forall|i: int| r0.len() <= i < r2.len() implies #[trigger] r2[i].1 == hop
                && self.reached_from(current@, r2[i]) by {
                if i < r1.len() {
                    assert(r2.take(r1.len() as int)[i] == r2[i]);
                    assert(r1[i] == r2[i]);
                    assert(r1[i].1 == hop);
                    self.lemma_reached_via_concat(current@, ov, iv, r2[i]);
                } else {
                    assert(r2[i].1 == hop);
                    self.lemma_reached_via_concat(current@, ov, iv, r2[i]);
                }
            }
            assert forall|q: int| 0 <= q < nb.len() implies #[trigger] visited(seed@, r2, nb[q].1) by {
                if q < ov.len() {
                    assert(nb[q] == ov[q]);
                    assert(visited(seed@, r1, ov[q].1));
                    lemma_visited_grows(seed@, r1, r2, ov[q].1);
                } else {
                    assert(nb[q] == iv[q - ov.len()]);
                    assert(visited(seed@, r2, iv[q - ov.len()].1));
                }
            }
            assert(r2 == hits_view(results@));
            assert(r0.len() == old(results)@.len());
            self.lemma_visit_concat(current@, ov, iv, hop, seed@, r0);
        }
    }

    /// Breadth-first search from `entity` over at most `hops` hops (at least
    /// one), keeping the first `top_k` entities found, in the order found.
    /// Each entity is recorded once, with its hop count (on which the caller
    /// bases its hop decay) and the snippet of the first edge that reaches
    /// it; neighbors are taken leaving edges first, each list in insertion
    /// order.
    pub fn search(&self, entity: &str, hops: usize, top_k: usize) -> (hits: Vec<GraphHit>)
        requires
            self.wf(),
        ensures
            !self.in_graph(entity@) ==> hits@.len() == 0,
            self.search_result(entity@, hops, top_k, hits_view(hits@)),
    {
        let ghost seed = entity@;
        let ghost all_keys = keys_of(self.outgoing@) + keys_of(self.incoming@);
        let in_out = find_key(&self.outgoing, entity);
        let in_in = find_key(&self.incoming, entity);
        if in_out.is_none() && in_in.is_none() {
            let empty: Vec<GraphHit> = Vec::new();
            proof {
                assert(!keys_of(self.outgoing@).contains(seed)) by {
                    if keys_of(self.outgoing@).contains(seed) {
                        let i = choose|i: int| 0 <= i < keys_of(self.outgoing@).len() && keys_of(self.outgoing@)[i] == seed;
                        assert(self.outgoing@[i].0@ == seed);
                    }
                }
                assert(!keys_of(self.incoming@).contains(seed)) by {
                    if keys_of(self.incoming@).contains(seed) {
                        let i = choose|i: int| 0 <= i < keys_of(self.incoming@).len() && keys_of(self.incoming@)[i] == seed;
                        assert(self.incoming@[i].0@ == seed);
                    }
                }
                assert(self.out_of(seed).len() == 0);
                assert(self.in_of(seed).len() == 0);
                let full = Seq::<(Seq<char>, usize, Seq<char>)>::empty();
                assert(hits_view(empty@) =~= full.take(0));
                assert(self.bfs_result(seed, hops, full));
                assert(self.neighbors(seed) =~= Seq::<(Seq<char>, Seq<char>)>::empty());
                let states = seq![full];
                assert(states.last() == full);
                assert(self.bfs_trace(seed, hops, states));
            }
            return empty;
        }
        proof {
            if in_out.is_some() {
                let i = in_out.unwrap();
                assert(keys_of(self.outgoing@)[i as int] == seed);
            } else {
                let i = in_in.unwrap();
                assert(keys_of(self.incoming@)[i as int] == seed);
            }
            assert(self.in_graph(seed));
        }
        let mut results: Vec<GraphHit> = Vec::new();
        assert(hits_view(results@) =~= Seq::<(Seq<char>, usize, Seq<char>)>::empty());
        self.expand(entity, 1, entity, &mut results);
        proof {
            let hs = hits_view(results@);
            assert(hs.take(0) =~= Seq::<(Seq<char>, usize, Seq<char>)>::empty());
            assert forall|i: int| 0 <= i < hs.len() implies #[trigger] hs[i].1 == 1 && self.reached_from(
                seed,
                hs[i],
            ) by {
                assert(hits_view(results@)[i].1 == 1);
            }
            self.lemma_bfs_start(seed, hops, hs, all_keys);
        }
        let ghost first = hits_view(results@);
        let ghost mut states: Seq<Seq<(Seq<char>, usize, Seq<char>)>> = seq![first];
        let mut qi: usize = 0;
        while qi < results.len()
            invariant
                self.wf(),
                seed == entity@,
                all_keys == keys_of(self.outgoing@) + keys_of(self.incoming@),
                qi <= results@.len(),
                self.bfs_inv(seed, hops, hits_view(results@), qi as int, all_keys),
                first == self.visit_spec(seed, self.neighbors(seed), 1, seed, Seq::empty()),
                states.len() == qi + 1,
                states[0] == first,
                states.last() == hits_view(results@),
                forall|k: int| 0 <= k < states.len() - 1 ==> k < #[trigger] states[k].len(),
                forall|k: int|
                    0 <= k < states.len() - 1 ==> #[trigger] states[k + 1] == self.bfs_step(seed, hops, states[k], k),
            decreases all_keys.len() - qi,
        {
            proof {
                self.lemma_bfs_bound(seed, hops, hits_view(results@), qi as int, all_keys);
            }
            let h = results[qi].hops;
            let ghost before = hits_view(results@);
            assert(before.len() == results@.len());
            if h < hops {
                let current = results[qi].id.clone();
                assert(current@ == before[qi as int].0);
                self.expand(current.as_str(), h + 1, entity, &mut results);
                proof {
                    self.lemma_bfs_step(seed, hops, before, hits_view(results@), qi as int, all_keys);
                }
            } else {
                proof {
                    self.lemma_bfs_skip(seed, hops, before, qi as int, all_keys);
                }
            }
            proof {
                assert(hits_view(results@) == self.bfs_step(seed, hops, before, qi as int));
                let old_states = states;
                states = states.push(hits_view(results@));
                assert forall|k: int| 0 <= k < states.len() - 1 implies k < #[trigger] states[k].len() by {
                    if k < old_states.len() - 1 {
                        assert(states[k] == old_states[k]);
                    } else {
                        assert(states[k] == before);
                    }
                }
                assert forall|k: int| 0 <= k < states.len() - 1 implies #[trigger] states[k + 1] == self.bfs_step(
                    seed,
                    hops,
                    states[k],
                    k,
                ) by {
                    if k < old_states.len() - 1 {
                        assert(states[k] == old_states[k] && states[k + 1] == old_states[k + 1]);
                    } else {
                        assert(states[k] == before);
                    }
                }
            }
            qi = qi + 1;
        }
        let ghost full = hits_view(results@);
        proof {
            assert forall|k: int| 0 <= k < states.len() - 1 implies k < states[k].len() && #[trigger] states[k + 1]
                == self.bfs_step(seed, hops, states[k], k) by {
                assert(k < states[k].len());
            }
            assert(self.bfs_trace(seed, hops, states));
        }
        results.truncate(top_k);
        proof {
            self.lemma_bfs_done(seed, hops, full, all_keys);
            if top_k < full.len() {
                assert(hits_view(results@) =~= full.take(top_k as int));
            } else {
                assert(hits_view(results@) =~= full.take(full.len() as int));
            }
        }
        results
    }
}

/// In either adjacency list exactly when among their keys together.
proof fn lemma_in_either_keys(
    a: Seq<(String, Vec<(String, String)>)>,
    b: Seq<(String, Vec<(String, String)>)>,
    e: Seq<char>,
)
    ensures
        in_either(a, b, e) <==> (keys_of(a) + keys_of(b)).contains(e),
{
    let ka = keys_of(a);
    let kb = keys_of(b);
    let k = ka + kb;
    if ka.contains(e) {
        let i = choose|i: int| 0 <= i < ka.len() && ka[i] == e;
        assert(k[i] == e);
    }
    if kb.contains(e) {
        let i = choose|i: int| 0 <= i < kb.len() && kb[i] == e;
        assert(k[ka.len() + i] == e);
    }
    if k.contains(e) {
        let i = choose|i: int| 0 <= i < k.len() && k[i] == e;
        if i < ka.len() {
            assert(ka[i] == e);
        } else {
            assert(kb[i - ka.len()] == e);
        }
    }
}

/// Hop counts are at least one and at most `hops`, but for the first level.
#[verifier::opaque]
spec fn inv_hops(hops: usize, hs: Seq<(Seq<char>, usize, Seq<char>)>) -> bool {
    forall|i: int| 0 <= i < hs.len() ==> 1 <= #[trigger] hs[i].1 && (hs[i].1 <= hops || hs[i].1 == 1)
}

/// Hop counts never decrease.
#[verifier::opaque]
spec fn inv_sorted(hs: Seq<(Seq<char>, usize, Seq<char>)>) -> bool {
    forall|i: int, j: int| 0 <= i < j < hs.len() ==> #[trigger] hs[i].1 <= #[trigger] hs[j].1
}

/// The hits from position `qi` on are at most one hop beyond any hit.
#[verifier::opaque]
spec fn inv_frontier(hs: Seq<(Seq<char>, usize, Seq<char>)>, qi: int) -> bool {
    forall|i: int, j: int|
        #![trigger hs[i], hs[j]]
        qi <= i < hs.len() && 0 <= j < hs.len() ==> hs[j].1 <= hs[i].1 + 1
}

/// Every hit is one of `keys`.
#[verifier::opaque]
spec fn inv_keys(hs: Seq<(Seq<char>, usize, Seq<char>)>, keys: Seq<Seq<char>>) -> bool {
    forall|i: int| 0 <= i < hs.len() ==> keys.contains(#[trigger] hs[i].0)
}

/// The hits `after` extend `before` with hits one hop beyond hit `qi`,
/// reached from it, and leave no neighbor of it unvisited.
spec fn extends_from(
    g: GraphIndex,
    seed: Seq<char>,
    before: Seq<(Seq<char>, usize, Seq<char>)>,
    after: Seq<(Seq<char>, usize, Seq<char>)>,
    qi: int,
) -> bool {
    &&& after.len() >= before.len()
    &&& after.take(before.len() as int) == before
    &&& hits_distinct(seed, after)
    &&& forall|i: int|
        before.len() <= i < after.len() ==> #[trigger] after[i].1 == before[qi].1 + 1 && g.reached_from(
            before[qi].0,
            after[i],
        )
    &&& forall|q: int|
        0 <= q < g.neighbors(before[qi].0).len() ==> #[trigger] visited(seed, after, g.neighbors(before[qi].0)[q].1)
}

/// An extension keeps the earlier hits in place.
proof fn lemma_extends_prefix(
    g: GraphIndex,
    seed: Seq<char>,
    before: Seq<(Seq<char>, usize, Seq<char>)>,
    after: Seq<(Seq<char>, usize, Seq<char>)>,
    qi: int,
)
    requires
        extends_from(g, seed, before, after, qi),
    ensures
        forall|i: int| 0 <= i < before.len() ==> #[trigger] after[i] == before[i],
{
    assert forall|i: int| 0 <= i < before.len() implies #[trigger] after[i] == before[i] by {
        assert(after.take(before.len() as int)[i] == after[i]);
    }
}

/// Hop bounds, their order and the frontier after an expansion.
proof fn lemma_step_order(
    g: GraphIndex,
    seed: Seq<char>,
    hops: usize,
    before: Seq<(Seq<char>, usize, Seq<char>)>,
    after: Seq<(Seq<char>, usize, Seq<char>)>,
    qi: int,
)
    requires
        0 <= qi < before.len(),
        before[qi].1 < hops,
        inv_hops(hops, before),
        inv_sorted(before),
        inv_frontier(before, qi),
        extends_from(g, seed, before, after, qi),
    ensures
        inv_hops(hops, after),
        inv_sorted(after),
        inv_frontier(after, qi + 1),
{
    reveal(inv_hops);
    reveal(inv_sorted);
    reveal(inv_frontier);
    lemma_extends_prefix(g, seed, before, after, qi);
    let n0 = before.len() as int;
    assert(after[qi] == before[qi]);
    assert forall|i: int| 0 <= i < after.len() implies 1 <= #[trigger] after[i].1 && (after[i].1 <= hops
        || after[i].1 == 1) by {
        if i < n0 {
            assert(after[i] == before[i]);
        } else {
            assert(1 <= before[qi].1);
        }
    }
    assert forall|i: int, j: int| 0 <= i < j < after.len() implies #[trigger] after[i].1 <= #[trigger] after[j].1 by {
        if j < n0 {
            assert(after[i] == before[i] && after[j] == before[j]);
        } else if i < n0 {
            assert(after[i] == before[i]);
            assert(before[i].1 <= before[qi].1 + 1);
        }
    }
    assert forall|i: int, j: int|
        #![trigger after[i], after[j]]
        qi + 1 <= i < after.len() && 0 <= j < after.len() implies after[j].1 <= after[i].1 + 1 by {
        if j < n0 {
            assert(after[j] == before[j]);
            assert(before[j].1 <= before[qi].1 + 1);
        }
        if i < n0 {
            assert(after[i] == before[i]);
            assert(before[qi].1 <= before[i].1);
        }
    }
}

/// Every hit is one of `keys` after an expansion.
proof fn lemma_step_keys(
    g: GraphIndex,
    seed: Seq<char>,
    before: Seq<(Seq<char>, usize, Seq<char>)>,
    after: Seq<(Seq<char>, usize, Seq<char>)>,
    qi: int,
    all_keys: Seq<Seq<char>>,
)
    requires
        g.wf(),
        all_keys == keys_of(g.outgoing@) + keys_of(g.incoming@),
        0 <= qi < before.len(),
        inv_keys(before, all_keys),
        extends_from(g, seed, before, after, qi),
    ensures
        inv_keys(after, all_keys),
{
    reveal(inv_keys);
    lemma_extends_prefix(g, seed, before, after, qi);
    assert forall|i: int| 0 <= i < after.len() implies all_keys.contains(#[trigger] after[i].0) by {
        if i < before.len() {
            assert(after[i] == before[i]);
        } else {
            assert(after[i].1 == before[qi].1 + 1);
            g.lemma_reached_in_keys(before[qi].0, after[i]);
        }
    }
}

impl GraphIndex {
    /// Each hit is reached from the seed at hop one, or from an earlier hit
    /// one hop closer.
    #[verifier::opaque]
    spec fn inv_parents(&self, seed: Seq<char>, hs: Seq<(Seq<char>, usize, Seq<char>)>) -> bool {
        forall|i: int|
            0 <= i < hs.len() ==> (#[trigger] hs[i].1 == 1 && self.reached_from(seed, hs[i])) || (hs[i].1 > 1
                && exists|j: int| 0 <= j < i && hs[j].1 + 1 == hs[i].1 && self.reached_from(hs[j].0, hs[i]))
    }

    /// Every neighbor of the seed is a hit at hop one.
    #[verifier::opaque]
    spec fn inv_seed(&self, seed: Seq<char>, hs: Seq<(Seq<char>, usize, Seq<char>)>) -> bool {
        forall|q: int|
            0 <= q < self.neighbors(seed).len() ==> #[trigger] self.neighbors(seed)[q].1 == seed || exists|i: int|
                0 <= i < hs.len() && hs[i].0 == self.neighbors(seed)[q].1 && hs[i].1 == 1
    }

    /// Every neighbor of the first `qi` hits closer than `hops` is a hit at
    /// most one hop further.
    #[verifier::opaque]
    spec fn inv_expanded(&self, seed: Seq<char>, hops: usize, hs: Seq<(Seq<char>, usize, Seq<char>)>, qi: int) -> bool {
        forall|i: int, q: int|
            0 <= i < qi && hs[i].1 < hops && 0 <= q < self.neighbors(hs[i].0).len() ==> #[trigger] self.neighbors(
                hs[i].0,
            )[q].1 == seed || exists|j: int|
                0 <= j < hs.len() && hs[j].0 == self.neighbors(hs[i].0)[q].1 && hs[j].1 <= hs[i].1 + 1
    }

    /// The state of the breadth-first search after expanding the first `qi`
    /// hits.
    #[verifier::opaque]
    spec fn bfs_inv(
        &self,
        seed: Seq<char>,
        hops: usize,
        hs: Seq<(Seq<char>, usize, Seq<char>)>,
        qi: int,
        all_keys: Seq<Seq<char>>,
    ) -> bool {
        &&& 0 <= qi <= hs.len()
        &&& hits_distinct(seed, hs)
        &&& inv_hops(hops, hs)
        &&& inv_sorted(hs)
        &&& self.inv_parents(seed, hs)
        &&& self.inv_seed(seed, hs)
        &&& self.inv_expanded(seed, hops, hs, qi)
        &&& inv_frontier(hs, qi)
        &&& inv_keys(hs, all_keys)
    }

    /// The hits found so far are no more than the entities of the graph.
    proof fn lemma_bfs_bound(
        &self,
        seed: Seq<char>,
        hops: usize,
        hs: Seq<(Seq<char>, usize, Seq<char>)>,
        qi: int,
        all_keys: Seq<Seq<char>>,
    )
        requires
            self.bfs_inv(seed, hops, hs, qi, all_keys),
        ensures
            hs.len() <= all_keys.len(),
            hits_distinct(seed, hs),
    {
        reveal(GraphIndex::bfs_inv);
        reveal(inv_keys);
        let ids = hs.map_values(|h: (Seq<char>, usize, Seq<char>)| h.0);
        assert forall|i: int| 0 <= i < ids.len() implies all_keys.contains(#[trigger] ids[i]) by {
            assert(ids[i] == hs[i].0);
        }
        assert forall|i: int, j: int| 0 <= i < j < ids.len() implies ids[i] != ids[j] by {
            assert(ids[i] == hs[i].0 && ids[j] == hs[j].0);
        }
        lemma_distinct_bound(ids, all_keys);
    }

    /// Once every hit is handled, the search state is its result.
    proof fn lemma_bfs_done(
        &self,
        seed: Seq<char>,
        hops: usize,
        hs: Seq<(Seq<char>, usize, Seq<char>)>,
        all_keys: Seq<Seq<char>>,
    )
        requires
            self.bfs_inv(seed, hops, hs, hs.len() as int, all_keys),
        ensures
            self.bfs_result(seed, hops, hs),
    {
        reveal(GraphIndex::bfs_inv);
        reveal(inv_hops);
        reveal(inv_sorted);
        reveal(GraphIndex::inv_parents);
        reveal(GraphIndex::inv_seed);
        reveal(GraphIndex::inv_expanded);
    }

    /// A hit reached over an edge is an entity of the graph.
    proof fn lemma_reached_in_keys(&self, p: Seq<char>, h: (Seq<char>, usize, Seq<char>))
        requires
            self.wf(),
            self.reached_from(p, h),
        ensures
            (keys_of(self.outgoing@) + keys_of(self.incoming@)).contains(h.0),
    {
        let q = choose|q: int|
            0 <= q < self.neighbors(p).len() && #[trigger] self.neighbors(p)[q].1 == h.0 && h.2
                == edge_snippet(p, self.neighbors(p)[q].0, h.0, self.docs_of(h.0));
        assert(self.in_graph(self.neighbors(p)[q].1));
        lemma_in_either_keys(self.outgoing@, self.incoming@, h.0);
    }

    /// The state after expanding the seed.
    proof fn lemma_bfs_start(
        &self,
        seed: Seq<char>,
        hops: usize,
        hs: Seq<(Seq<char>, usize, Seq<char>)>,
        all_keys: Seq<Seq<char>>,
    )
        requires
            self.wf(),
            all_keys == keys_of(self.outgoing@) + keys_of(self.incoming@),
            hits_distinct(seed, hs),
            forall|i: int| 0 <= i < hs.len() ==> #[trigger] hs[i].1 == 1 && self.reached_from(seed, hs[i]),
            forall|q: int|
                0 <= q < self.neighbors(seed).len() ==> #[trigger] visited(seed, hs, self.neighbors(seed)[q].1),
        ensures
            self.bfs_inv(seed, hops, hs, 0, all_keys),
    {
        reveal(GraphIndex::bfs_inv);
        reveal(inv_hops);
        reveal(inv_sorted);
        reveal(inv_frontier);
        reveal(inv_keys);
        reveal(GraphIndex::inv_parents);
        reveal(GraphIndex::inv_seed);
        reveal(GraphIndex::inv_expanded);
        assert forall|q: int| 0 <= q < self.neighbors(seed).len() implies #[trigger] self.neighbors(seed)[q].1
            == seed || exists|i: int| 0 <= i < hs.len() && hs[i].0 == self.neighbors(seed)[q].1 && hs[i].1 == 1 by {
            assert(visited(seed, hs, self.neighbors(seed)[q].1));
            if self.neighbors(seed)[q].1 != seed {
                let i = choose|i: int| 0 <= i < hs.len() && #[trigger] hs[i].0 == self.neighbors(seed)[q].1;
                assert(hs[i].1 == 1);
            }
        }
        assert forall|i: int| 0 <= i < hs.len() implies all_keys.contains(#[trigger] hs[i].0) by {
            assert(hs[i].1 == 1);
            self.lemma_reached_in_keys(seed, hs[i]);
        }
        assert forall|i: int, j: int| 0 <= i < j < hs.len() implies #[trigger] hs[i].1 <= #[trigger] hs[j].1 by {
            assert(hs[i].1 == 1 && hs[j].1 == 1);
        }
        assert forall|i: int, j: int|
            #![trigger hs[i], hs[j]]
            0 <= i < hs.len() && 0 <= j < hs.len() implies hs[j].1 <= hs[i].1 + 1 by {
            assert(hs[i].1 == 1 && hs[j].1 == 1);
        }
    }

    /// Parents after an expansion.
    proof fn lemma_step_parents(
        &self,
        seed: Seq<char>,
        hops: usize,
        before: Seq<(Seq<char>, usize, Seq<char>)>,
        after: Seq<(Seq<char>, usize, Seq<char>)>,
        qi: int,
    )
        requires
            0 <= qi < before.len(),
            inv_hops(hops, before),
            self.inv_parents(seed, before),
            extends_from(*self, seed, before, after, qi),
        ensures
            self.inv_parents(seed, after),
    {
        reveal(inv_hops);
        reveal(GraphIndex::inv_parents);
        lemma_extends_prefix(*self, seed, before, after, qi);
        let n0 = before.len() as int;
        assert forall|i: int| 0 <= i < after.len() implies (#[trigger] after[i].1 == 1 && self.reached_from(
            seed,
            after[i],
        )) || (after[i].1 > 1 && exists|j: int|
            0 <= j < i && after[j].1 + 1 == after[i].1 && self.reached_from(after[j].0, after[i])) by {
            if i < n0 {
                assert(after[i] == before[i]);
                if before[i].1 > 1 && !(before[i].1 == 1) {
                    let j = choose|j: int|
                        0 <= j < i && before[j].1 + 1 == before[i].1 && self.reached_from(before[j].0, before[i]);
                    assert(after[j] == before[j]);
                }
            } else {
                assert(after[qi] == before[qi]);
                assert(before[qi].1 >= 1);
            }
        }
    }

    /// The seed's neighbors after an expansion.
    proof fn lemma_step_seed(
        &self,
        seed: Seq<char>,
        before: Seq<(Seq<char>, usize, Seq<char>)>,
        after: Seq<(Seq<char>, usize, Seq<char>)>,
        qi: int,
    )
        requires
            0 <= qi < before.len(),
            self.inv_seed(seed, before),
            extends_from(*self, seed, before, after, qi),
        ensures
            self.inv_seed(seed, after),
    {
        reveal(GraphIndex::inv_seed);
        lemma_extends_prefix(*self, seed, before, after, qi);
        assert forall|q: int| 0 <= q < self.neighbors(seed).len() implies #[trigger] self.neighbors(seed)[q].1
            == seed || exists|i: int| 0 <= i < after.len() && after[i].0 == self.neighbors(seed)[q].1 && after[i].1 == 1 by {
            if self.neighbors(seed)[q].1 != seed {
                let i = choose|i: int|
                    0 <= i < before.len() && before[i].0 == self.neighbors(seed)[q].1 && before[i].1 == 1;
                assert(after[i] == before[i]);
            }
        }
    }

    /// The expanded hits after an expansion of hit `qi`.
    proof fn lemma_step_expanded(
        &self,
        seed: Seq<char>,
        hops: usize,
        before: Seq<(Seq<char>, usize, Seq<char>)>,
        after: Seq<(Seq<char>, usize, Seq<char>)>,
        qi: int,
    )
        requires
            0 <= qi < before.len(),
            self.inv_expanded(seed, hops, before, qi),
            inv_frontier(before, qi),
            extends_from(*self, seed, before, after, qi),
        ensures
            self.inv_expanded(seed, hops, after, qi + 1),
    {
        reveal(GraphIndex::inv_expanded);
        reveal(inv_frontier);
        lemma_extends_prefix(*self, seed, before, after, qi);
        let n0 = before.len() as int;
        assert forall|i: int, q: int|
            0 <= i < qi + 1 && after[i].1 < hops && 0 <= q < self.neighbors(after[i].0).len() implies #[trigger] self.neighbors(
            after[i].0,
        )[q].1 == seed || exists|j: int|
            0 <= j < after.len() && after[j].0 == self.neighbors(after[i].0)[q].1 && after[j].1 <= after[i].1 + 1 by {
            assert(after[i] == before[i]);
            let w = self.neighbors(after[i].0)[q].1;
            if i < qi {
                if w != seed {
                    let j = choose|j: int| 0 <= j < before.len() && before[j].0 == w && before[j].1 <= before[i].1 + 1;
                    assert(after[j] == before[j]);
                }
            } else {
                assert(visited(seed, after, w));
                if w != seed {
                    let j = choose|j: int| 0 <= j < after.len() && #[trigger] after[j].0 == w;
                    if j < n0 {
                        assert(after[j] == before[j]);
                        assert(before[j].1 <= before[qi].1 + 1);
                    } else {
                        assert(after[j].1 == before[qi].1 + 1);
                    }
                }
            }
        }
    }

    /// The state after handling hit `qi` without expanding it.
    proof fn lemma_bfs_skip(
        &self,
        seed: Seq<char>,
        hops: usize,
        hs: Seq<(Seq<char>, usize, Seq<char>)>,
        qi: int,
        all_keys: Seq<Seq<char>>,
    )
        requires
            0 <= qi < hs.len(),
            hs[qi].1 >= hops,
            self.bfs_inv(seed, hops, hs, qi, all_keys),
        ensures
            self.bfs_inv(seed, hops, hs, qi + 1, all_keys),
    {
        reveal(GraphIndex::bfs_inv);
        reveal(GraphIndex::inv_expanded);
        reveal(inv_frontier);
        reveal(inv_sorted);
        assert forall|i: int, j: int|
            #![trigger hs[i], hs[j]]
            qi + 1 <= i < hs.len() && 0 <= j < hs.len() implies hs[j].1 <= hs[i].1 + 1 by {
            assert(hs[qi].1 <= hs[i].1);
            assert(hs[j].1 <= hs[qi].1 + 1);
        }
    }

    /// The state after expanding hit `qi`.
    proof fn lemma_bfs_step(
        &self,
        seed: Seq<char>,
        hops: usize,
        before: Seq<(Seq<char>, usize, Seq<char>)>,
        after: Seq<(Seq<char>, usize, Seq<char>)>,
        qi: int,
        all_keys: Seq<Seq<char>>,
    )
        requires
            self.wf(),
            all_keys == keys_of(self.outgoing@) + keys_of(self.incoming@),
            0 <= qi < before.len(),
            before[qi].1 < hops,
            self.bfs_inv(seed, hops, before, qi, all_keys),
            extends_from(*self, seed, before, after, qi),
        ensures
            self.bfs_inv(seed, hops, after, qi + 1, all_keys),
    {
        reveal(GraphIndex::bfs_inv);
        lemma_step_order(*self, seed, hops, before, after, qi);
        lemma_step_keys(*self, seed, before, after, qi, all_keys);
        self.lemma_step_parents(seed, hops, before, after, qi);
        self.lemma_step_seed(seed, before, after, qi);
        self.lemma_step_expanded(seed, hops, before, after, qi);
    }
}

} // verus!
