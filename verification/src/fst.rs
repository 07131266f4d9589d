//! A finite state transducer from byte strings to `u64` values: a builder
//! that shares common prefixes, exact lookup, and prefix enumeration.

use vstd::prelude::*;
use crate::byte_order::{lex_lt, lex_le, lemma_lex_prefix, lemma_lex_branch, lemma_lex_irreflexive};
use crate::stable_sort::{stable_sort_of, stable_sort_order, occurs_in};
use crate::unicode::{utf8_lossy, string_from_utf8_lossy};
use vstd::utf8::{encode_utf8, valid_utf8, decode_utf8};

verus! {

/// A transition in the FST, mapping an input byte to a target node with an output value.
#[derive(Debug, Clone)]
pub struct FstTransition {
    pub target: usize,
    pub output: u64,
}

/// A node in the FST, containing ordered transitions and optional final output.
#[derive(Debug, Clone)]
pub struct FstNode {
    pub transitions: Vec<(u8, FstTransition)>,
    pub is_final: bool,
    pub final_output: u64,
}

/// A Finite State Transducer supporting exact key lookup.
/// Node at index 0 is the root.
#[derive(Debug, Clone)]
pub struct Fst {
    pub nodes: Vec<FstNode>,
}

/// The target that the transition list `ts` reaches on byte `b`, if any.
pub open spec fn step(ts: Seq<(u8, FstTransition)>, b: u8) -> Option<usize> {
    if exists|i: int| 0 <= i < ts.len() && ts[i].0 == b {
        Some(ts[choose|i: int| 0 <= i < ts.len() && ts[i].0 == b].1.target)
    } else {
        None
    }
}

/// No byte labels two transitions of the list.
pub open spec fn distinct_bytes(ts: Seq<(u8, FstTransition)>) -> bool {
    forall|i: int, j: int| 0 <= i < j < ts.len() ==> ts[i].0 != ts[j].0
}

/// The bytes of the list strictly ascend.
pub open spec fn ascending_bytes(ts: Seq<(u8, FstTransition)>) -> bool {
    forall|i: int, j: int| 0 <= i < j < ts.len() ==> ts[i].0 < ts[j].0
}

/// `k` starts with `p`.
pub open spec fn has_prefix(k: Seq<u8>, p: Seq<u8>) -> bool {
    p.len() <= k.len() && k.take(p.len() as int) == p
}

/// A sequence of (key, value) pairs whose keys strictly ascend.
pub open spec fn keys_ascending(s: Seq<(Seq<u8>, u64)>) -> bool {
    forall|q: int, r: int| 0 <= q < r < s.len() ==> #[trigger] lex_lt(s[q].0, s[r].0)
}

/// The byte-string view of collected (key, value) pairs.
pub open spec fn pairs_view(s: Seq<(Vec<u8>, u64)>) -> Seq<(Seq<u8>, u64)> {
    s.map_values(|e: (Vec<u8>, u64)| (e.0@, e.1))
}

impl Fst {
    pub open spec fn transitions_of(self, n: int) -> Seq<(u8, FstTransition)> {
        self.nodes@[n].transitions@
    }

    /// The shape an exact lookup relies on: a root exists, every transition
    /// leads to an existing node, and the transitions of each node are
    /// sorted by strictly ascending byte (cycles are allowed).
    pub open spec fn navigable(self) -> bool {
        &&& self.nodes@.len() > 0
        &&& forall|n: int, i: int|
            0 <= n < self.nodes@.len() && 0 <= i < self.transitions_of(n).len() ==> 0
                <= #[trigger] self.transitions_of(n)[i].1.target < self.nodes@.len()
        &&& forall|n: int| 0 <= n < self.nodes@.len() ==> ascending_bytes(#[trigger] self.transitions_of(n))
    }

    /// The shape every enumeration relies on: a root exists, every transition
    /// leads to a node of higher index (so there are no cycles), and the
    /// transitions of each node are sorted by strictly ascending byte.
    pub open spec fn wf(self) -> bool {
        &&& self.nodes@.len() > 0
        &&& forall|n: int, i: int|
            0 <= n < self.nodes@.len() && 0 <= i < self.transitions_of(n).len() ==> n
                < #[trigger] self.transitions_of(n)[i].1.target < self.nodes@.len()
        &&& forall|n: int| 0 <= n < self.nodes@.len() ==> ascending_bytes(#[trigger] self.transitions_of(n))
    }

    /// The node reached from `node` by following the bytes of `key`.
    pub open spec fn walk(self, node: int, key: Seq<u8>) -> Option<int>
        decreases key.len(),
    {
        if key.len() == 0 {
            Some(node)
        } else {
            match step(self.transitions_of(node), key[0]) {
                Some(t) => self.walk(t as int, key.drop_first()),
                None => None,
            }
        }
    }

    /// The output of the final node that `key` leads to from `node`.
    pub open spec fn lookup_from(self, node: int, key: Seq<u8>) -> Option<u64> {
        match self.walk(node, key) {
            Some(m) => if 0 <= m < self.nodes@.len() && self.nodes@[m].is_final {
                Some(self.nodes@[m].final_output)
            } else {
                None
            },
            None => None,
        }
    }

    pub open spec fn lookup(self, key: Seq<u8>) -> Option<u64> {
        self.lookup_from(0, key)
    }

    /// The (key, value) pairs below `node`, where `path` leads to `node`, in
    /// depth-first order with transitions taken in list order.
    pub open spec fn entries_below(self, node: int, path: Seq<u8>) -> Seq<(Seq<u8>, u64)>
        decreases self.nodes@.len() - node, self.transitions_of(node).len() + 1,
    {
        if 0 <= node < self.nodes@.len() {
            let here = if self.nodes@[node].is_final {
                seq![(path, self.nodes@[node].final_output)]
            } else {
                Seq::<(Seq<u8>, u64)>::empty()
            };
            here + self.entries_from(node, path, 0)
        } else {
            Seq::<(Seq<u8>, u64)>::empty()
        }
    }

    /// The pairs below the transitions of `node` from the `i`-th on.
    pub open spec fn entries_from(self, node: int, path: Seq<u8>, i: int) -> Seq<(Seq<u8>, u64)>
        decreases self.nodes@.len() - node, self.transitions_of(node).len() - i,
    {
        let ts = self.transitions_of(node);
        if 0 <= node < self.nodes@.len() && 0 <= i < ts.len() && node < ts[i].1.target
            < self.nodes@.len() {
            self.entries_below(ts[i].1.target as int, path.push(ts[i].0)) + self.entries_from(
                node,
                path,
                i + 1,
            )
        } else {
            Seq::<(Seq<u8>, u64)>::empty()
        }
    }

    /// The pairs whose key starts with `prefix`.
    pub open spec fn entries_with_prefix(self, prefix: Seq<u8>) -> Seq<(Seq<u8>, u64)> {
        match self.walk(0, prefix) {
            Some(n) => self.entries_below(n, prefix),
            None => Seq::<(Seq<u8>, u64)>::empty(),
        }
    }
}

impl View for Fst {
    type V = Map<Seq<u8>, u64>;

    /// The map from each accepted key to its output.
    open spec fn view(&self) -> Map<Seq<u8>, u64> {
        Map::new(|k: Seq<u8>| self.lookup(k) is Some, |k: Seq<u8>| self.lookup(k)->0)
    }
}

/// A key that starts with `p` is `p` followed by the rest.
pub proof fn lemma_split_prefix(k: Seq<u8>, p: Seq<u8>)
    requires
        has_prefix(k, p),
    ensures
        k == p + k.skip(p.len() as int),
{
    assert(k =~= k.take(p.len() as int) + k.skip(p.len() as int));
}

/// Under strictly ascending bytes, the list index carrying `b` is unique.
proof fn lemma_step_at(ts: Seq<(u8, FstTransition)>, p: int)
    requires
        distinct_bytes(ts),
        0 <= p < ts.len(),
    ensures
        step(ts, ts[p].0) == Some(ts[p].1.target),
{
    let c = choose|i: int| 0 <= i < ts.len() && ts[i].0 == ts[p].0;
    assert(0 <= c < ts.len() && ts[c].0 == ts[p].0);
    if c != p {
        if c < p {
            assert(ts[c].0 != ts[p].0);
        } else {
            assert(ts[p].0 != ts[c].0);
        }
    }
}

/// Binary search for the transition labelled `b` in an ascending list.
fn find_transition(ts: &Vec<(u8, FstTransition)>, b: u8) -> (r: Option<usize>)
    requires
        ascending_bytes(ts@),
    ensures
        match r {
            Some(p) => p < ts@.len() && ts@[p as int].0 == b,
            None => forall|i: int| 0 <= i < ts@.len() ==> ts@[i].0 != b,
        },
{
    let mut lo: usize = 0;
    let mut hi: usize = ts.len();
    while lo < hi
        invariant
            lo <= hi <= ts@.len(),
            ascending_bytes(ts@),
            forall|i: int| 0 <= i < lo ==> ts@[i].0 < b,
            forall|i: int| hi <= i < ts@.len() ==> ts@[i].0 > b,
        decreases hi - lo,
    {
        let mid = lo + (hi - lo) / 2;
        let mb = ts[mid].0;
        if mb == b {
            return Some(mid);
        } else if mb < b {
            lo = mid + 1;
        } else {
            hi = mid;
        }
    }
    None
}

impl Fst {
    /// Following `a` then `b` is following `a + b`.
    pub proof fn lemma_walk_concat(self, node: int, a: Seq<u8>, b: Seq<u8>)
        ensures
            self.walk(node, a + b) == match self.walk(node, a) {
                Some(m) => self.walk(m, b),
                None => None,
            },
        decreases a.len(),
    {
        if a.len() > 0 {
            assert((a + b)[0] == a[0]);
            assert((a + b).drop_first() =~= a.drop_first() + b);
            match step(self.transitions_of(node), a[0]) {
                Some(t) => {
                    self.lemma_walk_concat(t as int, a.drop_first(), b);
                },
                None => {},
            }
        } else {
            assert(a + b =~= b);
        }
    }

    /// Walking stays within the nodes of a well-formed FST.
    pub proof fn lemma_walk_in_range(self, node: int, key: Seq<u8>)
        requires
            self.wf(),
            0 <= node < self.nodes@.len(),
        ensures
            self.walk(node, key) matches Some(m) ==> node <= m < self.nodes@.len(),
        decreases key.len(),
    {
        if key.len() > 0 {
            let ts = self.transitions_of(node);
            if exists|i: int| 0 <= i < ts.len() && ts[i].0 == key[0] {
                let c = choose|i: int| 0 <= i < ts.len() && ts[i].0 == key[0];
                assert(node < ts[c].1.target < self.nodes@.len());
                self.lemma_walk_in_range(ts[c].1.target as int, key.drop_first());
            }
        }
    }

    /// Every pair below `node` carries a key that extends `path` and is
    /// accepted below `node` with that value.
    pub proof fn lemma_below_sound(self, node: int, path: Seq<u8>)
        requires
            self.wf(),
            0 <= node < self.nodes@.len(),
        ensures
            forall|q: int|
                0 <= q < self.entries_below(node, path).len() ==> {
                    let e = #[trigger] self.entries_below(node, path)[q];
                    &&& has_prefix(e.0, path)
                    &&& self.lookup_from(node, e.0.skip(path.len() as int)) == Some(e.1)
                },
        decreases self.nodes@.len() - node, self.transitions_of(node).len() + 1,
    {
        self.lemma_from_sound(node, path, 0);
        let here = if self.nodes@[node].is_final {
            seq![(path, self.nodes@[node].final_output)]
        } else {
            Seq::<(Seq<u8>, u64)>::empty()
        };
        let rest = self.entries_from(node, path, 0);
        let all = self.entries_below(node, path);
        assert(all == here + rest);
        assert(path.skip(path.len() as int) =~= Seq::<u8>::empty());
        assert(path.take(path.len() as int) =~= path);
        assert forall|q: int| 0 <= q < all.len() implies {
            let e = #[trigger] all[q];
            &&& has_prefix(e.0, path)
            &&& self.lookup_from(node, e.0.skip(path.len() as int)) == Some(e.1)
        } by {
            if q >= here.len() {
                assert(all[q] == rest[q - here.len()]);
            }
        }
    }

    /// Every pair below the transitions of `node` from the `i`-th on extends
    /// `path` by at least one byte, and that byte is at least the `i`-th
    /// transition's.
    pub proof fn lemma_from_sound(self, node: int, path: Seq<u8>, i: int)
        requires
            self.wf(),
            0 <= node < self.nodes@.len(),
            0 <= i <= self.transitions_of(node).len(),
        ensures
            forall|q: int|
                0 <= q < self.entries_from(node, path, i).len() ==> {
                    let e = #[trigger] self.entries_from(node, path, i)[q];
                    &&& has_prefix(e.0, path)
                    &&& e.0.len() > path.len()
                    &&& i < self.transitions_of(node).len()
                    &&& e.0[path.len() as int] >= self.transitions_of(node)[i].0
                    &&& self.lookup_from(node, e.0.skip(path.len() as int)) == Some(e.1)
                },
        decreases self.nodes@.len() - node, self.transitions_of(node).len() - i,
    {
        let ts = self.transitions_of(node);
        assert(ascending_bytes(ts));
        if i < ts.len() {
            let b = ts[i].0;
            let t = ts[i].1.target as int;
            assert(node < t < self.nodes@.len());
            let child_path = path.push(b);
            self.lemma_below_sound(t, child_path);
            self.lemma_from_sound(node, path, i + 1);
            let first = self.entries_below(t, child_path);
            let rest = self.entries_from(node, path, i + 1);
            let all = self.entries_from(node, path, i);
            assert(all == first + rest);
            lemma_step_at(ts, i);
            assert forall|q: int| 0 <= q < all.len() implies {
                let e = #[trigger] all[q];
                &&& has_prefix(e.0, path)
                &&& e.0.len() > path.len()
                &&& i < ts.len()
                &&& e.0[path.len() as int] >= ts[i].0
                &&& self.lookup_from(node, e.0.skip(path.len() as int)) == Some(e.1)
            } by {
                if q < first.len() {
                    assert(all[q] == first[q]);
                    self.lemma_child_pair(node, path, i, first[q]);
                } else {
                    assert(all[q] == rest[q - first.len()]);
                    assert(ts[i].0 < ts[i + 1].0);
                }
            }
        }
    }

    /// A pair below the `i`-th child, as seen from `node`.
    proof fn lemma_child_pair(self, node: int, path: Seq<u8>, i: int, e: (Seq<u8>, u64))
        requires
            self.wf(),
            0 <= node < self.nodes@.len(),
            0 <= i < self.transitions_of(node).len(),
            has_prefix(e.0, path.push(self.transitions_of(node)[i].0)),
            self.lookup_from(
                self.transitions_of(node)[i].1.target as int,
                e.0.skip(path.len() as int + 1),
            ) == Some(e.1),
        ensures
            has_prefix(e.0, path),
            e.0.len() > path.len(),
            e.0[path.len() as int] == self.transitions_of(node)[i].0,
            self.lookup_from(node, e.0.skip(path.len() as int)) == Some(e.1),
    {
        let ts = self.transitions_of(node);
        assert(ascending_bytes(ts));
        lemma_step_at(ts, i);
        let b = ts[i].0;
        let child_path = path.push(b);
        assert(e.0.take(child_path.len() as int) == child_path);
        assert(e.0[path.len() as int] == e.0.take(child_path.len() as int)[path.len() as int]);
        assert(e.0.take(path.len() as int) =~= child_path.take(path.len() as int));
        assert(child_path.take(path.len() as int) =~= path);
        let tail = e.0.skip(path.len() as int);
        assert(tail.drop_first() =~= e.0.skip(child_path.len() as int));
        assert(tail[0] == b);
    }

    /// The keys below `node` strictly ascend.
    pub proof fn lemma_below_sorted(self, node: int, path: Seq<u8>)
        requires
            self.wf(),
            0 <= node < self.nodes@.len(),
        ensures
            keys_ascending(self.entries_below(node, path)),
        decreases self.nodes@.len() - node, self.transitions_of(node).len() + 1,
    {
        self.lemma_from_sorted(node, path, 0);
        self.lemma_from_sound(node, path, 0);
        let here = if self.nodes@[node].is_final {
            seq![(path, self.nodes@[node].final_output)]
        } else {
            Seq::<(Seq<u8>, u64)>::empty()
        };
        let rest = self.entries_from(node, path, 0);
        let all = self.entries_below(node, path);
        assert(all == here + rest);
        assert forall|q: int, r: int| 0 <= q < r < all.len() implies #[trigger] lex_lt(
            all[q].0,
            all[r].0,
        ) by {
            if q < here.len() {
                let e = rest[r - here.len()];
                assert(all[r] == e);
                assert(has_prefix(e.0, path) && e.0.len() > path.len());
                assert(e.0 =~= e.0.take(path.len() as int) + e.0.skip(path.len() as int));
                lemma_lex_prefix(path, e.0.skip(path.len() as int));
            } else {
                assert(all[q] == rest[q - here.len()]);
                assert(all[r] == rest[r - here.len()]);
            }
        }
    }

    /// The keys below the transitions of `node` from the `i`-th on strictly
    /// ascend.
    pub proof fn lemma_from_sorted(self, node: int, path: Seq<u8>, i: int)
        requires
            self.wf(),
            0 <= node < self.nodes@.len(),
            0 <= i <= self.transitions_of(node).len(),
        ensures
            keys_ascending(self.entries_from(node, path, i)),
        decreases self.nodes@.len() - node, self.transitions_of(node).len() - i,
    {
        let ts = self.transitions_of(node);
        assert(ascending_bytes(ts));
        if i < ts.len() {
            let b = ts[i].0;
            let t = ts[i].1.target as int;
            assert(node < t < self.nodes@.len());
            let child_path = path.push(b);
            self.lemma_below_sorted(t, child_path);
            self.lemma_below_sound(t, child_path);
            self.lemma_from_sorted(node, path, i + 1);
            self.lemma_from_sound(node, path, i + 1);
            let first = self.entries_below(t, child_path);
            let rest = self.entries_from(node, path, i + 1);
            let all = self.entries_from(node, path, i);
            assert(all == first + rest);
            assert forall|q: int, r: int| 0 <= q < r < all.len() implies #[trigger] lex_lt(
                all[q].0,
                all[r].0,
            ) by {
                if r < first.len() {
                    assert(all[q] == first[q] && all[r] == first[r]);
                } else if q >= first.len() {
                    assert(all[q] == rest[q - first.len()] && all[r] == rest[r - first.len()]);
                } else {
                    let e = first[q];
                    let f = rest[r - first.len()];
                    assert(all[q] == e && all[r] == f);
                    self.lemma_child_pair(node, path, i, e);
                    assert(i + 1 < ts.len());
                    let y = f.0[path.len() as int];
                    assert(y >= ts[i + 1].0);
                    assert(ts[i].0 < ts[i + 1].0);
                    let n = path.len() as int;
                    assert(e.0.take(n) == path);
                    assert(f.0.take(n) == path);
                    assert(e.0 =~= path.push(b) + e.0.skip(n + 1));
                    assert(f.0 =~= path.push(y) + f.0.skip(n + 1));
                    lemma_lex_branch(path, b, e.0.skip(n + 1), y, f.0.skip(n + 1));
                }
            }
        }
    }

    /// Every key accepted below `node` appears below `node`, prefixed by
    /// `path`, with its value.
    pub proof fn lemma_below_complete(self, node: int, path: Seq<u8>)
        requires
            self.wf(),
            0 <= node < self.nodes@.len(),
        ensures
            forall|s: Seq<u8>|
                #[trigger] self.lookup_from(node, s) is Some ==> exists|q: int|
                    0 <= q < self.entries_below(node, path).len() && self.entries_below(
                        node,
                        path,
                    )[q] == (path + s, self.lookup_from(node, s)->0),
        decreases self.nodes@.len() - node, self.transitions_of(node).len() + 1,
    {
        self.lemma_from_complete(node, path, 0);
        let here = if self.nodes@[node].is_final {
            seq![(path, self.nodes@[node].final_output)]
        } else {
            Seq::<(Seq<u8>, u64)>::empty()
        };
        let rest = self.entries_from(node, path, 0);
        let all = self.entries_below(node, path);
        assert(all == here + rest);
        assert forall|s: Seq<u8>| #[trigger] self.lookup_from(node, s) is Some implies exists|q: int|
            0 <= q < all.len() && all[q] == (path + s, self.lookup_from(node, s)->0) by {
            if s.len() == 0 {
                assert(path + s =~= path);
                assert(all[0] == here[0]);
            } else {
                let ts = self.transitions_of(node);
                let c = choose|j: int| 0 <= j < ts.len() && ts[j].0 == s[0];
                assert(0 <= c < ts.len() && ts[c].0 == s[0]);
                assert(ts[0].0 <= ts[c].0) by {
                    assert(ascending_bytes(ts));
                    if c > 0 {
                        assert(ts[0].0 < ts[c].0);
                    }
                }
                let q = choose|q: int|
                    0 <= q < rest.len() && rest[q] == (path + s, self.lookup_from(node, s)->0);
                assert(all[q + here.len()] == rest[q]);
            }
        }
    }

    /// Every key accepted below `node` whose first byte is at least the
    /// `i`-th transition's appears below the transitions from the `i`-th on.
    pub proof fn lemma_from_complete(self, node: int, path: Seq<u8>, i: int)
        requires
            self.wf(),
            0 <= node < self.nodes@.len(),
            0 <= i <= self.transitions_of(node).len(),
        ensures
            forall|s: Seq<u8>|
                s.len() > 0 && i < self.transitions_of(node).len() && s[0]
                    >= self.transitions_of(node)[i].0 && #[trigger] self.lookup_from(node, s)
                    is Some ==> exists|q: int|
                    0 <= q < self.entries_from(node, path, i).len() && self.entries_from(
                        node,
                        path,
                        i,
                    )[q] == (path + s, self.lookup_from(node, s)->0),
        decreases self.nodes@.len() - node, self.transitions_of(node).len() - i,
    {
        let ts = self.transitions_of(node);
        assert(ascending_bytes(ts));
        if i < ts.len() {
            let b = ts[i].0;
            let t = ts[i].1.target as int;
            assert(node < t < self.nodes@.len());
            let child_path = path.push(b);
            self.lemma_below_complete(t, child_path);
            self.lemma_from_complete(node, path, i + 1);
            let first = self.entries_below(t, child_path);
            let rest = self.entries_from(node, path, i + 1);
            let all = self.entries_from(node, path, i);
            assert(all == first + rest);
            lemma_step_at(ts, i);
            assert forall|s: Seq<u8>|
                s.len() > 0 && i < ts.len() && s[0] >= ts[i].0 && #[trigger] self.lookup_from(
                    node,
                    s,
                ) is Some implies exists|q: int|
                0 <= q < all.len() && all[q] == (path + s, self.lookup_from(node, s)->0) by {
                if s[0] == b {
                    assert(self.walk(node, s) == self.walk(t, s.drop_first()));
                    assert(self.lookup_from(t, s.drop_first()) == self.lookup_from(node, s));
                    let q = choose|q: int|
                        0 <= q < first.len() && first[q] == (
                            child_path + s.drop_first(),
                            self.lookup_from(t, s.drop_first())->0,
                        );
                    assert(child_path + s.drop_first() =~= path + s);
                    assert(all[q] == first[q]);
                } else {
                    let c = choose|j: int| 0 <= j < ts.len() && ts[j].0 == s[0];
                    assert(0 <= c < ts.len() && ts[c].0 == s[0]);
                    if c <= i {
                        if c < i {
                            assert(ts[c].0 < ts[i].0);
                        }
                        assert(false);
                    }
                    assert(i + 1 < ts.len());
                    assert(ts[i + 1].0 <= ts[c].0) by {
                        if c > i + 1 {
                            assert(ts[i + 1].0 < ts[c].0);
                        }
                    }
                    let q = choose|q: int|
                        0 <= q < rest.len() && rest[q] == (path + s, self.lookup_from(node, s)->0);
                    assert(all[q + first.len()] == rest[q]);
                }
            }
        }
    }
}

impl Fst {
    /// The keys that start with `prefix`, in strictly ascending byte order,
    /// are exactly the keys of the map that start with `prefix`, each with
    /// its value.
    pub proof fn lemma_prefix_entries(self, prefix: Seq<u8>)
        requires
            self.wf(),
        ensures
            keys_ascending(self.entries_with_prefix(prefix)),
            forall|q: int|
                0 <= q < self.entries_with_prefix(prefix).len() ==> {
                    let e = #[trigger] self.entries_with_prefix(prefix)[q];
                    &&& has_prefix(e.0, prefix)
                    &&& self@.contains_key(e.0)
                    &&& self@[e.0] == e.1
                },
            forall|k: Seq<u8>|
                #[trigger] self@.contains_key(k) && has_prefix(k, prefix) ==> exists|q: int|
                    0 <= q < self.entries_with_prefix(prefix).len()
                        && self.entries_with_prefix(prefix)[q] == (k, self@[k]),
    {
        match self.walk(0, prefix) {
            Some(n) => {
                self.lemma_walk_in_range(0, prefix);
                self.lemma_below_sound(n, prefix);
                self.lemma_below_sorted(n, prefix);
                self.lemma_below_complete(n, prefix);
                let es = self.entries_below(n, prefix);
                assert(es == self.entries_with_prefix(prefix));
                assert forall|q: int| 0 <= q < es.len() implies {
                    let e = #[trigger] es[q];
                    &&& has_prefix(e.0, prefix)
                    &&& self@.contains_key(e.0)
                    &&& self@[e.0] == e.1
                } by {
                    let e = es[q];
                    let tail = e.0.skip(prefix.len() as int);
                    assert(self.entries_below(n, prefix)[q] == e);
                    assert(has_prefix(e.0, prefix));
                    lemma_split_prefix(e.0, prefix);
                    self.lemma_walk_concat(0, prefix, tail);
                    assert(self.lookup(e.0) == self.lookup_from(n, tail));
                }
                assert forall|k: Seq<u8>|
                    #[trigger] self@.contains_key(k) && has_prefix(k, prefix) implies exists|q: int|
                    0 <= q < es.len() && es[q] == (k, self@[k]) by {
                    let tail = k.skip(prefix.len() as int);
                    lemma_split_prefix(k, prefix);
                    self.lemma_walk_concat(0, prefix, tail);
                    assert(self.lookup(k) == self.lookup_from(n, tail));
                    assert(self.lookup_from(n, tail) is Some);
                    let q = choose|q: int|
                        0 <= q < es.len() && es[q] == (prefix + tail, self.lookup_from(n, tail)->0);
                    assert(es[q] == (k, self@[k]));
                }
            },
            None => {
                assert forall|k: Seq<u8>|
                    #[trigger] self@.contains_key(k) && has_prefix(k, prefix) implies exists|q: int|
                    0 <= q < self.entries_with_prefix(prefix).len()
                        && self.entries_with_prefix(prefix)[q] == (k, self@[k]) by {
                    let tail = k.skip(prefix.len() as int);
                    lemma_split_prefix(k, prefix);
                    self.lemma_walk_concat(0, prefix, tail);
                    assert(false);
                }
            },
        }
    }

    /// Exact lookup: walk the byte path using binary search on transitions.
    /// Returns the final_output if a final node is reached, or None otherwise.
    pub fn get(&self, key: &[u8]) -> (r: Option<u64>)
        requires
            self.navigable(),
        ensures
            r == self.lookup(key@),
            r == (if self@.contains_key(key@) { Some(self@[key@]) } else { None }),
    {
        let mut current: usize = 0;
        let mut i: usize = 0;
        assert(key@.skip(0) =~= key@);
        while i < key.len()
            invariant
                self.navigable(),
                current < self.nodes@.len(),
                i <= key@.len(),
                self.walk(0, key@) == self.walk(current as int, key@.skip(i as int)),
            decreases key@.len() - i,
        {
            let node = &self.nodes[current];
            assert(ascending_bytes(self.transitions_of(current as int)));
            match find_transition(&node.transitions, key[i]) {
                Some(pos) => {
                    proof { lemma_step_at(self.transitions_of(current as int), pos as int); }
                    assert(key@.skip(i as int).drop_first() =~= key@.skip(i + 1));
                    current = node.transitions[pos].1.target;
                },
                None => {
                    assert(step(self.transitions_of(current as int), key@.skip(i as int)[0])
                        is None);
                    return None;
                },
            }
            i = i + 1;
        }
        assert(key@.skip(i as int) =~= Seq::<u8>::empty());
        let node = &self.nodes[current];
        if node.is_final {
            Some(node.final_output)
        } else {
            None
        }
    }

    /// Appends the pairs below `node` to `out`, in depth-first order.
    fn collect_below(&self, node: usize, path: &mut Vec<u8>, out: &mut Vec<(Vec<u8>, u64)>)
        requires
            self.wf(),
            node < self.nodes@.len(),
        ensures
            final(path)@ == old(path)@,
            pairs_view(final(out)@) == pairs_view(old(out)@) + self.entries_below(
                node as int,
                old(path)@,
            ),
        decreases self.nodes@.len() - node,
    {
        let ghost p0 = path@;
        let ghost out0 = pairs_view(out@);
        let n = &self.nodes[node];
        let ghost here = if n.is_final {
            seq![(p0, n.final_output)]
        } else {
            Seq::<(Seq<u8>, u64)>::empty()
        };
        if n.is_final {
            let key = vstd::slice::slice_to_vec(path.as_slice());
            out.push((key, n.final_output));
            assert(pairs_view(out@) =~= out0 + here);
        } else {
            assert(pairs_view(out@) =~= out0 + here);
        }
        let mut i: usize = 0;
        while i < n.transitions.len()
            invariant
                self.wf(),
                node < self.nodes@.len(),
                n == self.nodes@[node as int],
                i <= n.transitions@.len(),
                path@ == p0,
                self.entries_below(node as int, p0) == here + self.entries_from(node as int, p0, 0),
                pairs_view(out@) + self.entries_from(node as int, p0, i as int) == out0
                    + self.entries_below(node as int, p0),
            decreases n.transitions@.len() - i,
        {
            let b = n.transitions[i].0;
            let t = n.transitions[i].1.target;
            assert(node < t < self.nodes@.len());
            let ghost before = pairs_view(out@);
            path.push(b);
            self.collect_below(t, path, out);
            path.pop();
            assert(path@ =~= p0);
            assert(self.entries_from(node as int, p0, i as int) == self.entries_below(
                t as int,
                p0.push(b),
            ) + self.entries_from(node as int, p0, i + 1));
            assert(pairs_view(out@) == before + self.entries_below(t as int, p0.push(b)));
            assert(before + self.entries_from(node as int, p0, i as int) =~= pairs_view(out@)
                + self.entries_from(node as int, p0, i + 1));
            i = i + 1;
        }
        assert(self.entries_from(node as int, p0, i as int) =~= Seq::<(Seq<u8>, u64)>::empty());
        assert(pairs_view(out@) =~= out0 + self.entries_below(node as int, p0));
    }

    /// The pairs whose key starts with `prefix`, keys as bytes, in ascending
    /// byte order.
    pub fn prefix_entries(&self, prefix: &[u8]) -> (r: Vec<(Vec<u8>, u64)>)
        requires
            self.wf(),
        ensures
            pairs_view(r@) == self.entries_with_prefix(prefix@),
    {
        let mut current: usize = 0;
        let mut i: usize = 0;
        assert(prefix@.skip(0) =~= prefix@);
        while i < prefix.len()
            invariant
                self.wf(),
                current < self.nodes@.len(),
                i <= prefix@.len(),
                self.walk(0, prefix@) == self.walk(current as int, prefix@.skip(i as int)),
            decreases prefix@.len() - i,
        {
            let node = &self.nodes[current];
            assert(ascending_bytes(self.transitions_of(current as int)));
            match find_transition(&node.transitions, prefix[i]) {
                Some(pos) => {
                    proof { lemma_step_at(self.transitions_of(current as int), pos as int); }
                    assert(prefix@.skip(i as int).drop_first() =~= prefix@.skip(i + 1));
                    current = node.transitions[pos].1.target;
                },
                None => {
                    assert(step(self.transitions_of(current as int), prefix@.skip(i as int)[0])
                        is None);
                    let empty: Vec<(Vec<u8>, u64)> = Vec::new();
                    assert(pairs_view(empty@) =~= Seq::<(Seq<u8>, u64)>::empty());
                    return empty;
                },
            }
            i = i + 1;
        }
        assert(prefix@.skip(i as int) =~= Seq::<u8>::empty());
        let mut path = vstd::slice::slice_to_vec(prefix);
        let mut out: Vec<(Vec<u8>, u64)> = Vec::new();
        assert(pairs_view(out@) =~= Seq::<(Seq<u8>, u64)>::empty());
        self.collect_below(current, &mut path, &mut out);
        assert(pairs_view(out@) =~= self.entries_below(current as int, prefix@));
        out
    }
}

/// The prefix-search pairs with keys decoded to text.
pub open spec fn decoded_pairs(es: Seq<(Seq<u8>, u64)>) -> Seq<(Seq<char>, u64)> {
    es.map_values(|e: (Seq<u8>, u64)| (utf8_lossy(e.0), e.1))
}

/// The UTF-8 bytes of each decoded key, by which strings are ordered.
pub open spec fn decoded_sort_keys(ds: Seq<(Seq<char>, u64)>) -> Seq<Seq<u8>> {
    ds.map_values(|e: (Seq<char>, u64)| encode_utf8(e.0))
}

impl Fst {
    /// Prefix search: find all keys starting with `prefix`.
    /// Returns pairs of (key_string, output_value) sorted lexicographically.
    pub fn prefix_search(&self, prefix: &[u8]) -> (results: Vec<(String, u64)>)
        requires
            self.wf(),
        ensures
            ({
                let ds = decoded_pairs(self.entries_with_prefix(prefix@));
                exists|order: Seq<usize>|
                    {
                        &&& stable_sort_of(decoded_sort_keys(ds), order)
                        &&& results@.len() == ds.len()
                        &&& forall|p: int|
                            0 <= p < results@.len() ==> (#[trigger] results@[p].0@, results@[p].1)
                                == ds[order[p] as int]
                        &&& forall|p: int|
                            0 <= p < results@.len() && valid_utf8(
                                self.entries_with_prefix(prefix@)[order[p] as int].0,
                            ) ==> #[trigger] results@[p].0@ == decode_utf8(
                                self.entries_with_prefix(prefix@)[order[p] as int].0,
                            )
                    }
            }),
    {
        let entries = self.prefix_entries(prefix);
        let ghost es = self.entries_with_prefix(prefix@);
        let ghost ds = decoded_pairs(es);
        let mut named: Vec<(String, u64)> = Vec::new();
        let mut keys: Vec<Vec<u8>> = Vec::new();
        let mut i: usize = 0;
        while i < entries.len()
            invariant
                i <= entries@.len(),
                pairs_view(entries@) == es,
                ds == decoded_pairs(es),
                named@.len() == i,
                keys@.len() == i,
                forall|q: int| 0 <= q < i ==> (#[trigger] named@[q].0@, named@[q].1) == ds[q],
                forall|q: int| 0 <= q < i ==> #[trigger] keys@[q]@ == encode_utf8(named@[q].0@),
                forall|q: int| 0 <= q < i && valid_utf8(es[q].0) ==> #[trigger] named@[q].0@ == decode_utf8(es[q].0),
            decreases entries@.len() - i,
        {
            let s = string_from_utf8_lossy(entries[i].0.as_slice());
            let k = vstd::slice::slice_to_vec(s.as_str().as_bytes());
            assert(es[i as int] == (entries@[i as int].0@, entries@[i as int].1));
            keys.push(k);
            named.push((s, entries[i].1));
            i = i + 1;
        }
        let order = stable_sort_order(&keys);
        assert(keys@.map_values(|k: Vec<u8>| k@) =~= decoded_sort_keys(ds));
        let mut results: Vec<(String, u64)> = Vec::new();
        let mut p: usize = 0;
        while p < order.len()
            invariant
                p <= order@.len(),
                stable_sort_of(decoded_sort_keys(ds), order@),
                named@.len() == ds.len(),
                forall|q: int| 0 <= q < named@.len() ==> (#[trigger] named@[q].0@, named@[q].1) == ds[q],
                results@.len() == p,
                forall|q: int|
                    0 <= q < p ==> (#[trigger] results@[q].0@, results@[q].1) == ds[order@[q] as int],
                forall|q: int| 0 <= q < named@.len() && valid_utf8(es[q].0) ==> #[trigger] named@[q].0@ == decode_utf8(es[q].0),
                forall|q: int|
                    0 <= q < p && valid_utf8(es[order@[q] as int].0) ==> #[trigger] results@[q].0@ == decode_utf8(
                        es[order@[q] as int].0,
                    ),
                es == self.entries_with_prefix(prefix@),
                ds.len() == es.len(),
            decreases order@.len() - p,
        {
            let j = order[p];
            assert(j < named@.len());
            let s = named[j].0.clone();
            results.push((s, named[j].1));
            p = p + 1;
        }
        results
    }
}

/// Builder for constructing an FST from sorted or unsorted key-value entries.
#[derive(Debug, Clone, Default)]
pub struct FstBuilder {
    entries: Vec<(Vec<u8>, u64)>,
}

impl View for FstBuilder {
    type V = Seq<(Seq<u8>, u64)>;

    /// The collected (key, value) pairs, in insertion order.
    closed spec fn view(&self) -> Seq<(Seq<u8>, u64)> {
        pairs_view(self.entries@)
    }
}

/// `p` is a nonempty prefix of the key of one of the pairs.
pub open spec fn key_prefix(es: Seq<(Seq<u8>, u64)>, p: Seq<u8>) -> bool {
    p.len() > 0 && exists|i: int| 0 <= i < es.len() && #[trigger] has_prefix(es[i].0, p)
}

impl Fst {
    /// Node `m` is the target of some transition.
    pub open spec fn has_incoming(self, m: int) -> bool {
        exists|n: int, i: int|
            0 <= n < self.nodes@.len() && 0 <= i < self.transitions_of(n).len()
                && #[trigger] self.transitions_of(n)[i].1.target == m
    }

    /// The transducer is the trie of the pairs `es`, node `n` standing for
    /// the byte string `paths[n]`: the root for the empty string, every
    /// other node for a nonempty prefix of a key, and every such prefix for
    /// one node (so there is one node more than there are such prefixes),
    /// the nodes numbered in ascending byte order of their strings. Each transition leads to a later node whose string is one
    /// byte longer, and has output 0; every node but the root is the target
    /// of exactly one transition. A node is final exactly when its string is
    /// a key, and then holds the value of that key's last pair; any other
    /// node holds final output 0.
    pub open spec fn trie_layout(self, es: Seq<(Seq<u8>, u64)>, paths: Seq<Seq<u8>>) -> bool {
        &&& paths.len() == self.nodes@.len()
        &&& self.nodes@.len() > 0
        &&& paths[0] == Seq::<u8>::empty()
        &&& forall|a: int, b: int| 0 <= a < b < paths.len() ==> #[trigger] lex_lt(paths[a], paths[b])
        &&& forall|n: int| 0 < n < paths.len() ==> key_prefix(es, #[trigger] paths[n])
        &&& forall|p: Seq<u8>| #[trigger] key_prefix(es, p) ==> exists|n: int| 0 <= n < paths.len() && paths[n] == p
        &&& forall|n: int, i: int|
            0 <= n < self.nodes@.len() && 0 <= i < self.transitions_of(n).len() ==> {
                let tr = #[trigger] self.transitions_of(n)[i];
                &&& n < tr.1.target < self.nodes@.len()
                &&& paths[tr.1.target as int] == paths[n].push(tr.0)
                &&& tr.1.output == 0
            }
        &&& forall|m: int| 0 < m < self.nodes@.len() ==> #[trigger] self.has_incoming(m)
        &&& forall|n1: int, i1: int, n2: int, i2: int|
            0 <= n1 < self.nodes@.len() && 0 <= i1 < self.transitions_of(n1).len() && 0 <= n2
                < self.nodes@.len() && 0 <= i2 < self.transitions_of(n2).len() && #[trigger] self.transitions_of(
                n1,
            )[i1].1.target == #[trigger] self.transitions_of(n2)[i2].1.target ==> n1 == n2 && i1 == i2
        &&& forall|n: int|
            0 <= n < self.nodes@.len() ==> (#[trigger] self.nodes@[n]).is_final == entries_map(es).contains_key(
                paths[n],
            )
        &&& forall|n: int|
            0 <= n < self.nodes@.len() ==> (#[trigger] self.nodes@[n]).final_output == if self.nodes@[n].is_final {
                entries_map(es)[paths[n]]
            } else {
                0
            }
    }
}

/// The distinct nonempty prefixes of the keys of the pairs.
pub open spec fn key_prefixes(es: Seq<(Seq<u8>, u64)>) -> Set<Seq<u8>> {
    Set::new(|p: Seq<u8>| key_prefix(es, p))
}

/// A trie shares common prefixes: it has one node for the empty string and
/// one for each distinct nonempty prefix of a key, and no other.
pub proof fn law_trie_node_count(f: Fst, es: Seq<(Seq<u8>, u64)>, paths: Seq<Seq<u8>>)
    requires
        f.trie_layout(es, paths),
    ensures
        key_prefixes(es).finite(),
        f.nodes@.len() == key_prefixes(es).len() + 1,
{
    let ps = key_prefixes(es);
    let all = paths.to_set();
    assert forall|a: int, b: int| 0 <= a < paths.len() && 0 <= b < paths.len() && a != b implies paths[a]
        != paths[b] by {
        if a < b {
            assert(lex_lt(paths[a], paths[b]));
            lemma_lex_irreflexive(paths[a]);
        } else {
            assert(lex_lt(paths[b], paths[a]));
            lemma_lex_irreflexive(paths[a]);
        }
    }
    assert(paths.no_duplicates());
    paths.unique_seq_to_set();
    assert(all.len() == paths.len());
    assert(all.contains(paths[0]));
    assert(ps =~= all.remove(Seq::<u8>::empty())) by {
        assert forall|p: Seq<u8>| ps.contains(p) <==> all.remove(Seq::<u8>::empty()).contains(p) by {
            if ps.contains(p) {
                assert(key_prefix(es, p));
                let n = choose|n: int| 0 <= n < paths.len() && paths[n] == p;
                assert(all.contains(p));
            }
            if all.remove(Seq::<u8>::empty()).contains(p) {
                let n = choose|n: int| 0 <= n < paths.len() && paths[n] == p;
                assert(n != 0);
                assert(key_prefix(es, paths[n]));
            }
        }
    }
    vstd::seq_lib::seq_to_set_is_finite(paths);
}

impl Fst {
    /// The indices of the final nodes.
    pub open spec fn final_nodes(self) -> Set<int> {
        Set::new(|n: int| 0 <= n < self.nodes@.len() && self.nodes@[n].is_final)
    }
}

/// A trie has one final node for each distinct key, and no other.
pub proof fn law_trie_final_count(f: Fst, es: Seq<(Seq<u8>, u64)>, paths: Seq<Seq<u8>>)
    requires
        f.trie_layout(es, paths),
    ensures
        f.final_nodes().finite(),
        entries_map(es).dom().finite(),
        f.final_nodes().len() == entries_map(es).dom().len(),
{
    let x = f.final_nodes();
    let dom = entries_map(es).dom();
    let len = f.nodes@.len() as int;
    vstd::set_lib::lemma_int_range(0, len);
    assert(x.subset_of(vstd::set_lib::set_int_range(0, len)));
    vstd::set_lib::lemma_len_subset(x, vstd::set_lib::set_int_range(0, len));
    let pf = |n: int| paths[n];
    assert forall|a: int, b: int| x.contains(a) && x.contains(b) && #[trigger] pf(a) == #[trigger] pf(b) implies a
        == b by {
        if a < b {
            assert(lex_lt(paths[a], paths[b]));
            lemma_lex_irreflexive(paths[a]);
        } else if b < a {
            assert(lex_lt(paths[b], paths[a]));
            lemma_lex_irreflexive(paths[b]);
        }
    }
    assert(vstd::relations::injective_on(pf, x));
    assert(x.map(pf) =~= dom) by {
        assert forall|k: Seq<u8>| x.map(pf).contains(k) implies dom.contains(k) by {
            let n = choose|n: int| x.contains(n) && pf(n) == k;
            assert(f.nodes@[n].is_final);
        }
        assert forall|k: Seq<u8>| dom.contains(k) implies x.map(pf).contains(k) by {
            lemma_entries_map_dom(es, k);
            let i = choose|i: int| 0 <= i < es.len() && es[i].0 == k;
            if k.len() > 0 {
                assert(k.take(k.len() as int) =~= k);
                assert(has_prefix(es[i].0, k));
                assert(key_prefix(es, k));
                let n = choose|n: int| 0 <= n < paths.len() && paths[n] == k;
                assert(f.nodes@[n].is_final);
                assert(x.contains(n) && pf(n) == k);
            } else {
                assert(k =~= paths[0]);
                assert(f.nodes@[0].is_final);
                assert(x.contains(0) && pf(0) == k);
            }
        }
    }
    vstd::set_lib::lemma_map_size(x, dom, pf);
}

/// The map that results from inserting the pairs in order: a later pair for
/// a key replaces an earlier one.
pub open spec fn entries_map(es: Seq<(Seq<u8>, u64)>) -> Map<Seq<u8>, u64>
    decreases es.len(),
{
    if es.len() == 0 {
        Map::empty()
    } else {
        entries_map(es.drop_last()).insert(es.last().0, es.last().1)
    }
}

/// A key is in the map exactly when some pair carries it.
pub proof fn lemma_entries_map_dom(es: Seq<(Seq<u8>, u64)>, k: Seq<u8>)
    ensures
        entries_map(es).contains_key(k) <==> exists|i: int| 0 <= i < es.len() && es[i].0 == k,
    decreases es.len(),
{
    if es.len() > 0 {
        let init = es.drop_last();
        lemma_entries_map_dom(init, k);
        if exists|i: int| 0 <= i < init.len() && init[i].0 == k {
            let i = choose|i: int| 0 <= i < init.len() && init[i].0 == k;
            assert(es[i] == init[i]);
        }
        if exists|i: int| 0 <= i < es.len() && es[i].0 == k {
            let i = choose|i: int| 0 <= i < es.len() && es[i].0 == k;
            if i < init.len() {
                assert(es[i] == init[i]);
            }
        }
    }
}

/// The value of a key is that of its last pair.
pub proof fn lemma_entries_map_value(es: Seq<(Seq<u8>, u64)>, k: Seq<u8>, i: int)
    requires
        0 <= i < es.len(),
        es[i].0 == k,
        forall|j: int| i < j < es.len() ==> es[j].0 != k,
    ensures
        entries_map(es).contains_key(k),
        entries_map(es)[k] == es[i].1,
    decreases es.len(),
{
    let init = es.drop_last();
    if i < es.len() - 1 {
        assert(es[es.len() - 1].0 != k);
        assert(init[i] == es[i]);
        assert forall|j: int| i < j < init.len() implies init[j].0 != k by {
            assert(init[j] == es[j]);
        }
        lemma_entries_map_value(init, k, i);
    }
}

/// Reading back a built transducer: a key that no pair carries has no
/// output, and a key has the value of the last pair that carries it.
pub proof fn law_get_after_inserts(f: Fst, es: Seq<(Seq<u8>, u64)>, k: Seq<u8>)
    requires
        f.wf(),
        f@ == entries_map(es),
    ensures
        (forall|i: int| 0 <= i < es.len() ==> es[i].0 != k) ==> f.lookup(k) is None,
        forall|i: int|
            0 <= i < es.len() && #[trigger] es[i].0 == k && (forall|j: int| i < j < es.len() ==> es[j].0 != k)
                ==> f.lookup(k) == Some(es[i].1),
{
    lemma_entries_map_dom(es, k);
    assert(f@.contains_key(k) <==> f.lookup(k) is Some);
    assert forall|i: int|
        0 <= i < es.len() && #[trigger] es[i].0 == k && (forall|j: int| i < j < es.len() ==> es[j].0 != k)
            implies f.lookup(k) == Some(es[i].1) by {
        lemma_entries_map_value(es, k, i);
        assert(f@[k] == f.lookup(k)->0);
    }
}

/// Reordering the pairs by a stable sort on their keys keeps the map.
proof fn lemma_entries_map_stable_sort(
    es: Seq<(Seq<u8>, u64)>,
    order: Seq<usize>,
    sorted: Seq<(Seq<u8>, u64)>,
)
    requires
        stable_sort_of(es.map_values(|e: (Seq<u8>, u64)| e.0), order),
        sorted.len() == es.len(),
        forall|p: int| 0 <= p < sorted.len() ==> sorted[p] == es[order[p] as int],
    ensures
        entries_map(sorted) == entries_map(es),
{
    assert forall|k: Seq<u8>| #[trigger] entries_map(sorted).contains_key(k)
        == entries_map(es).contains_key(k) by {
        lemma_stable_sort_key(es, order, sorted, k);
    }
    assert forall|k: Seq<u8>| #[trigger] entries_map(es).contains_key(k) implies entries_map(
        sorted,
    )[k] == entries_map(es)[k] by {
        lemma_stable_sort_key(es, order, sorted, k);
    }
    assert(entries_map(sorted) =~= entries_map(es));
}

/// One key of `lemma_entries_map_stable_sort`.
proof fn lemma_stable_sort_key(
    es: Seq<(Seq<u8>, u64)>,
    order: Seq<usize>,
    sorted: Seq<(Seq<u8>, u64)>,
    k: Seq<u8>,
)
    requires
        stable_sort_of(es.map_values(|e: (Seq<u8>, u64)| e.0), order),
        sorted.len() == es.len(),
        forall|p: int| 0 <= p < sorted.len() ==> sorted[p] == es[order[p] as int],
    ensures
        entries_map(sorted).contains_key(k) == entries_map(es).contains_key(k),
        entries_map(es).contains_key(k) ==> entries_map(sorted)[k] == entries_map(es)[k],
{
    let ks = es.map_values(|e: (Seq<u8>, u64)| e.0);
    lemma_entries_map_dom(sorted, k);
    lemma_entries_map_dom(es, k);
    if exists|i: int| 0 <= i < es.len() && es[i].0 == k {
        let i0 = choose|i: int| 0 <= i < es.len() && es[i].0 == k;
        assert(occurs_in(order, i0));
        let p0 = choose|p: int| 0 <= p < order.len() && order[p] == i0;
        assert(sorted[p0].0 == k);
        lemma_last_occurrence(es, k, i0);
        let last = choose|i: int|
            0 <= i < es.len() && es[i].0 == k && (forall|j: int| i < j < es.len() ==> es[j].0 != k);
        assert(occurs_in(order, last));
        let pl = choose|p: int| 0 <= p < order.len() && order[p] == last;
        assert(sorted[pl] == es[last]);
        assert forall|q: int| pl < q < sorted.len() implies sorted[q].0 != k by {
            if sorted[q].0 == k {
                assert(ks[order[pl] as int] == ks[order[q] as int]);
                assert(order[pl] < order[q]);
                assert(es[order[q] as int].0 == k);
            }
        }
        lemma_entries_map_value(sorted, k, pl);
        lemma_entries_map_value(es, k, last);
    } else {
        if exists|p: int| 0 <= p < sorted.len() && sorted[p].0 == k {
            let p = choose|p: int| 0 <= p < sorted.len() && sorted[p].0 == k;
            assert(es[order[p] as int].0 == k);
        }
    }
}

/// Some pair for `k` is the last one.
proof fn lemma_last_occurrence(es: Seq<(Seq<u8>, u64)>, k: Seq<u8>, i0: int)
    requires
        0 <= i0 < es.len(),
        es[i0].0 == k,
    ensures
        exists|i: int|
            0 <= i < es.len() && es[i].0 == k && (forall|j: int| i < j < es.len() ==> es[j].0 != k),
    decreases es.len() - i0,
{
    if exists|j: int| i0 < j < es.len() && es[j].0 == k {
        let j = choose|j: int| i0 < j < es.len() && es[j].0 == k;
        lemma_last_occurrence(es, k, j);
    } else {
        assert(forall|j: int| i0 < j < es.len() ==> es[j].0 != k);
    }
}

/// Node `m` is the target of some transition.
spec fn has_parent(nodes: Seq<FstNode>, m: int) -> bool {
    exists|n: int, i: int|
        0 <= n < nodes.len() && 0 <= i < nodes[n].transitions@.len()
            && nodes[n].transitions@[i].1.target == m
}

/// The shape of a trie under construction: `paths[n]` is the key that leads
/// to node `n`, distinct nodes have distinct keys, every transition leads to
/// a later node whose key extends its source's by the transition's byte, and
/// every node but the root has an incoming transition.
spec fn trie_inv(nodes: Seq<FstNode>, paths: Seq<Seq<u8>>) -> bool {
    &&& nodes.len() == paths.len()
    &&& nodes.len() > 0
    &&& paths[0] == Seq::<u8>::empty()
    &&& forall|n: int, i: int|
        0 <= n < nodes.len() && 0 <= i < nodes[n].transitions@.len() ==> {
            let tr = #[trigger] nodes[n].transitions@[i];
            &&& n < tr.1.target < nodes.len()
            &&& paths[tr.1.target as int] == paths[n].push(tr.0)
        }
    &&& forall|n: int| 0 <= n < nodes.len() ==> distinct_bytes(#[trigger] nodes[n].transitions@)
    &&& forall|a: int, b: int| 0 <= a < b < nodes.len() ==> paths[a] != paths[b]
    &&& forall|m: int| 0 < m < nodes.len() ==> #[trigger] has_parent(nodes, m)
}

/// Every transition has output 0, and a node that is not final has final
/// output 0.
spec fn trie_clean(nodes: Seq<FstNode>) -> bool {
    &&& forall|n: int, i: int|
        0 <= n < nodes.len() && 0 <= i < nodes[n].transitions@.len() ==> (#[trigger] nodes[n].transitions@[i]).1.output
            == 0
    &&& forall|n: int| 0 <= n < nodes.len() && !(#[trigger] nodes[n]).is_final ==> nodes[n].final_output == 0
}

/// The keys of the final nodes of a trie, with their outputs.
spec fn trie_map(nodes: Seq<FstNode>, paths: Seq<Seq<u8>>) -> Map<Seq<u8>, u64> {
    Map::new(
        |k: Seq<u8>| exists|n: int| 0 <= n < nodes.len() && paths[n] == k && nodes[n].is_final,
        |k: Seq<u8>|
            nodes[choose|n: int| 0 <= n < nodes.len() && paths[n] == k && nodes[n].is_final].final_output,
    )
}

/// Marking node `t` final with output `v` adds the key of `t`.
proof fn lemma_set_final(
    nodes: Seq<FstNode>,
    paths: Seq<Seq<u8>>,
    nodes2: Seq<FstNode>,
    t: int,
    v: u64,
)
    requires
        trie_inv(nodes, paths),
        0 <= t < nodes.len(),
        nodes2.len() == nodes.len(),
        forall|n: int| 0 <= n < nodes.len() && n != t ==> nodes2[n] == nodes[n],
        nodes2[t].transitions@ == nodes[t].transitions@,
        nodes2[t].is_final,
        nodes2[t].final_output == v,
    ensures
        trie_inv(nodes2, paths),
        trie_map(nodes2, paths) == trie_map(nodes, paths).insert(paths[t], v),
{
    assert forall|n: int| 0 <= n < nodes2.len() implies nodes2[n].transitions@
        == nodes[n].transitions@ by {}
    assert forall|m: int| 0 < m < nodes2.len() implies #[trigger] has_parent(nodes2, m) by {
        assert(has_parent(nodes, m));
        let (n, i) = choose|n: int, i: int|
            0 <= n < nodes.len() && 0 <= i < nodes[n].transitions@.len()
                && nodes[n].transitions@[i].1.target == m;
        assert(nodes2[n].transitions@[i] == nodes[n].transitions@[i]);
    }
    let m1 = trie_map(nodes, paths);
    let m2 = trie_map(nodes2, paths);
    let m3 = m1.insert(paths[t], v);
    assert forall|k: Seq<u8>| m2.contains_key(k) <==> m3.contains_key(k) by {
        if k == paths[t] {
            assert(m2.contains_key(k));
        } else if m1.contains_key(k) {
            let n = choose|n: int| 0 <= n < nodes.len() && paths[n] == k && nodes[n].is_final;
            assert(nodes2[n] == nodes[n]);
        } else if m2.contains_key(k) {
            let n = choose|n: int| 0 <= n < nodes2.len() && paths[n] == k && nodes2[n].is_final;
            assert(nodes2[n] == nodes[n]);
        }
    }
    assert forall|k: Seq<u8>| m2.contains_key(k) implies m2[k] == m3[k] by {
        let n2 = choose|n: int| 0 <= n < nodes2.len() && paths[n] == k && nodes2[n].is_final;
        if k == paths[t] {
            if n2 != t {
                if n2 < t {
                    assert(paths[n2] != paths[t]);
                } else {
                    assert(paths[t] != paths[n2]);
                }
            }
        } else {
            assert(nodes2[n2] == nodes[n2]);
            let n1 = choose|n: int| 0 <= n < nodes.len() && paths[n] == k && nodes[n].is_final;
            if n1 != n2 {
                if n1 < n2 {
                    assert(paths[n1] != paths[n2]);
                } else {
                    assert(paths[n2] != paths[n1]);
                }
            }
        }
    }
    assert(m2 =~= m3);
}

/// Adding a node for the key of `c` extended by `b`, where `c` had no
/// transition on `b`.
proof fn lemma_add_child(
    nodes: Seq<FstNode>,
    paths: Seq<Seq<u8>>,
    nodes2: Seq<FstNode>,
    c: int,
    b: u8,
    tr_new: FstTransition,
    f: bool,
    o: u64,
)
    requires
        tr_new.target == nodes.len(),
        trie_inv(nodes, paths),
        0 <= c < nodes.len(),
        forall|i: int| 0 <= i < nodes[c].transitions@.len() ==> nodes[c].transitions@[i].0 != b,
        nodes2.len() == nodes.len() + 1,
        forall|n: int| 0 <= n < nodes.len() && n != c ==> nodes2[n] == nodes[n],
        nodes2[c].transitions@ == nodes[c].transitions@.push((b, tr_new)),
        nodes2[c].is_final == nodes[c].is_final,
        nodes2[c].final_output == nodes[c].final_output,
        nodes2[nodes.len() as int].transitions@.len() == 0,
        nodes2[nodes.len() as int].is_final == f,
        nodes2[nodes.len() as int].final_output == o,
    ensures
        trie_inv(nodes2, paths.push(paths[c].push(b))),
        forall|m: int| 0 <= m < nodes.len() ==> paths[m] != paths[c].push(b),
        !trie_map(nodes, paths).contains_key(paths[c].push(b)),
        trie_map(nodes2, paths.push(paths[c].push(b))) == (if f {
            trie_map(nodes, paths).insert(paths[c].push(b), o)
        } else {
            trie_map(nodes, paths)
        }),
{
    let len = nodes.len();
    let key = paths[c].push(b);
    let paths2 = paths.push(key);
    // No existing node carries the new key.
    assert forall|m: int| 0 <= m < len implies paths[m] != key by {
        if paths[m] == key {
            assert(m != 0) by {
                assert(key.len() > 0);
            }
            assert(has_parent(nodes, m));
            let (n, i) = choose|n: int, i: int|
                0 <= n < nodes.len() && 0 <= i < nodes[n].transitions@.len()
                    && nodes[n].transitions@[i].1.target == m;
            let tr = nodes[n].transitions@[i];
            assert(paths[m] == paths[n].push(tr.0));
            assert(paths[n] =~= paths[m].drop_last());
            assert(paths[c] =~= key.drop_last());
            if n != c {
                if n < c {
                    assert(paths[n] != paths[c]);
                } else {
                    assert(paths[c] != paths[n]);
                }
            }
            assert(tr.0 == key.last());
            assert(false);
        }
    }
    assert forall|n: int, i: int|
        0 <= n < nodes2.len() && 0 <= i < nodes2[n].transitions@.len() implies {
        let tr = #[trigger] nodes2[n].transitions@[i];
        &&& n < tr.1.target < nodes2.len()
        &&& paths2[tr.1.target as int] == paths2[n].push(tr.0)
    } by {
        assert(paths2[c] == paths[c]);
        assert(paths2[len as int] == key);
        if n == c {
            if i < nodes[c].transitions@.len() {
                let tr = nodes[n].transitions@[i];
                assert(nodes2[n].transitions@[i] == tr);
                assert(paths2[tr.1.target as int] == paths[tr.1.target as int]);
            }
        } else if n < len {
            assert(nodes2[n] == nodes[n]);
            let tr = nodes[n].transitions@[i];
            assert(paths2[tr.1.target as int] == paths[tr.1.target as int]);
            assert(paths2[n] == paths[n]);
        }
    }
    assert forall|n: int| 0 <= n < nodes2.len() implies distinct_bytes(
        #[trigger] nodes2[n].transitions@,
    ) by {
        if n == c {
            let ts = nodes2[n].transitions@;
            assert forall|i: int, j: int| 0 <= i < j < ts.len() implies ts[i].0 != ts[j].0 by {
                if j < nodes[c].transitions@.len() {
                    assert(distinct_bytes(nodes[c].transitions@));
                    assert(ts[i] == nodes[c].transitions@[i]);
                    assert(ts[j] == nodes[c].transitions@[j]);
                } else {
                    assert(ts[i] == nodes[c].transitions@[i]);
                }
            }
        } else if n < len {
            assert(nodes2[n] == nodes[n]);
        }
    }
    assert forall|a: int, d: int| 0 <= a < d < nodes2.len() implies paths2[a] != paths2[d] by {
        if d == len {
            assert(paths2[a] == paths[a]);
        }
    }
    assert forall|m: int| 0 < m < nodes2.len() implies #[trigger] has_parent(nodes2, m) by {
        if m == len {
            let i = nodes[c].transitions@.len() as int;
            assert(nodes2[c].transitions@[i].1.target == m);
        } else {
            assert(has_parent(nodes, m));
            let (n, i) = choose|n: int, i: int|
                0 <= n < nodes.len() && 0 <= i < nodes[n].transitions@.len()
                    && nodes[n].transitions@[i].1.target == m;
            if n == c {
                assert(nodes2[n].transitions@[i] == nodes[n].transitions@[i]);
            } else {
                assert(nodes2[n] == nodes[n]);
            }
        }
    }
    assert(paths2[0] == paths[0]);
    let m1 = trie_map(nodes, paths);
    let m2 = trie_map(nodes2, paths2);
    let m3 = if f {
        m1.insert(key, o)
    } else {
        m1
    };
    assert(!m1.contains_key(key));
    assert forall|k: Seq<u8>| m2.contains_key(k) <==> m3.contains_key(k) by {
        if m1.contains_key(k) {
            let n = choose|n: int| 0 <= n < nodes.len() && paths[n] == k && nodes[n].is_final;
            assert(paths2[n] == paths[n]);
            if n != c {
                assert(nodes2[n] == nodes[n]);
            }
        }
        if m2.contains_key(k) {
            let n = choose|n: int| 0 <= n < nodes2.len() && paths2[n] == k && nodes2[n].is_final;
            if n < len {
                assert(paths2[n] == paths[n]);
                if n != c {
                    assert(nodes2[n] == nodes[n]);
                }
            }
        }
        if f && k == key {
            assert(paths2[len as int] == key);
        }
    }
    assert forall|k: Seq<u8>| m2.contains_key(k) implies m2[k] == m3[k] by {
        let n2 = choose|n: int| 0 <= n < nodes2.len() && paths2[n] == k && nodes2[n].is_final;
        if n2 == len {
        } else {
            assert(paths2[n2] == paths[n2]);
            if n2 != c {
                assert(nodes2[n2] == nodes[n2]);
            }
            assert(m1.contains_key(k));
            let n1 = choose|n: int| 0 <= n < nodes.len() && paths[n] == k && nodes[n].is_final;
            if n1 != n2 {
                if n1 < n2 {
                    assert(paths[n1] != paths[n2]);
                } else {
                    assert(paths[n2] != paths[n1]);
                }
            }
        }
    }
    assert(m2 =~= m3);
}

/// The strings strictly ascend in byte order.
#[verifier::opaque]
spec fn lex_sorted(paths: Seq<Seq<u8>>) -> bool {
    forall|a: int, b: int| 0 <= a < b < paths.len() ==> #[trigger] lex_lt(paths[a], paths[b])
}

/// Every prefix of every string is one of the strings.
#[verifier::opaque]
spec fn prefix_closed(paths: Seq<Seq<u8>>) -> bool {
    forall|n: int, j: int|
        0 <= n < paths.len() && 0 <= j <= paths[n].len() ==> exists|m: int|
            0 <= m < paths.len() && paths[m] == #[trigger] paths[n].take(j)
}

/// `q` and `k` agree on their first `c` bytes, and then `q` has the
/// smaller byte.
spec fn branches_below(q: Seq<u8>, k: Seq<u8>, c: int) -> bool {
    0 <= c < q.len() && c < k.len() && q.take(c) == k.take(c) && q[c] < k[c]
}

/// `q` is a prefix of `k` or branches off below it: no key from `k` on in
/// byte order passes through `q` and then goes below it.
#[verifier::opaque]
spec fn before_or_on(q: Seq<u8>, k: Seq<u8>) -> bool {
    has_prefix(k, q) || exists|c: int| #[trigger] branches_below(q, k, c)
}

/// A string strictly before another is a proper prefix of it, or branches
/// off below it.
proof fn lemma_lex_lt_shape(a: Seq<u8>, b: Seq<u8>)
    requires
        lex_lt(a, b),
    ensures
        (has_prefix(b, a) && a.len() < b.len()) || exists|c: int| #[trigger] branches_below(a, b, c),
    decreases a.len(),
{
    if a.len() == 0 {
        assert(b.take(0) =~= a);
    } else if a[0] != b[0] {
        assert(a.take(0) =~= b.take(0));
        assert(branches_below(a, b, 0));
    } else {
        let a1 = a.drop_first();
        let b1 = b.drop_first();
        lemma_lex_lt_shape(a1, b1);
        if has_prefix(b1, a1) && a1.len() < b1.len() {
            assert(b.take(a.len() as int) =~= a) by {
                assert forall|x: int| 0 <= x < a.len() implies b[x] == a[x] by {
                    if x > 0 {
                        assert(b1.take(a1.len() as int)[x - 1] == a1[x - 1]);
                    }
                }
            }
        } else {
            let c = choose|c: int| #[trigger] branches_below(a1, b1, c);
            assert(a.take(c + 1) =~= b.take(c + 1)) by {
                assert forall|x: int| 0 <= x < c + 1 implies a[x] == b[x] by {
                    if x > 0 {
                        assert(a1.take(c)[x - 1] == b1.take(c)[x - 1]);
                    }
                }
            }
            assert(branches_below(a, b, c + 1));
        }
    }
}

/// Being a prefix of or below `k` carries over to any `k2` from `k` on.
proof fn lemma_before_or_on_step(q: Seq<u8>, k: Seq<u8>, k2: Seq<u8>)
    requires
        before_or_on(q, k),
        lex_lt(k, k2) || k == k2,
    ensures
        before_or_on(q, k2),
{
    reveal(before_or_on);
    if k != k2 {
        lemma_lex_lt_shape(k, k2);
        if has_prefix(k2, k) && k.len() < k2.len() {
            if has_prefix(k, q) {
                assert(k2.take(q.len() as int) =~= k.take(q.len() as int));
            } else {
                let c = choose|c: int| #[trigger] branches_below(q, k, c);
                assert(k2.take(c) =~= k.take(c));
                assert(k2[c] == k2.take(k.len() as int)[c]);
                assert(branches_below(q, k2, c));
            }
        } else {
            let d = choose|d: int| #[trigger] branches_below(k, k2, d);
            if has_prefix(k, q) {
                if q.len() <= d {
                    assert(k2.take(q.len() as int) =~= k2.take(d).take(q.len() as int));
                    assert(k.take(q.len() as int) =~= k.take(d).take(q.len() as int));
                } else {
                    assert(q.take(d) =~= k.take(q.len() as int).take(d));
                    assert(k.take(d) =~= k.take(q.len() as int).take(d));
                    assert(q[d] == k.take(q.len() as int)[d]);
                    assert(branches_below(q, k2, d));
                }
            } else {
                let c = choose|c: int| #[trigger] branches_below(q, k, c);
                if c < d {
                    assert(k.take(c) =~= k.take(d).take(c));
                    assert(k2.take(c) =~= k2.take(d).take(c));
                    assert(k[c] == k.take(d)[c]);
                    assert(k2[c] == k2.take(d)[c]);
                    assert(branches_below(q, k2, c));
                } else if c == d {
                    assert(branches_below(q, k2, c));
                } else {
                    assert(q.take(d) =~= q.take(c).take(d));
                    assert(k.take(d) =~= k.take(c).take(d));
                    assert(q[d] == q.take(c)[d]);
                    assert(k[d] == k.take(c)[d]);
                    assert(branches_below(q, k2, d));
                }
            }
        }
    }
}

/// A new string `k.take(len)` that no node has yet comes after every
/// string of a prefix-closed set that is a prefix of or below `k`.
proof fn lemma_new_path_after(paths: Seq<Seq<u8>>, k: Seq<u8>, len: int, n: int)
    requires
        prefix_closed(paths),
        1 <= len <= k.len(),
        forall|m: int| 0 <= m < paths.len() ==> paths[m] != k.take(len),
        0 <= n < paths.len(),
        before_or_on(paths[n], k),
    ensures
        lex_lt(paths[n], k.take(len)),
{
    reveal(prefix_closed);
    reveal(before_or_on);
    let q = paths[n];
    let p = k.take(len);
    if has_prefix(k, q) {
        if q.len() < len {
            assert(p =~= q + p.skip(q.len() as int));
            lemma_lex_prefix(q, p.skip(q.len() as int));
        } else if q.len() == len {
            assert(q == p);
        } else {
            let m = choose|m: int| 0 <= m < paths.len() && paths[m] == #[trigger] paths[n].take(len);
            assert(q.take(len) =~= p);
        }
    } else {
        let c = choose|c: int| #[trigger] branches_below(q, k, c);
        if c < len {
            assert(q =~= q.take(c).push(q[c]) + q.skip(c + 1));
            assert(p =~= k.take(c).push(k[c]) + p.skip(c + 1));
            lemma_lex_branch(q.take(c), q[c], q.skip(c + 1), k[c], p.skip(c + 1));
        } else {
            let m = choose|m: int| 0 <= m < paths.len() && paths[m] == #[trigger] paths[n].take(len);
            assert(q.take(len) =~= q.take(c).take(len));
            assert(p =~= k.take(c).take(len));
        }
    }
}

/// Adding the next prefix of `key`, which no node has yet, keeps the
/// strings ascending, prefix-closed, and prefixes of or below `key`.
proof fn lemma_push_path(ps: Seq<Seq<u8>>, key: Seq<u8>, i: int, current: int)
    requires
        lex_sorted(ps),
        prefix_closed(ps),
        forall|n: int| 0 <= n < ps.len() ==> before_or_on(#[trigger] ps[n], key),
        0 <= i < key.len(),
        0 <= current < ps.len(),
        ps[current] == key.take(i),
        forall|m: int| 0 <= m < ps.len() ==> ps[m] != key.take(i + 1),
    ensures
        lex_sorted(ps.push(key.take(i + 1))),
        prefix_closed(ps.push(key.take(i + 1))),
        forall|n: int| 0 <= n < ps.len() + 1 ==> before_or_on(#[trigger] ps.push(key.take(i + 1))[n], key),
{
    reveal(lex_sorted);
    reveal(prefix_closed);
    let np = key.take(i + 1);
    let ps2 = ps.push(np);
    assert forall|n: int| 0 <= n < ps.len() implies lex_lt(ps[n], np) by {
        lemma_new_path_after(ps, key, i + 1, n);
    }
    assert forall|a: int, b: int| 0 <= a < b < ps2.len() implies #[trigger] lex_lt(ps2[a], ps2[b]) by {
        if b < ps.len() {
            assert(lex_lt(ps[a], ps[b]));
        }
    }
    assert forall|n: int, j: int| 0 <= n < ps2.len() && 0 <= j <= ps2[n].len() implies exists|m: int|
        0 <= m < ps2.len() && ps2[m] == #[trigger] ps2[n].take(j) by {
        if n < ps.len() {
            assert(ps2[n] == ps[n]);
            let m = choose|m: int| 0 <= m < ps.len() && ps[m] == #[trigger] ps[n].take(j);
            assert(ps2[m] == ps[m]);
        } else if j <= i {
            assert(np.take(j) =~= ps[current].take(j));
            let m = choose|m: int| 0 <= m < ps.len() && ps[m] == #[trigger] ps[current].take(j);
            assert(ps2[m] == ps[m]);
        } else {
            assert(np.take(j) =~= np);
            assert(ps2[ps.len() as int] == np);
        }
    }
    assert forall|n: int| 0 <= n < ps2.len() implies before_or_on(#[trigger] ps2[n], key) by {
        if n < ps.len() {
            assert(ps2[n] == ps[n]);
        } else {
            reveal(before_or_on);
            assert(key.take(np.len() as int) =~= np);
            assert(has_prefix(key, np));
        }
    }
}

/// Linear scan for the transition labelled `b`.
fn find_linear(ts: &Vec<(u8, FstTransition)>, b: u8) -> (r: Option<usize>)
    ensures
        match r {
            Some(p) => p < ts@.len() && ts@[p as int].0 == b,
            None => forall|i: int| 0 <= i < ts@.len() ==> ts@[i].0 != b,
        },
{
    let mut i: usize = 0;
    while i < ts.len()
        invariant
            i <= ts@.len(),
            forall|j: int| 0 <= j < i ==> ts@[j].0 != b,
        decreases ts@.len() - i,
    {
        if ts[i].0 == b {
            return Some(i);
        }
        i = i + 1;
    }
    None
}

/// Inserts `key` with `value` into the trie, sharing the longest existing
/// prefix of `key`.
fn insert_key(
    nodes: &mut Vec<FstNode>,
    key: &Vec<u8>,
    value: u64,
    Ghost(paths): Ghost<Seq<Seq<u8>>>,
) -> (r: Ghost<Seq<Seq<u8>>>)
    requires
        trie_inv(old(nodes)@, paths),
        trie_clean(old(nodes)@),
        lex_sorted(paths),
        prefix_closed(paths),
        forall|n: int| 0 <= n < paths.len() ==> before_or_on(#[trigger] paths[n], key@),
    ensures
        trie_inv(final(nodes)@, r@),
        trie_clean(final(nodes)@),
        lex_sorted(r@),
        prefix_closed(r@),
        forall|n: int| 0 <= n < r@.len() ==> before_or_on(#[trigger] r@[n], key@),
        trie_map(final(nodes)@, r@) == trie_map(old(nodes)@, paths).insert(key@, value),
        r@.len() >= paths.len(),
        r@.take(paths.len() as int) == paths,
        forall|n: int|
            paths.len() <= n < r@.len() ==> exists|j: int| 1 <= j <= key@.len() && #[trigger] r@[n] == key@.take(j),
        forall|j: int| 1 <= j <= key@.len() ==> exists|n: int| 0 <= n < r@.len() && r@[n] == #[trigger] key@.take(j),
{
    let ghost m0 = trie_map(nodes@, paths);
    let ghost mut ps = paths;
    let mut current: usize = 0;
    let mut i: usize = 0;
    assert(key@.take(0) =~= Seq::<u8>::empty());
    assert(ps.take(paths.len() as int) =~= paths);
    while i < key.len()
        invariant
            trie_inv(nodes@, ps),
            trie_clean(nodes@),
            lex_sorted(ps),
            prefix_closed(ps),
            forall|n: int| 0 <= n < ps.len() ==> before_or_on(#[trigger] ps[n], key@),
            ps.len() >= paths.len(),
            ps.take(paths.len() as int) == paths,
            forall|n: int|
                paths.len() <= n < ps.len() ==> exists|j: int| 1 <= j <= i && #[trigger] ps[n] == key@.take(j),
            forall|j: int| 1 <= j <= i ==> exists|n: int| 0 <= n < ps.len() && ps[n] == #[trigger] key@.take(j),
            current < nodes@.len(),
            i <= key@.len(),
            ps[current as int] == key@.take(i as int),
            trie_map(nodes@, ps) == (if i == key@.len() && key@.len() > 0 {
                m0.insert(key@, value)
            } else {
                m0
            }),
        decreases key@.len() - i,
    {
        let byte = key[i];
        let is_last = i == key.len() - 1;
        assert(key@.take(i + 1) =~= key@.take(i as int).push(byte));
        match find_linear(&nodes[current].transitions, byte) {
            Some(pos) => {
                let target = nodes[current].transitions[pos].1.target;
                assert(ps[target as int] == ps[current as int].push(byte)) by {
                    let tr = nodes@[current as int].transitions@[pos as int];
                    assert(tr.0 == byte);
                }
                if is_last {
                    let ghost before = nodes@;
                    nodes[target].is_final = true;
                    nodes[target].final_output = value;
                    proof {
                        lemma_set_final(before, ps, nodes@, target as int, value);
                        assert(key@.take(i + 1) =~= key@);
                        lemma_clean_set_final(before, nodes@, target as int);
                    }
                }
                proof {
                    assert(ps[target as int] == key@.take(i + 1));
                }
                current = target;
            },
            None => {
                let ghost before = nodes@;
                let new_idx = nodes.len();
                let out: u64 = if is_last {
                    value
                } else {
                    0
                };
                nodes.push(FstNode { transitions: Vec::new(), is_final: is_last, final_output: out });
                let tr_new = FstTransition { target: new_idx, output: 0 };
                nodes[current].transitions.push((byte, tr_new));
                proof {
                    lemma_add_child(before, ps, nodes@, current as int, byte, tr_new, is_last, out);
                    lemma_clean_add_child(before, nodes@, current as int, byte, tr_new);
                    let old_ps = ps;
                    let np = key@.take(i + 1);
                    assert(old_ps[current as int].push(byte) == np);
                    lemma_push_path(old_ps, key@, i as int, current as int);
                    ps = ps.push(ps[current as int].push(byte));
                    assert(ps[old_ps.len() as int] == key@.take(i + 1));
                    assert(ps.take(paths.len() as int) =~= old_ps.take(paths.len() as int));
                    assert forall|n: int| paths.len() <= n < ps.len() implies exists|j: int|
                        1 <= j <= i + 1 && #[trigger] ps[n] == key@.take(j) by {
                        if n < old_ps.len() {
                            assert(ps[n] == old_ps[n]);
                        }
                    }
                    assert forall|j: int| 1 <= j <= i + 1 implies exists|n: int|
                        0 <= n < ps.len() && ps[n] == #[trigger] key@.take(j) by {
                        if j <= i {
                            let n = choose|n: int| 0 <= n < old_ps.len() && old_ps[n] == key@.take(j);
                            assert(ps[n] == old_ps[n]);
                        } else {
                            assert(ps[old_ps.len() as int] == key@.take(j));
                        }
                    }
                    if is_last {
                        assert(key@.take(i + 1) =~= key@);
                    }
                }
                current = new_idx;
            },
        }
        i = i + 1;
    }
    if key.len() == 0 {
        let ghost before = nodes@;
        nodes[0].is_final = true;
        nodes[0].final_output = value;
        proof {
            lemma_set_final(before, ps, nodes@, 0, value);
            assert(key@ =~= Seq::<u8>::empty());
            lemma_clean_set_final(before, nodes@, 0);
        }
    }
    Ghost(ps)
}

/// Reordering the transitions of a node keeps the trie clean.
proof fn lemma_clean_replace(nodes: Seq<FstNode>, nodes2: Seq<FstNode>, k: int)
    requires
        trie_clean(nodes),
        0 <= k < nodes.len(),
        nodes2.len() == nodes.len(),
        forall|m: int| 0 <= m < nodes.len() && m != k ==> nodes2[m] == nodes[m],
        nodes2[k].is_final == nodes[k].is_final,
        nodes2[k].final_output == nodes[k].final_output,
        forall|i: int|
            0 <= i < nodes2[k].transitions@.len() ==> #[trigger] occurs(nodes[k].transitions@, nodes2[k].transitions@[i]),
    ensures
        trie_clean(nodes2),
{
    assert forall|n: int, i: int|
        0 <= n < nodes2.len() && 0 <= i < nodes2[n].transitions@.len() implies (
        #[trigger] nodes2[n].transitions@[i]).1.output == 0 by {
        if n == k {
            assert(occurs(nodes[k].transitions@, nodes2[k].transitions@[i]));
            let j = choose|j: int|
                0 <= j < nodes[k].transitions@.len() && nodes[k].transitions@[j] == nodes2[k].transitions@[i];
            assert(nodes[k].transitions@[j].1.output == 0);
        } else {
            assert(nodes[n].transitions@[i] == nodes2[n].transitions@[i]);
        }
    }
    assert forall|n: int| 0 <= n < nodes2.len() && !(#[trigger] nodes2[n]).is_final implies nodes2[n].final_output
        == 0 by {
        if n != k {
            assert(nodes2[n] == nodes[n]);
        } else {
            assert(!nodes[k].is_final);
        }
    }
}

/// Marking a node final keeps the trie clean.
proof fn lemma_clean_set_final(nodes: Seq<FstNode>, nodes2: Seq<FstNode>, t: int)
    requires
        trie_clean(nodes),
        0 <= t < nodes.len(),
        nodes2.len() == nodes.len(),
        forall|n: int| 0 <= n < nodes.len() && n != t ==> nodes2[n] == nodes[n],
        nodes2[t].transitions@ == nodes[t].transitions@,
        nodes2[t].is_final,
    ensures
        trie_clean(nodes2),
{
    assert forall|n: int, i: int|
        0 <= n < nodes2.len() && 0 <= i < nodes2[n].transitions@.len() implies (
        #[trigger] nodes2[n].transitions@[i]).1.output == 0 by {
        assert(nodes[n].transitions@[i] == nodes2[n].transitions@[i]);
    }
    assert forall|n: int| 0 <= n < nodes2.len() && !(#[trigger] nodes2[n]).is_final implies nodes2[n].final_output
        == 0 by {
        assert(nodes2[n] == nodes[n]);
    }
}

/// Adding a fresh clean node under an output-0 transition keeps the trie
/// clean.
proof fn lemma_clean_add_child(nodes: Seq<FstNode>, nodes2: Seq<FstNode>, c: int, b: u8, tr_new: FstTransition)
    requires
        trie_clean(nodes),
        0 <= c < nodes.len(),
        tr_new.output == 0,
        nodes2.len() == nodes.len() + 1,
        forall|n: int| 0 <= n < nodes.len() && n != c ==> nodes2[n] == nodes[n],
        nodes2[c].transitions@ == nodes[c].transitions@.push((b, tr_new)),
        nodes2[c].is_final == nodes[c].is_final,
        nodes2[c].final_output == nodes[c].final_output,
        nodes2[nodes.len() as int].transitions@.len() == 0,
        !nodes2[nodes.len() as int].is_final ==> nodes2[nodes.len() as int].final_output == 0,
    ensures
        trie_clean(nodes2),
{
    assert forall|n: int, i: int|
        0 <= n < nodes2.len() && 0 <= i < nodes2[n].transitions@.len() implies (
        #[trigger] nodes2[n].transitions@[i]).1.output == 0 by {
        if n == c {
            if i < nodes[c].transitions@.len() {
                assert(nodes[c].transitions@[i] == nodes2[c].transitions@[i]);
            }
        } else if n < nodes.len() {
            assert(nodes[n].transitions@[i] == nodes2[n].transitions@[i]);
        }
    }
    assert forall|n: int| 0 <= n < nodes2.len() && !(#[trigger] nodes2[n]).is_final implies nodes2[n].final_output
        == 0 by {
        if n < nodes.len() && n != c {
            assert(nodes2[n] == nodes[n]);
        }
    }
}

/// `x` occurs in `s`.
spec fn occurs(s: Seq<(u8, FstTransition)>, x: (u8, FstTransition)) -> bool {
    exists|j: int| 0 <= j < s.len() && s[j] == x
}

/// The same transitions, ordered by ascending byte.
fn sort_transitions(ts: &Vec<(u8, FstTransition)>) -> (r: Vec<(u8, FstTransition)>)
    requires
        distinct_bytes(ts@),
    ensures
        r@.len() == ts@.len(),
        ascending_bytes(r@),
        forall|i: int| 0 <= i < r@.len() ==> #[trigger] occurs(ts@, r@[i]),
        forall|j: int| 0 <= j < ts@.len() ==> #[trigger] occurs(r@, ts@[j]),
{
    let mut r: Vec<(u8, FstTransition)> = Vec::new();
    let mut j: usize = 0;
    while j < ts.len()
        invariant
            j <= ts@.len(),
            distinct_bytes(ts@),
            r@.len() == j,
            ascending_bytes(r@),
            forall|i: int| 0 <= i < r@.len() ==> exists|k: int| 0 <= k < j && ts@[k] == #[trigger] r@[i],
            forall|k: int| 0 <= k < j ==> #[trigger] occurs(r@, ts@[k]),
        decreases ts@.len() - j,
    {
        let b = ts[j].0;
        let mut pos: usize = 0;
        while pos < r.len() && r[pos].0 < b
            invariant
                pos <= r@.len(),
                forall|i: int| 0 <= i < pos ==> r@[i].0 < b,
            decreases r@.len() - pos,
        {
            pos = pos + 1;
        }
        let ghost old_r = r@;
        assert forall|i: int| 0 <= i < old_r.len() implies old_r[i].0 != b by {
            let k = choose|k: int| 0 <= k < j && ts@[k] == old_r[i];
            assert(ts@[k].0 != ts@[j as int].0);
        }
        let item = (b, FstTransition { target: ts[j].1.target, output: ts[j].1.output });
        assert(item == ts@[j as int]);
        r.insert(pos, item);
        proof {
            assert forall|i1: int, i2: int| 0 <= i1 < i2 < r@.len() implies r@[i1].0 < r@[i2].0 by {
                if i1 < pos && i2 == pos {
                } else if i1 == pos {
                    assert(old_r[i2 - 1].0 >= b);
                    assert(old_r[i2 - 1].0 != b);
                } else if i1 < pos && i2 > pos {
                    assert(old_r[i1].0 < old_r[i2 - 1].0);
                } else if i1 > pos {
                    assert(old_r[i1 - 1].0 < old_r[i2 - 1].0);
                } else {
                    assert(old_r[i1].0 < old_r[i2].0);
                }
            }
            assert forall|i: int| 0 <= i < r@.len() implies exists|k: int|
                0 <= k < j + 1 && ts@[k] == #[trigger] r@[i] by {
                if i < pos {
                    assert(r@[i] == old_r[i]);
                    let k = choose|k: int| 0 <= k < j && ts@[k] == old_r[i];
                } else if i == pos {
                    assert(ts@[j as int] == r@[i]);
                } else {
                    assert(r@[i] == old_r[i - 1]);
                    let k = choose|k: int| 0 <= k < j && ts@[k] == old_r[i - 1];
                }
            }
            assert forall|k: int| 0 <= k < j + 1 implies #[trigger] occurs(r@, ts@[k]) by {
                if k == j {
                    assert(r@[pos as int] == ts@[k]);
                } else {
                    assert(occurs(old_r, ts@[k]));
                    let i = choose|i: int| 0 <= i < old_r.len() && old_r[i] == ts@[k];
                    if i < pos {
                        assert(r@[i] == ts@[k]);
                    } else {
                        assert(r@[i + 1] == ts@[k]);
                    }
                }
            }
        }
        j = j + 1;
    }
    proof {
        assert forall|i: int| 0 <= i < r@.len() implies #[trigger] occurs(ts@, r@[i]) by {
            let k = choose|k: int| 0 <= k < j && ts@[k] == r@[i];
        }
    }
    r
}

/// Replacing the transitions of node `n` by the same transitions in another
/// order keeps the trie and its keys.
proof fn lemma_replace_transitions(
    nodes: Seq<FstNode>,
    paths: Seq<Seq<u8>>,
    nodes2: Seq<FstNode>,
    n: int,
)
    requires
        trie_inv(nodes, paths),
        0 <= n < nodes.len(),
        nodes2.len() == nodes.len(),
        forall|m: int| 0 <= m < nodes.len() && m != n ==> nodes2[m] == nodes[m],
        nodes2[n].is_final == nodes[n].is_final,
        nodes2[n].final_output == nodes[n].final_output,
        ascending_bytes(nodes2[n].transitions@),
        forall|i: int|
            0 <= i < nodes2[n].transitions@.len() ==> #[trigger] occurs(
                nodes[n].transitions@,
                nodes2[n].transitions@[i],
            ),
        forall|j: int|
            0 <= j < nodes[n].transitions@.len() ==> #[trigger] occurs(
                nodes2[n].transitions@,
                nodes[n].transitions@[j],
            ),
    ensures
        trie_inv(nodes2, paths),
        trie_map(nodes2, paths) == trie_map(nodes, paths),
{
    assert forall|m: int, i: int|
        0 <= m < nodes2.len() && 0 <= i < nodes2[m].transitions@.len() implies {
        let tr = #[trigger] nodes2[m].transitions@[i];
        &&& m < tr.1.target < nodes2.len()
        &&& paths[tr.1.target as int] == paths[m].push(tr.0)
    } by {
        if m == n {
            let tr = nodes2[m].transitions@[i];
            assert(occurs(nodes[n].transitions@, tr));
            let k = choose|k: int|
                0 <= k < nodes[n].transitions@.len() && nodes[n].transitions@[k] == tr;
            assert(nodes[n].transitions@[k] == tr);
        } else {
            assert(nodes2[m] == nodes[m]);
        }
    }
    assert forall|m: int| 0 <= m < nodes2.len() implies distinct_bytes(
        #[trigger] nodes2[m].transitions@,
    ) by {
        if m != n {
            assert(nodes2[m] == nodes[m]);
            assert(distinct_bytes(nodes[m].transitions@));
        } else {
            let ts = nodes2[m].transitions@;
            assert forall|i: int, j: int| 0 <= i < j < ts.len() implies ts[i].0 != ts[j].0 by {
                assert(ts[i].0 < ts[j].0);
            }
        }
    }
    assert forall|m: int| 0 < m < nodes2.len() implies #[trigger] has_parent(nodes2, m) by {
        assert(has_parent(nodes, m));
        let (p, i) = choose|p: int, i: int|
            0 <= p < nodes.len() && 0 <= i < nodes[p].transitions@.len()
                && nodes[p].transitions@[i].1.target == m;
        if p == n {
            assert(occurs(nodes2[n].transitions@, nodes[n].transitions@[i]));
            let k = choose|k: int|
                0 <= k < nodes2[n].transitions@.len() && nodes2[n].transitions@[k]
                    == nodes[n].transitions@[i];
            assert(nodes2[p].transitions@[k].1.target == m);
        } else {
            assert(nodes2[p] == nodes[p]);
            assert(nodes2[p].transitions@[i].1.target == m);
        }
    }
    assert forall|m: int| 0 <= m < nodes.len() implies nodes2[m].is_final == nodes[m].is_final
        && nodes2[m].final_output == nodes[m].final_output by {
        if m != n {
            assert(nodes2[m] == nodes[m]);
        }
    }
    assert(trie_map(nodes2, paths) =~= trie_map(nodes, paths));
}

impl Fst {
    /// Walking from `m` by `s` reaches the node whose key is that of `m`
    /// followed by `s`.
    proof fn lemma_walk_paths(self, paths: Seq<Seq<u8>>, m: int, s: Seq<u8>)
        requires
            trie_inv(self.nodes@, paths),
            0 <= m < self.nodes@.len(),
        ensures
            self.walk(m, s) matches Some(x) ==> 0 <= x < self.nodes@.len() && paths[x] == paths[m]
                + s,
        decreases s.len(),
    {
        if s.len() > 0 {
            let ts = self.transitions_of(m);
            if exists|i: int| 0 <= i < ts.len() && ts[i].0 == s[0] {
                let c = choose|i: int| 0 <= i < ts.len() && ts[i].0 == s[0];
                let tr = self.nodes@[m].transitions@[c];
                assert(m < tr.1.target < self.nodes@.len());
                self.lemma_walk_paths(paths, tr.1.target as int, s.drop_first());
                assert(paths[m] + s =~= paths[m].push(s[0]) + s.drop_first());
            }
        } else {
            assert(paths[m] + s =~= paths[m]);
        }
    }

    /// Every node is reached from the root by its key.
    proof fn lemma_walk_reaches(self, paths: Seq<Seq<u8>>, n: int)
        requires
            trie_inv(self.nodes@, paths),
            0 <= n < self.nodes@.len(),
        ensures
            self.walk(0, paths[n]) == Some(n),
        decreases paths[n].len(),
    {
        if n == 0 {
        } else {
            assert(has_parent(self.nodes@, n));
            let (p, i) = choose|p: int, i: int|
                0 <= p < self.nodes@.len() && 0 <= i < self.nodes@[p].transitions@.len()
                    && self.nodes@[p].transitions@[i].1.target == n;
            let tr = self.nodes@[p].transitions@[i];
            assert(paths[n] == paths[p].push(tr.0));
            self.lemma_walk_reaches(paths, p);
            self.lemma_walk_concat(0, paths[p], seq![tr.0]);
            assert(paths[p] + seq![tr.0] =~= paths[n]);
            assert(distinct_bytes(self.transitions_of(p)));
            lemma_step_at(self.transitions_of(p), i);
            assert(seq![tr.0].drop_first() =~= Seq::<u8>::empty());
            assert(self.walk(n, Seq::<u8>::empty()) == Some(n));
            assert(self.walk(p, seq![tr.0]) == self.walk(n, seq![tr.0].drop_first()));
            assert(self.walk(p, seq![tr.0]) == Some(n));
        }
    }

    /// A finished clean trie of the pairs `es` has their trie layout.
    proof fn lemma_layout(self, es: Seq<(Seq<u8>, u64)>, paths: Seq<Seq<u8>>)
        requires
            trie_inv(self.nodes@, paths),
            trie_clean(self.nodes@),
            trie_map(self.nodes@, paths) == entries_map(es),
            lex_sorted(paths),
            forall|m: int| 0 < m < paths.len() ==> key_prefix(es, #[trigger] paths[m]),
            forall|pre: Seq<u8>| #[trigger] key_prefix(es, pre) ==> exists|m: int| 0 <= m < paths.len() && paths[m] == pre,
        ensures
            self.trie_layout(es, paths),
    {
        reveal(lex_sorted);
        let nodes = self.nodes@;
        let tm = trie_map(nodes, paths);
        assert forall|n1: int, i1: int, n2: int, i2: int|
            0 <= n1 < nodes.len() && 0 <= i1 < self.transitions_of(n1).len() && 0 <= n2 < nodes.len() && 0 <= i2
                < self.transitions_of(n2).len() && #[trigger] self.transitions_of(n1)[i1].1.target
                == #[trigger] self.transitions_of(n2)[i2].1.target implies n1 == n2 && i1 == i2 by {
            let t1 = nodes[n1].transitions@[i1];
            let t2 = nodes[n2].transitions@[i2];
            let m = t1.1.target as int;
            assert(paths[m] == paths[n1].push(t1.0));
            assert(paths[m] == paths[n2].push(t2.0));
            assert(paths[n1] =~= paths[m].drop_last());
            assert(paths[n2] =~= paths[m].drop_last());
            if n1 != n2 {
                if n1 < n2 {
                    assert(paths[n1] != paths[n2]);
                } else {
                    assert(paths[n2] != paths[n1]);
                }
            }
            assert(t1.0 == paths[m].last() && t2.0 == paths[m].last());
            if i1 != i2 {
                assert(distinct_bytes(nodes[n1].transitions@));
                if i1 < i2 {
                    assert(nodes[n1].transitions@[i1].0 != nodes[n1].transitions@[i2].0);
                } else {
                    assert(nodes[n1].transitions@[i2].0 != nodes[n1].transitions@[i1].0);
                }
            }
        }
        assert forall|m: int| 0 < m < nodes.len() implies #[trigger] self.has_incoming(m) by {
            assert(has_parent(nodes, m));
            let (n, i) = choose|n: int, i: int|
                0 <= n < nodes.len() && 0 <= i < nodes[n].transitions@.len() && nodes[n].transitions@[i].1.target == m;
            assert(self.transitions_of(n)[i].1.target == m);
        }
        assert forall|n: int| 0 <= n < nodes.len() implies (#[trigger] nodes[n]).is_final == tm.contains_key(paths[n])
            && nodes[n].final_output == if nodes[n].is_final {
            tm[paths[n]]
        } else {
            0
        } by {
            if tm.contains_key(paths[n]) {
                let n2 = choose|m: int| 0 <= m < nodes.len() && paths[m] == paths[n] && nodes[m].is_final;
                if n2 != n {
                    if n2 < n {
                        assert(paths[n2] != paths[n]);
                    } else {
                        assert(paths[n] != paths[n2]);
                    }
                }
            }
        }
        assert forall|n: int, i: int|
            0 <= n < nodes.len() && 0 <= i < self.transitions_of(n).len() implies {
            let tr = #[trigger] self.transitions_of(n)[i];
            &&& n < tr.1.target < nodes.len()
            &&& paths[tr.1.target as int] == paths[n].push(tr.0)
            &&& tr.1.output == 0
        } by {
            let tr = nodes[n].transitions@[i];
        }
    }

    /// A finished trie is a well-formed FST whose map is the trie's keys.
    proof fn lemma_trie_view(self, paths: Seq<Seq<u8>>)
        requires
            trie_inv(self.nodes@, paths),
            forall|n: int| 0 <= n < self.nodes@.len() ==> ascending_bytes(#[trigger] self.transitions_of(n)),
        ensures
            self.wf(),
            self@ == trie_map(self.nodes@, paths),
    {
        assert forall|n: int, i: int|
            0 <= n < self.nodes@.len() && 0 <= i < self.transitions_of(n).len() implies n
            < #[trigger] self.transitions_of(n)[i].1.target < self.nodes@.len() by {
            let tr = self.nodes@[n].transitions@[i];
        }
        let tm = trie_map(self.nodes@, paths);
        assert forall|k: Seq<u8>| #[trigger] self.lookup(k) == (if tm.contains_key(k) {
            Some(tm[k])
        } else {
            None
        }) by {
            self.lemma_walk_paths(paths, 0, k);
            assert(paths[0] + k =~= k);
            if exists|n: int| 0 <= n < self.nodes@.len() && paths[n] == k {
                let n = choose|n: int| 0 <= n < self.nodes@.len() && paths[n] == k;
                self.lemma_walk_reaches(paths, n);
                if tm.contains_key(k) {
                    let n2 = choose|m: int|
                        0 <= m < self.nodes@.len() && paths[m] == k && self.nodes@[m].is_final;
                    if n2 != n {
                        if n2 < n {
                            assert(paths[n2] != paths[n]);
                        } else {
                            assert(paths[n] != paths[n2]);
                        }
                    }
                }
            } else {
                match self.walk(0, k) {
                    Some(x) => {
                        assert(paths[x] == k);
                    },
                    None => {},
                }
            }
        }
        assert(self@ =~= tm);
    }
}

impl FstBuilder {
    pub fn new() -> (b: Self)
        ensures
            b@ == Seq::<(Seq<u8>, u64)>::empty(),
    {
        let b = FstBuilder { entries: Vec::new() };
        assert(b@ =~= Seq::<(Seq<u8>, u64)>::empty());
        b
    }

    /// Collect a key-value pair. Keys are byte slices; values are u64.
    pub fn insert(&mut self, key: &[u8], value: u64)
        ensures
            final(self)@ == old(self)@.push((key@, value)),
    {
        let k = vstd::slice::slice_to_vec(key);
        self.entries.push((k, value));
        assert(final(self)@ =~= old(self)@.push((key@, value)));
    }

    /// Sort entries lexicographically by key, then build the FST with shared prefixes.
    pub fn build(self) -> (fst: Fst)
        ensures
            fst.wf(),
            fst@ == entries_map(self@),
            exists|paths: Seq<Seq<u8>>| #[trigger] fst.trie_layout(self@, paths),
    {
        let ghost es = self@;
        let n = self.entries.len();
        let mut keys: Vec<Vec<u8>> = Vec::new();
        let mut i: usize = 0;
        while i < n
            invariant
                n == self.entries@.len(),
                es == pairs_view(self.entries@),
                i <= n,
                keys@.len() == i,
                forall|q: int| 0 <= q < i ==> #[trigger] keys@[q]@ == es[q].0,
            decreases n - i,
        {
            keys.push(vstd::slice::slice_to_vec(self.entries[i].0.as_slice()));
            i = i + 1;
        }
        // Sort entries lexicographically by key
        let order = stable_sort_order(&keys);
        assert(keys@.map_values(|k: Vec<u8>| k@) =~= es.map_values(|e: (Seq<u8>, u64)| e.0));
        let mut sorted: Vec<(Vec<u8>, u64)> = Vec::new();
        let mut p: usize = 0;
        while p < n
            invariant
                n == self.entries@.len(),
                n == order@.len(),
                es == pairs_view(self.entries@),
                forall|q: int| 0 <= q < n ==> order@[q] < n,
                p <= n,
                sorted@.len() == p,
                forall|q: int| 0 <= q < p ==> #[trigger] pairs_view(sorted@)[q] == es[order@[q] as int],
            decreases n - p,
        {
            let j = order[p];
            let k = vstd::slice::slice_to_vec(self.entries[j].0.as_slice());
            let ghost old_sorted = sorted@;
            sorted.push((k, self.entries[j].1));
            assert(pairs_view(sorted@) =~= pairs_view(old_sorted).push(es[j as int]));
            p = p + 1;
        }
        let ghost sv = pairs_view(sorted@);
        proof {
            lemma_entries_map_stable_sort(es, order@, sv);
            assert forall|a: int, b: int| 0 <= a < b < sv.len() implies #[trigger] lex_le(sv[a].0, sv[b].0) by {
                let ks = es.map_values(|e: (Seq<u8>, u64)| e.0);
                assert(lex_le(ks[order@[a] as int], ks[order@[b] as int]));
            }
            assert forall|pre: Seq<u8>| #[trigger] key_prefix(sv, pre) == key_prefix(es, pre) by {
                if key_prefix(sv, pre) {
                    let q = choose|q: int| 0 <= q < sv.len() && #[trigger] has_prefix(sv[q].0, pre);
                    assert(sv[q] == es[order@[q] as int]);
                    assert(has_prefix(es[order@[q] as int].0, pre));
                }
                if key_prefix(es, pre) {
                    let i = choose|i: int| 0 <= i < es.len() && #[trigger] has_prefix(es[i].0, pre);
                    assert(occurs_in(order@, i));
                    let q = choose|q: int| 0 <= q < order@.len() && order@[q] == i;
                    assert(sv[q] == es[i]);
                    assert(has_prefix(sv[q].0, pre));
                }
            }
        }
        // Start with root node at index 0
        let mut nodes: Vec<FstNode> = Vec::new();
        nodes.push(FstNode { transitions: Vec::new(), is_final: false, final_output: 0 });
        let ghost mut paths: Seq<Seq<u8>> = seq![Seq::<u8>::empty()];
        proof {
            assert(trie_map(nodes@, paths) =~= Map::<Seq<u8>, u64>::empty());
            assert(sv.take(0) =~= Seq::<(Seq<u8>, u64)>::empty());
        }
        proof {
            assert(trie_clean(nodes@));
            reveal(lex_sorted);
            reveal(prefix_closed);
            reveal(before_or_on);
            assert(lex_sorted(paths));
            assert forall|m: int, j: int| 0 <= m < paths.len() && 0 <= j <= paths[m].len() implies exists|q: int|
                0 <= q < paths.len() && paths[q] == #[trigger] paths[m].take(j) by {
                assert(paths[m].take(j) =~= paths[0]);
            }
            assert(prefix_closed(paths));
            assert forall|m: int| 0 <= m < paths.len() && n > 0 implies before_or_on(#[trigger] paths[m], sv[0].0) by {
                assert(sv[0].0.take(0) =~= paths[m]);
            }
        }
        let mut e: usize = 0;
        while e < n
            invariant
                sorted@.len() == n,
                sv == pairs_view(sorted@),
                e <= n,
                trie_inv(nodes@, paths),
                trie_clean(nodes@),
                trie_map(nodes@, paths) == entries_map(sv.take(e as int)),
                forall|m: int| 0 < m < paths.len() ==> key_prefix(sv.take(e as int), #[trigger] paths[m]),
                forall|pre: Seq<u8>|
                    #[trigger] key_prefix(sv.take(e as int), pre) ==> exists|m: int| 0 <= m < paths.len() && paths[m] == pre,
                forall|pre: Seq<u8>| #[trigger] key_prefix(sv, pre) == key_prefix(es, pre),
                lex_sorted(paths),
                prefix_closed(paths),
                forall|a: int, b: int| 0 <= a < b < sv.len() ==> #[trigger] lex_le(sv[a].0, sv[b].0),
                e < n ==> forall|m: int| 0 <= m < paths.len() ==> before_or_on(#[trigger] paths[m], sv[e as int].0),
            decreases n - e,
        {
            let ghost old_paths = paths;
            let Ghost(ps) = insert_key(&mut nodes, &sorted[e].0, sorted[e].1, Ghost(paths));
            proof {
                paths = ps;
                if e + 1 < n {
                    assert(lex_le(sv[e as int].0, sv[e + 1].0));
                    assert forall|m: int| 0 <= m < paths.len() implies before_or_on(#[trigger] paths[m], sv[e + 1].0) by {
                        lemma_before_or_on_step(paths[m], sv[e as int].0, sv[e + 1].0);
                    }
                }
                let cur = sv.take(e as int);
                let nxt = sv.take(e + 1);
                let key = sv[e as int].0;
                assert(nxt.drop_last() =~= cur);
                assert(sv[e as int] == (sorted@[e as int].0@, sorted@[e as int].1));
                assert(nxt[e as int] == sv[e as int]);
                assert forall|m: int| 0 < m < paths.len() implies key_prefix(nxt, #[trigger] paths[m]) by {
                    if m < old_paths.len() {
                        assert(paths[m] == paths.take(old_paths.len() as int)[m]);
                        assert(key_prefix(cur, old_paths[m]));
                        let q = choose|q: int| 0 <= q < cur.len() && #[trigger] has_prefix(cur[q].0, old_paths[m]);
                        assert(nxt[q] == cur[q]);
                        assert(has_prefix(nxt[q].0, paths[m]));
                    } else {
                        let j = choose|j: int| 1 <= j <= key.len() && #[trigger] paths[m] == key.take(j);
                        assert(key.take(j).take(j) =~= key.take(j));
                        assert(has_prefix(nxt[e as int].0, paths[m]));
                    }
                }
                assert forall|pre: Seq<u8>| #[trigger] key_prefix(nxt, pre) implies exists|m: int|
                    0 <= m < paths.len() && paths[m] == pre by {
                    let q = choose|q: int| 0 <= q < nxt.len() && #[trigger] has_prefix(nxt[q].0, pre);
                    if q < e {
                        assert(nxt[q] == cur[q]);
                        assert(has_prefix(cur[q].0, pre));
                        assert(key_prefix(cur, pre));
                        let m = choose|m: int| 0 <= m < old_paths.len() && old_paths[m] == pre;
                        assert(paths[m] == paths.take(old_paths.len() as int)[m]);
                    } else {
                        let j = pre.len() as int;
                        assert(key.take(j) == pre);
                        let m = choose|m: int| 0 <= m < paths.len() && paths[m] == #[trigger] key.take(j);
                    }
                }
            }
            e = e + 1;
        }
        assert(sv.take(n as int) =~= sv);
        assert forall|pre: Seq<u8>| #[trigger] key_prefix(es, pre) implies exists|m: int|
            0 <= m < paths.len() && paths[m] == pre by {
            assert(key_prefix(sv, pre));
        }
        assert forall|m: int| 0 < m < paths.len() implies key_prefix(es, #[trigger] paths[m]) by {
            assert(key_prefix(sv, paths[m]));
        }
        // Sort transitions by byte in every node for deterministic binary search
        let ghost m = trie_map(nodes@, paths);
        let mut k: usize = 0;
        while k < nodes.len()
            invariant
                k <= nodes@.len(),
                trie_inv(nodes@, paths),
                trie_clean(nodes@),
                lex_sorted(paths),
                trie_map(nodes@, paths) == m,
                forall|q: int| 0 < q < paths.len() ==> key_prefix(es, #[trigger] paths[q]),
                forall|pre: Seq<u8>|
                    #[trigger] key_prefix(es, pre) ==> exists|q: int| 0 <= q < paths.len() && paths[q] == pre,
                forall|q: int| 0 <= q < k ==> ascending_bytes(#[trigger] nodes@[q].transitions@),
            decreases nodes@.len() - k,
        {
            let ghost before = nodes@;
            assert(distinct_bytes(nodes@[k as int].transitions@));
            let ts = sort_transitions(&nodes[k].transitions);
            let ghost tsv = ts@;
            nodes[k].transitions = ts;
            assert(nodes@[k as int].transitions@ == tsv);
            proof {
                lemma_replace_transitions(before, paths, nodes@, k as int);
                lemma_clean_replace(before, nodes@, k as int);
                assert forall|q: int| 0 <= q < k + 1 implies ascending_bytes(
                    #[trigger] nodes@[q].transitions@,
                ) by {
                    if q < k {
                        assert(nodes@[q] == before[q]);
                        assert(ascending_bytes(before[q].transitions@));
                    }
                }
            }
            k = k + 1;
        }
        let fst = Fst { nodes };
        proof {
            fst.lemma_trie_view(paths);
            fst.lemma_layout(es, paths);
        }
        fst
    }
}

} // verus!
