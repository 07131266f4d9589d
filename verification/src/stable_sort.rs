//! Stable sorts, given as the permutation that orders a list of keys:
//! byte strings in lexicographic order, or integers.

use vstd::prelude::*;
use crate::byte_order::{lex_lt, lex_le, bytes_lt, lemma_lex_total, lemma_lex_le_transitive, lemma_lex_irreflexive, lex_lt_implies_le};

verus! {

/// Position `j` appears somewhere in `order`.
pub open spec fn occurs_in(order: Seq<usize>, j: int) -> bool {
    exists|p: int| 0 <= p < order.len() && order[p] == j
}

/// `order` lists the positions of `keys` so that their keys ascend, and
/// positions of equal keys keep their relative order in the input.
pub open spec fn stable_sort_of(keys: Seq<Seq<u8>>, order: Seq<usize>) -> bool {
    &&& order.len() == keys.len()
    &&& forall|p: int| 0 <= p < order.len() ==> order[p] < keys.len()
    &&& forall|p: int, q: int| 0 <= p < q < order.len() ==> order[p] != order[q]
    &&& forall|j: int| 0 <= j < keys.len() ==> #[trigger] occurs_in(order, j)
    &&& forall|p: int, q: int|
        0 <= p < q < order.len() ==> #[trigger] lex_le(keys[order[p] as int], keys[order[q] as int])
    &&& forall|p: int, q: int|
        0 <= p < q < order.len() && keys[order[p] as int] == keys[order[q] as int] ==> order[p]
            < order[q]
}

/// The permutation that sorts `keys` stably (insertion sort).
pub fn stable_sort_order(keys: &Vec<Vec<u8>>) -> (order: Vec<usize>)
    ensures
        stable_sort_of(keys@.map_values(|k: Vec<u8>| k@), order@),
{
    let ghost ks = keys@.map_values(|k: Vec<u8>| k@);
    let mut order: Vec<usize> = Vec::new();
    let mut idx: usize = 0;
    while idx < keys.len()
        invariant
            idx <= keys@.len(),
            ks == keys@.map_values(|k: Vec<u8>| k@),
            order@.len() == idx,
            forall|p: int| 0 <= p < order@.len() ==> order@[p] < idx,
            forall|p: int, q: int| 0 <= p < q < order@.len() ==> order@[p] != order@[q],
            forall|j: int| 0 <= j < idx ==> #[trigger] occurs_in(order@, j),
            forall|p: int, q: int|
                0 <= p < q < order@.len() ==> #[trigger] lex_le(
                    ks[order@[p] as int],
                    ks[order@[q] as int],
                ),
            forall|p: int, q: int|
                0 <= p < q < order@.len() && ks[order@[p] as int] == ks[order@[q] as int]
                    ==> order@[p] < order@[q],
        decreases keys@.len() - idx,
    {
        let mut pos: usize = order.len();
        while pos > 0 && bytes_lt(keys[idx].as_slice(), keys[order[pos - 1]].as_slice())
            invariant
                pos <= order@.len(),
                idx < keys@.len(),
                ks == keys@.map_values(|k: Vec<u8>| k@),
                forall|p: int| 0 <= p < order@.len() ==> order@[p] < idx,
                forall|q: int| pos <= q < order@.len() ==> lex_lt(ks[idx as int], ks[order@[q] as int]),
            decreases pos,
        {
            pos = pos - 1;
        }
        let ghost old_order = order@;
        proof {
            if pos > 0 {
                lemma_lex_total(ks[idx as int], ks[old_order[pos - 1] as int]);
                assert(lex_le(ks[old_order[pos - 1] as int], ks[idx as int]));
            }
        }
        order.insert(pos, idx);
        proof {
            assert forall|p: int, q: int|
                0 <= p < q < order@.len() implies #[trigger] lex_le(
                ks[order@[p] as int],
                ks[order@[q] as int],
            ) by {
                if p == pos as int {
                    lex_lt_implies_le(ks[idx as int], ks[old_order[q - 1] as int]);
                } else if q == pos as int {
                    assert(lex_le(ks[old_order[p] as int], ks[old_order[pos - 1] as int])
                        || p == pos - 1);
                    lemma_lex_le_transitive(
                        ks[old_order[p] as int],
                        ks[old_order[pos - 1] as int],
                        ks[idx as int],
                    );
                } else if p < pos && q > pos {
                    assert(lex_le(ks[old_order[p] as int], ks[old_order[q - 1] as int]));
                } else if p > pos {
                    assert(lex_le(ks[old_order[p - 1] as int], ks[old_order[q - 1] as int]));
                } else {
                    assert(lex_le(ks[old_order[p] as int], ks[old_order[q] as int]));
                }
            }
            assert forall|p: int, q: int|
                0 <= p < q < order@.len() && ks[order@[p] as int] == ks[order@[q] as int]
                implies order@[p] < order@[q] by {
                if p == pos as int {
                    lemma_lex_irreflexive(ks[idx as int]);
                } else if q == pos as int {
                } else if p < pos && q > pos {
                } else if p > pos {
                } else {
                }
            }
            assert forall|j: int| 0 <= j < idx + 1 implies #[trigger] occurs_in(order@, j) by {
                if j == idx as int {
                    assert(order@[pos as int] == j);
                } else {
                    assert(occurs_in(old_order, j));
                    let p0 = choose|p: int| 0 <= p < old_order.len() && old_order[p] == j;
                    if p0 < pos {
                        assert(order@[p0] == j);
                    } else {
                        assert(order@[p0 + 1] == j);
                    }
                }
            }
        }
        idx = idx + 1;
    }
    order
}


/// `order` lists the positions of `keys` so that their keys ascend, and
/// positions of equal keys keep their relative order in the input.
pub open spec fn stable_sort_of_u32(keys: Seq<u32>, order: Seq<usize>) -> bool {
    &&& order.len() == keys.len()
    &&& forall|p: int| 0 <= p < order.len() ==> order[p] < keys.len()
    &&& forall|p: int, q: int| 0 <= p < q < order.len() ==> order[p] != order[q]
    &&& forall|j: int| 0 <= j < keys.len() ==> #[trigger] occurs_in(order, j)
    &&& forall|p: int, q: int|
        0 <= p < q < order.len() ==> keys[#[trigger] order[p] as int] <= keys[#[trigger] order[q] as int]
    &&& forall|p: int, q: int|
        0 <= p < q < order.len() && keys[order[p] as int] == keys[order[q] as int] ==> order[p]
            < order[q]
}

/// The permutation that sorts integer `keys` stably (insertion sort).
pub fn stable_sort_order_u32(keys: &Vec<u32>) -> (order: Vec<usize>)
    ensures
        stable_sort_of_u32(keys@, order@),
{
    let ghost ks = keys@;
    let mut order: Vec<usize> = Vec::new();
    let mut idx: usize = 0;
    while idx < keys.len()
        invariant
            idx <= keys@.len(),
            ks == keys@,
            order@.len() == idx,
            forall|p: int| 0 <= p < order@.len() ==> order@[p] < idx,
            forall|p: int, q: int| 0 <= p < q < order@.len() ==> order@[p] != order@[q],
            forall|j: int| 0 <= j < idx ==> #[trigger] occurs_in(order@, j),
            forall|p: int, q: int|
                0 <= p < q < order@.len() ==> ks[#[trigger] order@[p] as int] <= ks[#[trigger] order@[q] as int],
            forall|p: int, q: int|
                0 <= p < q < order@.len() && ks[order@[p] as int] == ks[order@[q] as int]
                    ==> order@[p] < order@[q],
        decreases keys@.len() - idx,
    {
        let mut pos: usize = order.len();
        while pos > 0 && keys[idx] < keys[order[pos - 1]]
            invariant
                pos <= order@.len(),
                idx < keys@.len(),
                ks == keys@,
                forall|p: int| 0 <= p < order@.len() ==> order@[p] < idx,
                forall|q: int| pos <= q < order@.len() ==> ks[idx as int] < ks[order@[q] as int],
            decreases pos,
        {
            pos = pos - 1;
        }
        let ghost old_order = order@;
        order.insert(pos, idx);
        proof {
            assert forall|p: int, q: int|
                0 <= p < q < order@.len() implies ks[#[trigger] order@[p] as int] <= ks[#[trigger] order@[q] as int] by {
                if p == pos as int {
                    assert(ks[idx as int] < ks[old_order[q - 1] as int]);
                } else if q == pos as int {
                    if p < pos - 1 {
                        assert(ks[old_order[p] as int] <= ks[old_order[pos - 1] as int]);
                    }
                } else if p < pos && q > pos {
                    assert(ks[old_order[p] as int] <= ks[old_order[q - 1] as int]);
                } else if p > pos {
                    assert(ks[old_order[p - 1] as int] <= ks[old_order[q - 1] as int]);
                } else {
                    assert(ks[old_order[p] as int] <= ks[old_order[q] as int]);
                }
            }
            assert forall|j: int| 0 <= j < idx + 1 implies #[trigger] occurs_in(order@, j) by {
                if j == idx as int {
                    assert(order@[pos as int] == j);
                } else {
                    assert(occurs_in(old_order, j));
                    let p0 = choose|p: int| 0 <= p < old_order.len() && old_order[p] == j;
                    if p0 < pos {
                        assert(order@[p0] == j);
                    } else {
                        assert(order@[p0 + 1] == j);
                    }
                }
            }
        }
        idx = idx + 1;
    }
    order
}

} // verus!
