//! The consistency rule a document collection must meet when loaded: every
//! document's vector has the dimension of the first.

use vstd::prelude::*;

verus! {

/// A document whose vector dimension differs from the first document's.
pub struct DimensionMismatch {
    pub doc_id: String,
    pub found: usize,
    pub expected: usize,
}

/// Checks that the vector dimension of each document, given as (id,
/// dimension) pairs, equals that of the first; names the first document
/// that differs.
pub fn check_dimensions(docs: &[(String, usize)]) -> (r: Result<(), DimensionMismatch>)
    ensures
        r.is_ok() <==> forall|i: int| 0 <= i < docs@.len() ==> #[trigger] docs@[i].1 == docs@[0].1,
        r matches Err(e) ==> exists|i: int|
            1 <= i < docs@.len() && #[trigger] docs@[i].1 != docs@[0].1
                && (forall|j: int| 1 <= j < i ==> #[trigger] docs@[j].1 == docs@[0].1)
                && e.doc_id@ == docs@[i].0@ && e.found == docs@[i].1 && e.expected == docs@[0].1,
{
    if docs.len() > 1 {
        let dim = docs[0].1;
        let mut i: usize = 1;
        while i < docs.len()
            invariant
                1 <= i <= docs@.len(),
                dim == docs@[0].1,
                forall|j: int| 0 <= j < i ==> #[trigger] docs@[j].1 == dim,
            decreases docs@.len() - i,
        {
            if docs[i].1 != dim {
                let e = DimensionMismatch { doc_id: docs[i].0.clone(), found: docs[i].1, expected: dim };
                proof {
                    assert(docs@[i as int].1 != docs@[0].1);
                }
                return Err(e);
            }
            i = i + 1;
        }
    }
    Ok(())
}

} // verus!
