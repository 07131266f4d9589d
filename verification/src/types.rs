//! The records shared by the indexes.

use vstd::prelude::*;

verus! {

/// A knowledge-graph edge: `subject --predicate--> object`.
#[derive(Debug, Clone)]
pub struct Triple {
    pub subject: String,
    pub predicate: String,
    pub object: String,
}

/// Which index a search result comes from.
#[derive(Debug, Clone, Copy, PartialEq, Eq, Structural)]
pub enum SearchSource {
    Vector,
    Text,
    Graph,
}

impl Triple {
    /// The (subject, predicate, object) texts.
    pub open spec fn view3(self) -> (Seq<char>, Seq<char>, Seq<char>) {
        (self.subject@, self.predicate@, self.object@)
    }
}

} // verus!
