//! A ready-made element type: a numeric tag for content and one optional
//! owned edge, exposed through the traversal capability.

use vstd::prelude::*;

use crate::has_ix::HasIx;
use crate::types::Ix;

verus! {

/// An element holding a user tag and at most one owned internal index.
///
/// This is the simplest shape of graph node the arena supports: enough to
/// wire up chains and cycles, with a tag to tell values apart by content.
#[derive(Debug)]
pub struct Elem {
    pub tag: u64,
    pub ix: Option<Ix<Elem>>,
}

impl Elem {
    /// A fresh element with tag zero and no edge.
    pub fn new() -> (r: Self)
        ensures
            r.tag == 0,
            r.ix is None,
    {
        Elem { tag: 0, ix: None }
    }

    /// A fresh element with the given tag and no edge.
    pub fn with_tag(tag: u64) -> (r: Self)
        ensures
            r.tag == tag,
            r.ix is None,
    {
        Elem { tag, ix: None }
    }
}

impl HasIx<Elem> for Elem {
    open spec fn edges(&self) -> Seq<int> {
        self.ix.edges()
    }

    open spec fn payload(&self) -> Self {
        Elem { tag: self.tag, ix: self.ix.payload() }
    }

    fn edge_count(&self) -> (n: usize) {
        self.ix.edge_count()
    }

    fn edge(&self, k: usize) -> (e: Ix<Elem>) {
        self.ix.edge(k)
    }

    fn set_edge(&mut self, k: usize, e: Ix<Elem>) {
        self.ix.set_edge(k, e);
    }
}

} // verus!
