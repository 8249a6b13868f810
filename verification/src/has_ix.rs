//! The traversal capability: exposing owned internal indices to the
//! collector so it can walk and rewrite them.

use vstd::prelude::*;

use crate::types::Ix;

verus! {

/// Trait exposing the indices a value owns to the garbage collector.
///
/// A value's *edges* are the offsets of every [`Ix`] it owns, in a fixed
/// order; its *payload* is the value with every one of those indices set to
/// offset zero. The collector reads each edge and rewrites it in place, and
/// rewriting must change nothing but the edge, so the payload is what a
/// value keeps across a collection.
///
/// Any `Ix` that the capability does not expose is invalidated by a
/// collection, and the object it pointed to may be reclaimed. An `Ix` owned
/// by two or more positions must be exposed by exactly one canonical
/// position, or the collector may rewrite the wrong location.
pub trait HasIx<T>: Sized {
    /// The offsets of the owned internal indices, in exposure order.
    spec fn edges(&self) -> Seq<int>;

    /// The value with every owned index set to offset zero: everything a
    /// collection must preserve.
    spec fn payload(&self) -> Self;

    /// How many indices this value owns.
    fn edge_count(&self) -> (n: usize)
        ensures
            n == self.edges().len(),
    ;

    /// Read the `k`-th owned index.
    fn edge(&self, k: usize) -> (e: Ix<T>)
        requires
            k < self.edges().len(),
        ensures
            e@ == self.edges()[k as int],
    ;

    /// Overwrite the `k`-th owned index, changing nothing else.
    fn set_edge(&mut self, k: usize, e: Ix<T>)
        requires
            k < old(self).edges().len(),
        ensures
            final(self).edges() == old(self).edges().update(k as int, e@),
            final(self).payload() == old(self).payload(),
    ;
}

/// A value with no edges at all.
impl<T> HasIx<T> for () {
    open spec fn edges(&self) -> Seq<int> {
        Seq::empty()
    }

    open spec fn payload(&self) -> Self {
        ()
    }

    fn edge_count(&self) -> (n: usize) {
        0
    }

    fn edge(&self, k: usize) -> (e: Ix<T>) {
        unreached()
    }

    fn set_edge(&mut self, k: usize, e: Ix<T>) {
    }
}

/// An index is its own single edge.
impl<T> HasIx<T> for Ix<T> {
    open spec fn edges(&self) -> Seq<int> {
        seq![self.view()]
    }

    open spec fn payload(&self) -> Self {
        Ix::spec_zero()
    }

    fn edge_count(&self) -> (n: usize) {
        1
    }

    fn edge(&self, k: usize) -> (e: Ix<T>) {
        *self
    }

    fn set_edge(&mut self, k: usize, e: Ix<T>) {
        *self = e;
        proof {
            assert(self.edges() =~= old(self).edges().update(k as int, e@));
        }
    }
}

/// An optional singleton: zero or one edges, delegated to the element.
impl<T, S: HasIx<T>> HasIx<T> for Option<S> {
    open spec fn edges(&self) -> Seq<int> {
        match *self {
            Option::None => Seq::empty(),
            Option::Some(s) => s.edges(),
        }
    }

    open spec fn payload(&self) -> Self {
        match *self {
            Option::None => Option::None,
            Option::Some(s) => Option::Some(s.payload()),
        }
    }

    fn edge_count(&self) -> (n: usize) {
        match self {
            Option::None => 0,
            Option::Some(s) => s.edge_count(),
        }
    }

    fn edge(&self, k: usize) -> (e: Ix<T>) {
        match self {
            Option::None => unreached(),
            Option::Some(s) => s.edge(k),
        }
    }

    fn set_edge(&mut self, k: usize, e: Ix<T>) {
        let mut tmp: Option<S> = Option::None;
        core::mem::swap(self, &mut tmp);
        match tmp {
            Option::None => {
                proof {
                    assert(false);
                }
            },
            Option::Some(mut s) => {
                s.set_edge(k, e);
                *self = Option::Some(s);
            },
        }
    }
}

/// A boxed singleton delegates to its contents.
impl<T, S: HasIx<T>> HasIx<T> for Box<S> {
    open spec fn edges(&self) -> Seq<int> {
        (**self).edges()
    }

    open spec fn payload(&self) -> Self {
        Box::new((**self).payload())
    }

    fn edge_count(&self) -> (n: usize) {
        (**self).edge_count()
    }

    fn edge(&self, k: usize) -> (e: Ix<T>) {
        (**self).edge(k)
    }

    fn set_edge(&mut self, k: usize, e: Ix<T>) {
        (**self).set_edge(k, e);
    }
}

} // verus!
