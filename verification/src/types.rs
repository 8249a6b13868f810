//! Basic value types: errors, raw indices, anchors, and external handles.

use vstd::prelude::*;
use core::marker::PhantomData;

verus! {

/// Kinds of region access errors.
#[derive(Debug, Clone, Copy, PartialEq, Eq, Structural)]
pub enum Error {
    /// Incorrect usage resulted in an error, but the library does not have
    /// enough data to determine exactly what the error was.
    Indeterminable,
    /// A handle was used with a region for which it was not created.
    IncorrectRegion,
    /// The target entry has been reclaimed by a garbage collection.
    EntryExpired,
    /// The library is in an unexpected internal state; encountering this
    /// error indicates a bug in the library.
    UnexpectedInternalState,
}

/// A raw index into a region's backing store, used for internal edges.
///
/// An `Ix` is a plain by-value copy and carries no ownership. It is
/// invalidated by any operation that relocates objects (a collection);
/// indices stored inside live objects at positions that the traversal
/// capability exposes exactly once are rewritten in place by the collector,
/// and so stay valid across collections.
#[derive(Debug)]
pub struct Ix<T> {
    i: usize,
    _t: PhantomData<T>,
}

impl<T> Ix<T> {
    /// The offset into the backing store that this index denotes.
    pub closed spec fn view(self) -> int {
        self.i as int
    }

    pub fn new(i: usize) -> (r: Self)
        ensures
            r@ == i,
    {
        Ix { i, _t: PhantomData }
    }

    /// The index with a zero offset; rewriting an edge never changes a
    /// value's payload, which is the value with every edge set to this.
    pub closed spec fn spec_zero() -> Self {
        Ix { i: 0usize, _t: PhantomData }
    }

    /// Get an identifier for this index, unique amongst indices of one
    /// region so long as none of them has been invalidated.
    pub fn identifier(self) -> (r: usize)
        ensures
            r == self@,
    {
        self.i
    }
}

impl<T> Clone for Ix<T> {
    fn clone(&self) -> (r: Self)
        ensures
            r == *self,
    {
        Ix { i: self.i, _t: PhantomData }
    }
}

impl<T> Copy for Ix<T> {}

/// Identifies one anchor record: the anchor space it lives in (by that
/// space's nonce) and its slot within the space.
#[derive(Debug, Clone, Copy, PartialEq, Eq, Structural)]
pub struct AnchorId {
    pub nonce: u64,
    pub slot: usize,
}

/// The record that all external handles to one object observe.
///
/// While the object is live, `target` is its current offset in the backing
/// store; the collector rewrites `target` on every move. When a collection
/// reclaims the object, `present` becomes false and the anchor is expired.
#[derive(Debug, Clone, Copy)]
pub struct Anchor {
    /// Current offset of the object in the region's backing store.
    pub target: usize,
    /// False once the object has been reclaimed.
    pub present: bool,
    /// Number of live [`Root`](crate::Root) handles observing this anchor.
    pub roots: usize,
    /// Number of live [`Weak`](crate::Weak) handles observing this anchor.
    pub weaks: usize,
    /// Scratch mark used by the collector while it runs; false at rest.
    pub moved: bool,
}

/// One anchor space: a nonce naming it and its anchor records.
///
/// A region owns the space it was created with; a bulk transfer moves the
/// source region's spaces into the destination region wholesale, so handle
/// identities survive the transfer.
#[derive(Debug)]
pub struct Space {
    pub nonce: u64,
    pub anchors: Vec<Anchor>,
}

/// An external rooted handle into a region.
///
/// A root keeps the object it points to live across collections. Dispose of
/// a root with [`Region::drop_root`](crate::Region::drop_root); a root that
/// is merely forgotten keeps its target live forever.
#[derive(Debug)]
pub struct Root<T> {
    pub(crate) id: AnchorId,
    pub(crate) _t: PhantomData<T>,
}

impl<T> Root<T> {
    /// The anchor this root observes.
    pub closed spec fn view(self) -> AnchorId {
        self.id
    }

    pub(crate) fn from_id(id: AnchorId) -> (r: Self)
        ensures
            r@ == id,
    {
        Root { id, _t: PhantomData }
    }

    pub(crate) fn id(&self) -> (x: AnchorId)
        ensures
            x == self@,
    {
        self.id
    }
}

/// An external weak handle into a region.
///
/// A weak handle never prevents its target from being collected, but can be
/// used to test whether the target has been collected, or to access it as
/// normal. Dispose of one with [`Region::drop_weak`](crate::Region::drop_weak).
#[derive(Debug)]
pub struct Weak<T> {
    pub(crate) id: AnchorId,
    pub(crate) _t: PhantomData<T>,
}

impl<T> Weak<T> {
    /// The anchor this handle observes.
    pub closed spec fn view(self) -> AnchorId {
        self.id
    }

    pub(crate) fn from_id(id: AnchorId) -> (r: Self)
        ensures
            r@ == id,
    {
        Weak { id, _t: PhantomData }
    }

    pub(crate) fn id(&self) -> (x: AnchorId)
        ensures
            x == self@,
    {
        self.id
    }
}

} // verus!

verus! {

impl Error {
    /// A short human-readable account of the error, one per kind.
    pub fn describe(&self) -> (s: &'static str)
        ensures
            *self is Indeterminable ==> s@ == "invalid index"@,
            *self is IncorrectRegion ==> s@ == "incorrect region for index"@,
            *self is EntryExpired ==> s@ == "index expired"@,
            *self is UnexpectedInternalState ==> s@
                == "correct region has invalid internal state"@,
    {
        match self {
            Error::Indeterminable => "invalid index",
            Error::IncorrectRegion => "incorrect region for index",
            Error::EntryExpired => "index expired",
            Error::UnexpectedInternalState => "correct region has invalid internal state",
        }
    }
}

} // verus!
