//! Cells of the backing store: live entries and broken hearts.

use vstd::prelude::*;

use crate::types::AnchorId;

verus! {

/// The live payload of a spot: the user value plus an optional link to the
/// anchor record that external handles observe.
#[derive(Debug)]
pub struct Entry<T> {
    pub t: T,
    pub anchor: Option<AnchorId>,
}

impl<T> Entry<T> {
    pub fn new(t: T) -> (r: Self)
        ensures
            r.t == t,
            r.anchor is None,
    {
        Entry { t, anchor: None }
    }

    pub fn get(&self) -> (r: &T)
        ensures
            *r == self.t,
    {
        &self.t
    }

    pub fn get_mut(&mut self) -> (r: &mut T)
        ensures
            *r == old(self).t,
            *final(self) == (Entry { t: *final(r), anchor: old(self).anchor }),
    {
        &mut self.t
    }
}

/// A cell in the backing store: either a live entry, or a forwarding
/// index into the destination store once the collector has relocated the
/// object that lived here.
#[derive(Debug)]
pub enum Spot<T> {
    Present(Entry<T>),
    BrokenHeart(usize),
}

impl<T> Spot<T> {
    pub fn new(t: T) -> (r: Self)
        ensures
            r is Present,
            r->Present_0.t == t,
            r->Present_0.anchor is None,
    {
        Spot::Present(Entry::new(t))
    }

    pub fn get(&self) -> (r: Option<&Entry<T>>)
        ensures
            match r {
                Some(e) => *self is Present && *e == self->Present_0,
                None => !(*self is Present),
            },
    {
        match self {
            Spot::Present(e) => Some(e),
            Spot::BrokenHeart(_) => None,
        }
    }

    /// The live entry in this spot; the collector only asks for it where
    /// the spot is known not to be a broken heart.
    pub fn entry_mut(&mut self) -> (r: &mut Entry<T>)
        requires
            *old(self) is Present,
        ensures
            *r == old(self)->Present_0,
            *final(self) == Spot::Present(*final(r)),
    {
        match self {
            Spot::Present(e) => e,
            Spot::BrokenHeart(_) => unreached(),
        }
    }

    pub fn into_t(self) -> (r: Option<T>)
        ensures
            match r {
                Some(t) => self is Present && t == self->Present_0.t,
                None => !(self is Present),
            },
    {
        match self {
            Spot::Present(e) => Some(e.t),
            Spot::BrokenHeart(_) => None,
        }
    }
}

} // verus!
