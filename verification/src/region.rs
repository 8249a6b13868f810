//! The collectable region: a backing store of spots plus the anchor spaces
//! that external handles observe.

use vstd::prelude::*;
use core::marker::PhantomData;

use crate::entry::{Entry, Spot};
use crate::types::{Anchor, AnchorId, Error, Ix, Root, Space, Weak};

verus! {

/// Every spot of the store is a live entry (no broken hearts at rest).
pub open spec fn all_present<T>(ds: Seq<Spot<T>>) -> bool {
    forall|i: int| 0 <= i < ds.len() ==> ds[i] is Present
}

/// A live entry sits at offset `i` of the store.
pub open spec fn live_at<T>(ds: Seq<Spot<T>>, i: int) -> bool {
    0 <= i < ds.len() && ds[i] is Present
}

/// The entry at offset `i` of the store.
pub open spec fn entry_at<T>(ds: Seq<Spot<T>>, i: int) -> Entry<T> {
    ds[i]->Present_0
}

/// Some space in `ss` carries this nonce.
pub open spec fn has_space(ss: Seq<Space>, nonce: u64) -> bool {
    exists|s: int| 0 <= s < ss.len() && ss[s].nonce == nonce
}

/// The position of the space carrying this nonce (unique when nonces are
/// distinct).
pub open spec fn space_at(ss: Seq<Space>, nonce: u64) -> int {
    choose|s: int| 0 <= s < ss.len() && ss[s].nonce == nonce
}

/// No two spaces carry the same nonce.
pub open spec fn distinct_nonces(ss: Seq<Space>) -> bool {
    forall|a: int, b: int| 0 <= a < b < ss.len() ==> ss[a].nonce != ss[b].nonce
}

/// The anchor id denotes an existing anchor record.
pub open spec fn has_anchor(ss: Seq<Space>, id: AnchorId) -> bool {
    has_space(ss, id.nonce) && id.slot < ss[space_at(ss, id.nonce)].anchors@.len()
}

/// The anchor record that an id denotes.
pub open spec fn anchor_of(ss: Seq<Space>, id: AnchorId) -> Anchor {
    ss[space_at(ss, id.nonce)].anchors@[id.slot as int]
}

/// Entries and anchors point at each other consistently: a linked entry's
/// anchor is present and targets that entry, and every present anchor's
/// target is a live entry linked back to it.
pub open spec fn anchors_linked<T>(ds: Seq<Spot<T>>, ss: Seq<Space>) -> bool {
    &&& forall|i: int|
        live_at(ds, i) && (#[trigger] entry_at(ds, i)).anchor is Some ==> {
            let id = entry_at(ds, i).anchor->Some_0;
            &&& has_anchor(ss, id)
            &&& anchor_of(ss, id).present
            &&& anchor_of(ss, id).target == i
        }
    &&& forall|s: int, k: int|
        0 <= s < ss.len() && 0 <= k < ss[s].anchors@.len()
            && (#[trigger] ss[s].anchors@[k]).present ==> {
            let a = ss[s].anchors@[k];
            &&& live_at(ds, a.target as int)
            &&& entry_at(ds, a.target as int).anchor == Some(
                AnchorId { nonce: ss[s].nonce, slot: k as usize },
            )
        }
}

/// All collector scratch marks are clear.
pub open spec fn anchors_at_rest(ss: Seq<Space>) -> bool {
    forall|s: int, k: int|
        0 <= s < ss.len() && 0 <= k < ss[s].anchors@.len() ==> !(#[trigger] ss[s].anchors@[k]).moved
}

/// The edges of the live entry at offset `i` all stay inside the store.
pub open spec fn edges_ok_at<T: HasIx<T>>(ds: Seq<Spot<T>>, i: int) -> bool {
    forall|k: int|
        0 <= k < entry_at(ds, i).t.edges().len() ==> 0 <= #[trigger] entry_at(ds, i).t.edges()[k]
            < ds.len()
}

/// Every live entry's edges stay inside the store. The collector relies on
/// this; a stale out-of-range index stored inside a live object breaks it.
pub open spec fn edges_within<T: HasIx<T>>(ds: Seq<Spot<T>>) -> bool {
    forall|i: int| live_at(ds, i) ==> #[trigger] edges_ok_at(ds, i)
}

use crate::has_ix::HasIx;

/// The type of a collectable region.
///
/// The region owns a backing store of [`Spot`]s and the anchor spaces that
/// external handles observe, and provides allocation, explicit collection,
/// capacity-driven implicit collection, and bulk transfer into another
/// region. Mutation (allocation, collection, transfer) requires exclusive
/// access; reading any element requires shared access, which keeps
/// collections and accesses from interrupting one another.
///
/// Each region is created with a caller-chosen nonce that names its anchor
/// space. Regions whose contents may ever be merged with `gc_into` must be
/// created with distinct nonces.
#[derive(Debug)]
pub struct Region<T> {
    pub data: Vec<Spot<T>>,
    pub spaces: Vec<Space>,
    pub nonce: u64,
    pub cap: usize,
}

impl<T> Region<T> {
    /// Number of spots in the backing store.
    pub open spec fn n(self) -> int {
        self.data@.len() as int
    }

    /// A live entry sits at offset `i`.
    pub open spec fn live_at(self, i: int) -> bool {
        live_at(self.data@, i)
    }

    /// The entry at offset `i`.
    pub open spec fn entry_at(self, i: int) -> Entry<T> {
        entry_at(self.data@, i)
    }

    /// The user value at offset `i`.
    pub open spec fn value_at(self, i: int) -> T {
        self.entry_at(i).t
    }

    /// The anchor id denotes an existing anchor record of this region.
    pub open spec fn has_anchor_id(self, id: AnchorId) -> bool {
        has_anchor(self.spaces@, id)
    }

    /// The anchor record that an id denotes.
    pub open spec fn anchor(self, id: AnchorId) -> Anchor {
        anchor_of(self.spaces@, id)
    }

    /// The anchor exists, is not expired, and targets a live entry.
    pub open spec fn anchor_live(self, id: AnchorId) -> bool {
        self.has_anchor_id(id) && self.anchor(id).present
    }

    /// Structural well-formedness: all spots live, nonces distinct, the
    /// region's own space first, entries and anchors mutually consistent,
    /// and no leftover collector marks.
    pub open spec fn wf(self) -> bool {
        &&& self.data@.len() <= self.cap
        &&& all_present(self.data@)
        &&& distinct_nonces(self.spaces@)
        &&& self.spaces@.len() >= 1
        &&& self.spaces@[0].nonce == self.nonce
        &&& anchors_linked(self.data@, self.spaces@)
        &&& anchors_at_rest(self.spaces@)
    }

    /// Create an empty region whose anchor space is named by `nonce`.
    ///
    /// Regions that will ever be merged by [`Region::gc_into`] must be
    /// given distinct nonces; handles are told apart by them.
    pub fn new(nonce: u64) -> (r: Self)
        ensures
            r.wf(),
            r.n() == 0,
            r.nonce == nonce,
            r.cap == 0,
            r.spaces@.len() == 1,
            r.spaces@[0].anchors@.len() == 0,
    {
        let mut spaces: Vec<Space> = Vec::new();
        spaces.push(Space { nonce, anchors: Vec::new() });
        Region { data: Vec::new(), spaces, nonce, cap: 0 }
    }

    /// The current capacity: allocation will not trigger a collection
    /// until the number of entries would exceed it.
    pub fn capacity(&self) -> (r: usize)
        ensures
            r == self.cap,
    {
        self.cap
    }

    /// The current number of entries in the region.
    pub fn len(&self) -> (r: usize)
        ensures
            r == self.n(),
    {
        self.data.len()
    }

    /// True if there are currently no entries in this region.
    pub fn is_empty(&self) -> (r: bool)
        ensures
            r == (self.n() == 0),
    {
        self.data.is_empty()
    }

    /// Position of the space carrying `nonce`, if any.
    pub(crate) fn find_space(&self, nonce: u64) -> (r: Option<usize>)
        ensures
            match r {
                Some(s) => s < self.spaces@.len() && self.spaces@[s as int].nonce == nonce,
                None => !has_space(self.spaces@, nonce),
            },
    {
        find_space_in(&self.spaces, nonce)
    }
}

/// Position of the space carrying `nonce` in a list of spaces, if any.
pub(crate) fn find_space_in(spaces: &Vec<Space>, nonce: u64) -> (r: Option<usize>)
    ensures
        match r {
            Some(s) => s < spaces@.len() && spaces@[s as int].nonce == nonce,
            None => !has_space(spaces@, nonce),
        },
{
    let mut s: usize = 0;
    while s < spaces.len()
        invariant
            s <= spaces@.len(),
            forall|j: int| 0 <= j < s ==> spaces@[j].nonce != nonce,
        decreases spaces@.len() - s,
    {
        if spaces[s].nonce == nonce {
            return Some(s);
        }
        s = s + 1;
    }
    None
}

/// A vector's view never exceeds the machine's address range.
pub proof fn lemma_anchors_len_bound(sp: Space)
    ensures
        sp.anchors@.len() <= usize::MAX,
{
    vstd::std_specs::vec::axiom_spec_len(&sp.anchors);
}

/// With distinct nonces the space carrying a nonce is unique, so the
/// chosen position agrees with any witness.
pub proof fn lemma_space_at(ss: Seq<Space>, nonce: u64, s: int)
    requires
        distinct_nonces(ss),
        0 <= s < ss.len(),
        ss[s].nonce == nonce,
    ensures
        has_space(ss, nonce),
        space_at(ss, nonce) == s,
{
    assert(has_space(ss, nonce));
    let w = space_at(ss, nonce);
    if w != s {
        if w < s {
            assert(ss[w].nonce != ss[s].nonce);
        } else {
            assert(ss[s].nonce != ss[w].nonce);
        }
    }
}

} // verus!

verus! {

impl<T> Ix<T> {
    /// Check that an index is within the bounds of the given region. The
    /// full validity of an index cannot be checked at run time; indices
    /// are the fast path, and the region's handle types are the checked
    /// one.
    pub fn check_region(self, region: &Region<T>) -> (r: Result<(), Error>)
        ensures
            r is Ok <==> 0 <= self@ < region.n(),
            r is Err ==> r->Err_0 == Error::Indeterminable,
    {
        if self.identifier() < region.data.len() {
            Ok(())
        } else {
            Err(Error::Indeterminable)
        }
    }

    /// Get the value pointed to by this index in its corresponding region.
    pub fn get<'a>(self, region: &'a Region<T>) -> (r: &'a T)
        requires
            region.live_at(self@),
        ensures
            *r == region.value_at(self@),
    {
        let i = self.identifier();
        match self.try_get(region) {
            Ok(t) => t,
            Err(_) => unreached(),
        }
    }

    /// Get exclusive access to the value pointed to by this index.
    ///
    /// The store keeps its shape: only the user value at this offset is
    /// exchanged for whatever the caller writes through the reference.
    pub fn get_mut<'a>(self, region: &'a mut Region<T>) -> (r: &'a mut T)
        requires
            old(region).live_at(self@),
        ensures
            *r == old(region).value_at(self@),
            final(region).data@ == old(region).data@.update(
                self@,
                Spot::Present(Entry { t: *final(r), anchor: old(region).entry_at(self@).anchor }),
            ),
            final(region).spaces == old(region).spaces,
            final(region).nonce == old(region).nonce,
            final(region).cap == old(region).cap,
    {
        let i = self.identifier();
        region.data[i].entry_mut().get_mut()
    }

    /// Try to get a reference to the value at this index, or report why
    /// none can be had: out of range or not a live entry.
    pub fn try_get<'a>(self, region: &'a Region<T>) -> (r: Result<&'a T, Error>)
        ensures
            match r {
                Ok(t) => region.live_at(self@) && *t == region.value_at(self@),
                Err(e) => !region.live_at(self@) && e == Error::Indeterminable,
            },
    {
        let i = self.identifier();
        if i < region.data.len() {
            match region.data[i].get() {
                Some(e) => Ok(e.get()),
                None => Err(Error::Indeterminable),
            }
        } else {
            Err(Error::Indeterminable)
        }
    }

    /// Like [`Ix::get_mut`], but reports an error instead of demanding a
    /// valid index.
    pub fn try_get_mut<'a>(self, region: &'a mut Region<T>) -> (r: Result<&'a mut T, Error>)
        ensures
            match r {
                Ok(t) => {
                    &&& old(region).live_at(self@)
                    &&& *t == old(region).value_at(self@)
                    &&& final(region).data@ == old(region).data@.update(
                        self@,
                        Spot::Present(
                            Entry { t: *final(t), anchor: old(region).entry_at(self@).anchor },
                        ),
                    )
                    &&& final(region).spaces == old(region).spaces
                    &&& final(region).nonce == old(region).nonce
                    &&& final(region).cap == old(region).cap
                },
                Err(e) => {
                    &&& !old(region).live_at(self@)
                    &&& e == Error::Indeterminable
                    &&& *final(region) == *old(region)
                },
            },
    {
        let i = self.identifier();
        let live = i < region.data.len() && region.data[i].get().is_some();
        if live {
            Ok(self.get_mut(region))
        } else {
            Err(Error::Indeterminable)
        }
    }
}

} // verus!

verus! {

/// Locating an anchor by id: when some space carries the id's nonce, the
/// chosen space position is that one, and the lookup reads its records.
pub proof fn lemma_anchor_lookup(ss: Seq<Space>, id: AnchorId, s: int)
    requires
        distinct_nonces(ss),
        0 <= s < ss.len(),
        ss[s].nonce == id.nonce,
    ensures
        space_at(ss, id.nonce) == s,
        has_anchor(ss, id) == (id.slot < ss[s].anchors@.len()),
        id.slot < ss[s].anchors@.len() ==> anchor_of(ss, id) == ss[s].anchors@[id.slot as int],
{
    lemma_space_at(ss, id.nonce, s);
}

impl<T> Region<T> {
    /// The anchor record linked to the entry at offset `i`, creating a
    /// fresh one in the region's own space if the entry has none yet.
    fn anchor_for_entry(&mut self, i: usize) -> (id: AnchorId)
        requires
            old(self).wf(),
            old(self).live_at(i as int),
            old(self).entry_at(i as int).anchor is None ==> old(self).spaces@[0].anchors@.len() < usize::MAX,
        ensures
            final(self).wf(),
            final(self).nonce == old(self).nonce,
            final(self).cap == old(self).cap,
            final(self).n() == old(self).n(),
            forall|j: int|
                0 <= j < old(self).n() && j != i ==> final(self).data@[j] == old(self).data@[j],
            final(self).live_at(i as int),
            final(self).value_at(i as int) == old(self).value_at(i as int),
            final(self).entry_at(i as int).anchor == Some(id),
            final(self).anchor_live(id),
            final(self).anchor(id).target == i,
            forall|x: AnchorId|
                old(self).has_anchor_id(x) ==> final(self).has_anchor_id(x) && final(self).anchor(
                    x,
                ) == old(self).anchor(x),
            forall|x: AnchorId|
                final(self).has_anchor_id(x) && x != id ==> old(self).has_anchor_id(x),
            old(self).entry_at(i as int).anchor is Some ==> id == old(self).entry_at(
                i as int,
            ).anchor->Some_0 && *final(self) == *old(self),
            old(self).entry_at(i as int).anchor is None ==> {
                &&& !old(self).has_anchor_id(id)
                &&& id == (AnchorId {
                    nonce: old(self).nonce,
                    slot: old(self).spaces@[0].anchors@.len() as usize,
                })
                &&& final(self).anchor(id) == (Anchor {
                    target: i,
                    present: true,
                    roots: 0,
                    weaks: 0,
                    moved: false,
                })
            },
    {
        proof {
            lemma_anchor_lookup(
                self.spaces@,
                AnchorId { nonce: self.nonce, slot: 0 },
                0,
            );
        }
        let existing: Option<AnchorId> = match self.data[i].get() {
            Some(e) => e.anchor,
            None => unreached(),
        };
        match existing {
            Some(id) => {
                proof {
                    let ghost pre = *old(self);
                    assert(pre.anchor_live(id) && pre.anchor(id).target == i);
                }
                id
            },
            None => {
                let slot = self.spaces[0].anchors.len();
                let id = AnchorId { nonce: self.nonce, slot };
                let fresh = Anchor { target: i, present: true, roots: 0, weaks: 0, moved: false };
                self.spaces[0].anchors.push(fresh);
                let e = self.data[i].entry_mut();
                e.anchor = Some(id);
                proof {
                    let ghost pre = *old(self);
                    let ghost post = *self;
                    assert(post.spaces@[0].anchors@ == pre.spaces@[0].anchors@.push(fresh));
                    assert forall|s: int| 0 <= s < post.spaces@.len() implies post.spaces@[s].nonce
                        == pre.spaces@[s].nonce by {}
                    lemma_anchor_lookup(pre.spaces@, id, 0);
                    lemma_anchor_lookup(post.spaces@, id, 0);
                    assert(!pre.has_anchor_id(id));
                    assert(post.anchor(id) == fresh);
                    // anchor ids other than the fresh one resolve as before
                    assert forall|x: AnchorId| pre.has_anchor_id(x) implies post.has_anchor_id(x)
                        && post.anchor(x) == pre.anchor(x) by {
                        let s = space_at(pre.spaces@, x.nonce);
                        lemma_anchor_lookup(pre.spaces@, x, s);
                        lemma_anchor_lookup(post.spaces@, x, s);
                    }
                    assert forall|x: AnchorId| post.has_anchor_id(x) && x != id implies pre
                        .has_anchor_id(x) by {
                        let s = space_at(post.spaces@, x.nonce);
                        lemma_anchor_lookup(post.spaces@, x, s);
                        lemma_anchor_lookup(pre.spaces@, x, s);
                        if s == 0 {
                            assert(x.slot < post.spaces@[0].anchors@.len());
                            if x.slot == pre.spaces@[0].anchors@.len() {
                                assert(x == id);
                            }
                        }
                    }
                    // the two link directions survive
                    assert forall|j: int|
                        live_at(post.data@, j) && (#[trigger] entry_at(post.data@, j)).anchor
                            is Some implies {
                        let xd = entry_at(post.data@, j).anchor->Some_0;
                        &&& has_anchor(post.spaces@, xd)
                        &&& anchor_of(post.spaces@, xd).present
                        &&& anchor_of(post.spaces@, xd).target == j
                    } by {
                        if j != i {
                            assert(entry_at(post.data@, j) == entry_at(pre.data@, j));
                            let xd = entry_at(pre.data@, j).anchor->Some_0;
                            let s = space_at(pre.spaces@, xd.nonce);
                            lemma_anchor_lookup(pre.spaces@, xd, s);
                            lemma_anchor_lookup(post.spaces@, xd, s);
                        }
                    }
                    assert forall|s: int, k: int|
                        0 <= s < post.spaces@.len() && 0 <= k < post.spaces@[s].anchors@.len() && (
                        #[trigger] post.spaces@[s].anchors@[k]).present implies {
                        let a = post.spaces@[s].anchors@[k];
                        &&& live_at(post.data@, a.target as int)
                        &&& entry_at(post.data@, a.target as int).anchor == Some(
                            AnchorId { nonce: post.spaces@[s].nonce, slot: k as usize },
                        )
                    } by {
                        let a = post.spaces@[s].anchors@[k];
                        if s == 0 && k == pre.spaces@[0].anchors@.len() {
                            assert(a == fresh);
                        } else {
                            assert(a == pre.spaces@[s].anchors@[k]);
                            assert(entry_at(pre.data@, a.target as int).anchor == Some(
                                AnchorId { nonce: pre.spaces@[s].nonce, slot: k as usize },
                            ));
                            assert(a.target != i) by {
                                if a.target == i {
                                    assert(entry_at(pre.data@, i as int).anchor is Some);
                                }
                            }
                        }
                    }
                    assert(anchors_linked(post.data@, post.spaces@));
                }
                id
            },
        }
    }
}

} // verus!

verus! {

/// Changing only the observer counts of one anchor record (its `present`,
/// `target` and `moved` fields kept) disturbs no link between entries and
/// anchors, and no other record.
pub proof fn lemma_links_count_change<T>(
    ds: Seq<Spot<T>>,
    ss1: Seq<Space>,
    ss2: Seq<Space>,
    s0: int,
    k0: int,
)
    requires
        anchors_linked(ds, ss1),
        distinct_nonces(ss1),
        ss2.len() == ss1.len(),
        forall|s: int| 0 <= s < ss1.len() ==> ss2[s].nonce == ss1[s].nonce,
        forall|s: int| 0 <= s < ss1.len() && s != s0 ==> ss2[s] == ss1[s],
        0 <= s0 < ss1.len(),
        ss2[s0].anchors@.len() == ss1[s0].anchors@.len(),
        forall|k: int|
            0 <= k < ss1[s0].anchors@.len() && k != k0 ==> ss2[s0].anchors@[k]
                == ss1[s0].anchors@[k],
        0 <= k0 < ss1[s0].anchors@.len(),
        k0 <= usize::MAX,
        ss2[s0].anchors@[k0].present == ss1[s0].anchors@[k0].present,
        ss2[s0].anchors@[k0].target == ss1[s0].anchors@[k0].target,
        ss2[s0].anchors@[k0].moved == ss1[s0].anchors@[k0].moved,
    ensures
        anchors_linked(ds, ss2),
        distinct_nonces(ss2),
        anchors_at_rest(ss1) ==> anchors_at_rest(ss2),
        forall|x: AnchorId| has_anchor(ss2, x) <==> has_anchor(ss1, x),
        forall|x: AnchorId|
            has_anchor(ss1, x) && x != (AnchorId { nonce: ss1[s0].nonce, slot: k0 as usize })
                ==> anchor_of(ss2, x) == anchor_of(ss1, x),
        has_anchor(ss1, AnchorId { nonce: ss1[s0].nonce, slot: k0 as usize }),
        anchor_of(ss2, AnchorId { nonce: ss1[s0].nonce, slot: k0 as usize })
            == ss2[s0].anchors@[k0],
        anchor_of(ss1, AnchorId { nonce: ss1[s0].nonce, slot: k0 as usize })
            == ss1[s0].anchors@[k0],
{
    let id0 = AnchorId { nonce: ss1[s0].nonce, slot: k0 as usize };
    lemma_anchor_lookup(ss1, id0, s0);
    lemma_anchor_lookup(ss2, id0, s0);
    assert forall|x: AnchorId| has_anchor(ss2, x) <==> has_anchor(ss1, x) by {
        if has_anchor(ss1, x) {
            let s = space_at(ss1, x.nonce);
            lemma_anchor_lookup(ss1, x, s);
            lemma_anchor_lookup(ss2, x, s);
        }
        if has_anchor(ss2, x) {
            let s = space_at(ss2, x.nonce);
            lemma_anchor_lookup(ss2, x, s);
            lemma_anchor_lookup(ss1, x, s);
        }
    }
    assert forall|x: AnchorId| has_anchor(ss1, x) && x != id0 implies anchor_of(ss2, x)
        == anchor_of(ss1, x) by {
        let s = space_at(ss1, x.nonce);
        lemma_anchor_lookup(ss1, x, s);
        lemma_anchor_lookup(ss2, x, s);
        if s == s0 {
            assert(x.slot != k0);
        }
    }
    assert forall|i: int|
        live_at(ds, i) && (#[trigger] entry_at(ds, i)).anchor is Some implies {
        let id = entry_at(ds, i).anchor->Some_0;
        &&& has_anchor(ss2, id)
        &&& anchor_of(ss2, id).present
        &&& anchor_of(ss2, id).target == i
    } by {
        let id = entry_at(ds, i).anchor->Some_0;
        if id == id0 {
            assert(anchor_of(ss2, id0).present == anchor_of(ss1, id0).present);
        }
    }
    assert forall|s: int, k: int|
        0 <= s < ss2.len() && 0 <= k < ss2[s].anchors@.len() && (
        #[trigger] ss2[s].anchors@[k]).present implies {
        let a = ss2[s].anchors@[k];
        &&& live_at(ds, a.target as int)
        &&& entry_at(ds, a.target as int).anchor == Some(
            AnchorId { nonce: ss2[s].nonce, slot: k as usize },
        )
    } by {
        let a1 = ss1[s].anchors@[k];
        assert(a1.present);
    }
}

impl<T> Region<T> {
    /// Register one more root observer on the entry at offset `i`,
    /// creating its anchor if needed.
    pub(crate) fn make_root(&mut self, i: usize) -> (r: Root<T>)
        requires
            old(self).wf(),
            old(self).live_at(i as int),
            old(self).entry_at(i as int).anchor is None ==> old(self).spaces@[0].anchors@.len() < usize::MAX,
            old(self).entry_at(i as int).anchor matches Some(id) ==> old(self).anchor(
                id,
            ).roots < usize::MAX,
        ensures
            final(self).wf(),
            final(self).nonce == old(self).nonce,
            final(self).cap == old(self).cap,
            final(self).n() == old(self).n(),
            forall|j: int|
                0 <= j < old(self).n() && j != i ==> final(self).data@[j] == old(self).data@[j],
            final(self).live_at(i as int),
            final(self).value_at(i as int) == old(self).value_at(i as int),
            final(self).entry_at(i as int).anchor == Some(r@),
            final(self).anchor_live(r@),
            final(self).anchor(r@).target == i,
            final(self).anchor(r@).roots >= 1,
            final(self).anchor(r@).moved == false,
            forall|x: AnchorId| old(self).has_anchor_id(x) ==> final(self).has_anchor_id(x),
            forall|x: AnchorId|
                final(self).has_anchor_id(x) && x != r@ ==> old(self).has_anchor_id(x) && final(self).anchor(x) == old(self).anchor(x),
            old(self).entry_at(i as int).anchor matches Some(id) ==> r@ == id && final(self).anchor(
                r@,
            ) == (Anchor {
                roots: (old(self).anchor(id).roots + 1) as usize,
                ..old(self).anchor(id)
            }),
            old(self).entry_at(i as int).anchor is None ==> !old(self).has_anchor_id(r@) && final(self).anchor(r@) == (Anchor { target: i, present: true, roots: 1, weaks: 0, moved: false }),
    {
        let id = self.anchor_for_entry(i);
        let ghost mid = *self;
        let s = match self.find_space(id.nonce) {
            Some(s) => s,
            None => unreached(),
        };
        proof {
            lemma_anchor_lookup(mid.spaces@, id, s as int);
        }
        let k = id.slot;
        let mut a = self.spaces[s].anchors[k];
        a.roots = a.roots + 1;
        self.spaces[s].anchors.set(k, a);
        proof {
            lemma_links_count_change(self.data@, mid.spaces@, self.spaces@, s as int, k as int);
            lemma_anchor_lookup(self.spaces@, id, s as int);
        }
        Root::from_id(id)
    }

    /// Register one more weak observer on the entry at offset `i`,
    /// creating its anchor if needed.
    pub(crate) fn make_weak(&mut self, i: usize) -> (r: Weak<T>)
        requires
            old(self).wf(),
            old(self).live_at(i as int),
            old(self).entry_at(i as int).anchor is None ==> old(self).spaces@[0].anchors@.len() < usize::MAX,
            old(self).entry_at(i as int).anchor matches Some(id) ==> old(self).anchor(
                id,
            ).weaks < usize::MAX,
        ensures
            final(self).wf(),
            final(self).nonce == old(self).nonce,
            final(self).cap == old(self).cap,
            final(self).n() == old(self).n(),
            forall|j: int|
                0 <= j < old(self).n() && j != i ==> final(self).data@[j] == old(self).data@[j],
            final(self).live_at(i as int),
            final(self).value_at(i as int) == old(self).value_at(i as int),
            final(self).entry_at(i as int).anchor == Some(r@),
            final(self).anchor_live(r@),
            final(self).anchor(r@).target == i,
            final(self).anchor(r@).weaks >= 1,
            forall|x: AnchorId| old(self).has_anchor_id(x) ==> final(self).has_anchor_id(x),
            forall|x: AnchorId|
                final(self).has_anchor_id(x) && x != r@ ==> old(self).has_anchor_id(x) && final(self).anchor(x) == old(self).anchor(x),
            old(self).entry_at(i as int).anchor matches Some(id) ==> r@ == id && final(self).anchor(
                r@,
            ) == (Anchor {
                weaks: (old(self).anchor(id).weaks + 1) as usize,
                ..old(self).anchor(id)
            }),
            old(self).entry_at(i as int).anchor is None ==> !old(self).has_anchor_id(r@) && final(self).anchor(r@) == (Anchor { target: i, present: true, roots: 0, weaks: 1, moved: false }),
    {
        let id = self.anchor_for_entry(i);
        let ghost mid = *self;
        let s = match self.find_space(id.nonce) {
            Some(s) => s,
            None => unreached(),
        };
        proof {
            lemma_anchor_lookup(mid.spaces@, id, s as int);
        }
        let k = id.slot;
        let mut a = self.spaces[s].anchors[k];
        a.weaks = a.weaks + 1;
        self.spaces[s].anchors.set(k, a);
        proof {
            lemma_links_count_change(self.data@, mid.spaces@, self.spaces@, s as int, k as int);
            lemma_anchor_lookup(self.spaces@, id, s as int);
        }
        Weak::from_id(id)
    }

    /// Release a root handle: its target no longer counts as rooted once
    /// no other root observes it. A root that is merely dropped without
    /// this call keeps its target live forever.
    pub fn drop_root(&mut self, root: Root<T>)
        requires
            old(self).wf(),
        ensures
            final(self).wf(),
            final(self).nonce == old(self).nonce,
            final(self).cap == old(self).cap,
            final(self).data == old(self).data,
            forall|x: AnchorId|
                final(self).has_anchor_id(x) <==> old(self).has_anchor_id(x),
            forall|x: AnchorId|
                old(self).has_anchor_id(x) && x != root@ ==> final(self).anchor(x) == old(self).anchor(x),
            old(self).has_anchor_id(root@) && old(self).anchor(root@).roots >= 1 ==> final(self).anchor(root@) == (Anchor {
                roots: (old(self).anchor(root@).roots - 1) as usize,
                ..old(self).anchor(root@)
            }),
            old(self).has_anchor_id(root@) && old(self).anchor(root@).roots == 0 ==> final(self).anchor(root@) == old(self).anchor(root@),
    {
        let id = root.id();
        let ghost pre = *self;
        match self.find_space(id.nonce) {
            None => {},
            Some(s) => {
                proof {
                    lemma_anchor_lookup(pre.spaces@, id, s as int);
                }
                if id.slot < self.spaces[s].anchors.len() {
                    let k = id.slot;
                    let mut a = self.spaces[s].anchors[k];
                    if a.roots >= 1 {
                        a.roots = a.roots - 1;
                        self.spaces[s].anchors.set(k, a);
                        proof {
                            lemma_links_count_change(
                                self.data@,
                                pre.spaces@,
                                self.spaces@,
                                s as int,
                                k as int,
                            );
                            lemma_anchor_lookup(self.spaces@, id, s as int);
                        }
                    }
                }
            },
        }
    }

    /// Release a weak handle's observation of its anchor.
    pub fn drop_weak(&mut self, weak: Weak<T>)
        requires
            old(self).wf(),
        ensures
            final(self).wf(),
            final(self).nonce == old(self).nonce,
            final(self).cap == old(self).cap,
            final(self).data == old(self).data,
            forall|x: AnchorId|
                final(self).has_anchor_id(x) <==> old(self).has_anchor_id(x),
            forall|x: AnchorId|
                old(self).has_anchor_id(x) && x != weak@ ==> final(self).anchor(x) == old(self).anchor(x),
            old(self).has_anchor_id(weak@) && old(self).anchor(weak@).weaks >= 1 ==> final(self).anchor(weak@) == (Anchor {
                weaks: (old(self).anchor(weak@).weaks - 1) as usize,
                ..old(self).anchor(weak@)
            }),
            old(self).has_anchor_id(weak@) && old(self).anchor(weak@).weaks == 0 ==> final(self).anchor(weak@) == old(self).anchor(weak@),
    {
        let id = weak.id();
        let ghost pre = *self;
        match self.find_space(id.nonce) {
            None => {},
            Some(s) => {
                proof {
                    lemma_anchor_lookup(pre.spaces@, id, s as int);
                }
                if id.slot < self.spaces[s].anchors.len() {
                    let k = id.slot;
                    let mut a = self.spaces[s].anchors[k];
                    if a.weaks >= 1 {
                        a.weaks = a.weaks - 1;
                        self.spaces[s].anchors.set(k, a);
                        proof {
                            lemma_links_count_change(
                                self.data@,
                                pre.spaces@,
                                self.spaces@,
                                s as int,
                                k as int,
                            );
                            lemma_anchor_lookup(self.spaces@, id, s as int);
                        }
                    }
                }
            },
        }
    }
}

} // verus!

verus! {

impl<T> Root<T> {
    /// The raw index currently pointed to by this root. Valid for the
    /// region the root belongs to, however many collections have run.
    pub fn ix(&self, r: &Region<T>) -> (res: Ix<T>)
        requires
            r.wf(),
            r.has_anchor_id(self@),
        ensures
            res@ == r.anchor(self@).target,
    {
        let id = self.id();
        let s = match r.find_space(id.nonce) {
            Some(s) => s,
            None => unreached(),
        };
        proof {
            lemma_anchor_lookup(r.spaces@, id, s as int);
        }
        Ix::new(r.spaces[s].anchors[id.slot].target)
    }

    /// Try to get a reference to the value this root keeps live.
    ///
    /// With the root's own region this always succeeds; an error reports a
    /// handle used against the wrong region, or one released twice.
    pub fn try_get<'a>(&self, r: &'a Region<T>) -> (res: Result<&'a T, Error>)
        requires
            r.wf(),
        ensures
            r.anchor_live(self@) ==> (res matches Ok(t) && *t == r.value_at(
                r.anchor(self@).target as int,
            )),
            !r.has_anchor_id(self@) ==> (res matches Err(e) && e == Error::IncorrectRegion),
            r.has_anchor_id(self@) && !r.anchor(self@).present ==> (res matches Err(e) && e
                == Error::EntryExpired),
    {
        let id = self.id();
        match r.find_space(id.nonce) {
            None => Err(Error::IncorrectRegion),
            Some(s) => {
                proof {
                    lemma_anchor_lookup(r.spaces@, id, s as int);
                }
                if id.slot < r.spaces[s].anchors.len() {
                    let a = r.spaces[s].anchors[id.slot];
                    if a.present {
                        proof {
                            assert(r.spaces@[s as int].anchors@[id.slot as int].present);
                        }
                        Ix::new(a.target).try_get(r)
                    } else {
                        Err(Error::EntryExpired)
                    }
                } else {
                    Err(Error::IncorrectRegion)
                }
            },
        }
    }

    /// Get the value this root keeps live in its region.
    pub fn get<'a>(&self, r: &'a Region<T>) -> (res: &'a T)
        requires
            r.wf(),
            r.anchor_live(self@),
        ensures
            *res == r.value_at(r.anchor(self@).target as int),
    {
        match self.try_get(r) {
            Ok(t) => t,
            Err(_) => unreached(),
        }
    }

    /// Get exclusive access to the value this root keeps live.
    pub fn get_mut<'a>(&self, r: &'a mut Region<T>) -> (res: &'a mut T)
        requires
            old(r).wf(),
            old(r).anchor_live(self@),
        ensures
            *res == old(r).value_at(old(r).anchor(self@).target as int),
            final(r).data@ == old(r).data@.update(
                old(r).anchor(self@).target as int,
                Spot::Present(
                    Entry {
                        t: *final(res),
                        anchor: old(r).entry_at(old(r).anchor(self@).target as int).anchor,
                    },
                ),
            ),
            final(r).spaces == old(r).spaces,
            final(r).nonce == old(r).nonce,
            final(r).cap == old(r).cap,
    {
        let id = self.id();
        let s = match r.find_space(id.nonce) {
            Some(s) => s,
            None => unreached(),
        };
        proof {
            lemma_anchor_lookup(r.spaces@, id, s as int);
            assert(r.spaces@[s as int].anchors@[id.slot as int].present);
        }
        let a = r.spaces[s].anchors[id.slot];
        Ix::new(a.target).get_mut(r)
    }

    /// Like [`Root::get_mut`], but reports an error instead of demanding a
    /// live handle.
    pub fn try_get_mut<'a>(&self, r: &'a mut Region<T>) -> (res: Result<&'a mut T, Error>)
        requires
            old(r).wf(),
        ensures
            match res {
                Ok(t) => {
                    &&& old(r).anchor_live(self@)
                    &&& *t == old(r).value_at(old(r).anchor(self@).target as int)
                    &&& final(r).data@ == old(r).data@.update(
                        old(r).anchor(self@).target as int,
                        Spot::Present(
                            Entry {
                                t: *final(t),
                                anchor: old(r).entry_at(old(r).anchor(self@).target as int).anchor,
                            },
                        ),
                    )
                    &&& final(r).spaces == old(r).spaces
                    &&& final(r).nonce == old(r).nonce
                    &&& final(r).cap == old(r).cap
                },
                Err(_) => {
                    &&& !old(r).anchor_live(self@)
                    &&& *final(r) == *old(r)
                },
            },
    {
        let id = self.id();
        let live = match r.find_space(id.nonce) {
            None => false,
            Some(s) => {
                proof {
                    lemma_anchor_lookup(r.spaces@, id, s as int);
                }
                id.slot < r.spaces[s].anchors.len() && r.spaces[s].anchors[id.slot].present
            },
        };
        if live {
            proof {
                let s = space_at(r.spaces@, id.nonce);
                assert(r.spaces@[s].anchors@[id.slot as int].present);
            }
            Ok(self.get_mut(r))
        } else {
            Err(Error::EntryExpired)
        }
    }
}

impl<T> Weak<T> {
    /// The raw index this handle currently points to, or `None` once the
    /// target has been reclaimed.
    pub fn ix(&self, r: &Region<T>) -> (res: Option<Ix<T>>)
        requires
            r.wf(),
        ensures
            match res {
                Some(x) => r.anchor_live(self@) && x@ == r.anchor(self@).target,
                None => !r.anchor_live(self@),
            },
    {
        let id = self.id();
        match r.find_space(id.nonce) {
            None => None,
            Some(s) => {
                proof {
                    lemma_anchor_lookup(r.spaces@, id, s as int);
                }
                if id.slot < r.spaces[s].anchors.len() {
                    let a = r.spaces[s].anchors[id.slot];
                    if a.present {
                        Some(Ix::new(a.target))
                    } else {
                        None
                    }
                } else {
                    None
                }
            },
        }
    }

    /// Try to get a reference to this handle's target; an error means the
    /// target has been reclaimed by a collection.
    pub fn try_get<'a>(&self, r: &'a Region<T>) -> (res: Result<&'a T, Error>)
        requires
            r.wf(),
        ensures
            r.anchor_live(self@) ==> (res matches Ok(t) && *t == r.value_at(
                r.anchor(self@).target as int,
            )),
            !r.anchor_live(self@) ==> (res matches Err(e) && e == Error::EntryExpired),
    {
        match self.ix(r) {
            Some(i) => {
                proof {
                    let id = self@;
                    let s = space_at(r.spaces@, id.nonce);
                    lemma_anchor_lookup(r.spaces@, id, s);
                    assert(r.spaces@[s].anchors@[id.slot as int].present);
                }
                i.try_get(r)
            },
            None => Err(Error::EntryExpired),
        }
    }

    /// Get the value at this handle's target, which must still be live.
    pub fn get<'a>(&self, r: &'a Region<T>) -> (res: &'a T)
        requires
            r.wf(),
            r.anchor_live(self@),
        ensures
            *res == r.value_at(r.anchor(self@).target as int),
    {
        match self.try_get(r) {
            Ok(t) => t,
            Err(_) => unreached(),
        }
    }

    /// Get exclusive access to this handle's target, which must still be
    /// live.
    pub fn get_mut<'a>(&self, r: &'a mut Region<T>) -> (res: &'a mut T)
        requires
            old(r).wf(),
            old(r).anchor_live(self@),
        ensures
            *res == old(r).value_at(old(r).anchor(self@).target as int),
            final(r).data@ == old(r).data@.update(
                old(r).anchor(self@).target as int,
                Spot::Present(
                    Entry {
                        t: *final(res),
                        anchor: old(r).entry_at(old(r).anchor(self@).target as int).anchor,
                    },
                ),
            ),
            final(r).spaces == old(r).spaces,
            final(r).nonce == old(r).nonce,
            final(r).cap == old(r).cap,
    {
        let id = self.id();
        let s = match r.find_space(id.nonce) {
            Some(s) => s,
            None => unreached(),
        };
        proof {
            lemma_anchor_lookup(r.spaces@, id, s as int);
            assert(r.spaces@[s as int].anchors@[id.slot as int].present);
        }
        let a = r.spaces[s].anchors[id.slot];
        Ix::new(a.target).get_mut(r)
    }

    /// Like [`Weak::get_mut`], but reports `EntryExpired` instead of
    /// demanding a live target.
    pub fn try_get_mut<'a>(&self, r: &'a mut Region<T>) -> (res: Result<&'a mut T, Error>)
        requires
            old(r).wf(),
        ensures
            match res {
                Ok(t) => {
                    &&& old(r).anchor_live(self@)
                    &&& *t == old(r).value_at(old(r).anchor(self@).target as int)
                    &&& final(r).data@ == old(r).data@.update(
                        old(r).anchor(self@).target as int,
                        Spot::Present(
                            Entry {
                                t: *final(t),
                                anchor: old(r).entry_at(old(r).anchor(self@).target as int).anchor,
                            },
                        ),
                    )
                    &&& final(r).spaces == old(r).spaces
                    &&& final(r).nonce == old(r).nonce
                    &&& final(r).cap == old(r).cap
                },
                Err(e) => {
                    &&& !old(r).anchor_live(self@)
                    &&& e == Error::EntryExpired
                    &&& *final(r) == *old(r)
                },
            },
    {
        let id = self.id();
        let live = match r.find_space(id.nonce) {
            None => false,
            Some(s) => {
                proof {
                    lemma_anchor_lookup(r.spaces@, id, s as int);
                }
                id.slot < r.spaces[s].anchors.len() && r.spaces[s].anchors[id.slot].present
            },
        };
        if live {
            proof {
                let s = space_at(r.spaces@, id.nonce);
                assert(r.spaces@[s].anchors@[id.slot as int].present);
            }
            Ok(self.get_mut(r))
        } else {
            Err(Error::EntryExpired)
        }
    }
}

} // verus!

verus! {

/// A handle over a freshly created entry, as returned by
/// [`Region::allocate`](crate::Region::allocate): it carries the new
/// entry's index and offers value access and root or weak handle creation
/// against the region.
///
/// The handle does not borrow the region; each of its operations instead
/// takes the region and states in its contract that the entry must still
/// sit where the handle points, which holds until the next relocating
/// operation (a collection or a transfer).
#[derive(Debug)]
pub struct MutEntry<T> {
    pub(crate) ix: Ix<T>,
}

impl<T> MutEntry<T> {
    /// The offset of the entry this handle was created for.
    pub closed spec fn view(self) -> int {
        self.ix@
    }

    pub(crate) fn from_ix(ix: Ix<T>) -> (r: Self)
        ensures
            r@ == ix@,
    {
        MutEntry { ix }
    }

    /// The raw index of the new entry.
    pub fn ix(&self) -> (r: Ix<T>)
        ensures
            r@ == self@,
    {
        self.ix
    }

    /// Read the entry's value.
    pub fn get<'a>(&self, r: &'a Region<T>) -> (res: &'a T)
        requires
            r.live_at(self@),
        ensures
            *res == r.value_at(self@),
    {
        self.ix.get(r)
    }

    /// Gain exclusive access to the entry's value.
    pub fn get_mut<'a>(&self, r: &'a mut Region<T>) -> (res: &'a mut T)
        requires
            old(r).live_at(self@),
        ensures
            *res == old(r).value_at(self@),
            final(r).data@ == old(r).data@.update(
                self@,
                Spot::Present(Entry { t: *final(res), anchor: old(r).entry_at(self@).anchor }),
            ),
            final(r).spaces == old(r).spaces,
            final(r).nonce == old(r).nonce,
            final(r).cap == old(r).cap,
    {
        self.ix.get_mut(r)
    }

    /// Read the entry's value.
    pub fn as_ref<'a>(&self, r: &'a Region<T>) -> (res: &'a T)
        requires
            r.live_at(self@),
        ensures
            *res == r.value_at(self@),
    {
        self.get(r)
    }

    /// Gain exclusive access to the entry's value.
    pub fn as_mut_ref<'a>(&self, r: &'a mut Region<T>) -> (res: &'a mut T)
        requires
            old(r).live_at(self@),
        ensures
            *res == old(r).value_at(self@),
            final(r).data@ == old(r).data@.update(
                self@,
                Spot::Present(Entry { t: *final(res), anchor: old(r).entry_at(self@).anchor }),
            ),
            final(r).spaces == old(r).spaces,
            final(r).nonce == old(r).nonce,
            final(r).cap == old(r).cap,
    {
        self.get_mut(r)
    }

    /// Create a root handle, which will keep this entry live across
    /// garbage collections until it is released.
    pub fn root(&self, r: &mut Region<T>) -> (res: Root<T>)
        requires
            old(r).wf(),
            old(r).live_at(self@),
            old(r).entry_at(self@).anchor is None ==> old(r).spaces@[0].anchors@.len()
                < usize::MAX,
            old(r).entry_at(self@).anchor matches Some(id) ==> old(r).anchor(id).roots
                < usize::MAX,
        ensures
            final(r).wf(),
            final(r).nonce == old(r).nonce,
            final(r).cap == old(r).cap,
            final(r).n() == old(r).n(),
            forall|j: int|
                0 <= j < old(r).n() && j != self@ ==> final(r).data@[j] == old(r).data@[j],
            final(r).live_at(self@),
            final(r).value_at(self@) == old(r).value_at(self@),
            final(r).entry_at(self@).anchor == Some(res@),
            final(r).anchor_live(res@),
            final(r).anchor(res@).target == self@,
            final(r).anchor(res@).roots >= 1,
            forall|x: AnchorId| old(r).has_anchor_id(x) ==> final(r).has_anchor_id(x),
            forall|x: AnchorId|
                final(r).has_anchor_id(x) && x != res@ ==> old(r).has_anchor_id(x) && final(r).anchor(x) == old(r).anchor(x),
    {
        r.make_root(self.ix.identifier())
    }

    /// Create a weak handle, which observes a consistent location in the
    /// region but never keeps the entry live.
    pub fn weak(&self, r: &mut Region<T>) -> (res: Weak<T>)
        requires
            old(r).wf(),
            old(r).live_at(self@),
            old(r).entry_at(self@).anchor is None ==> old(r).spaces@[0].anchors@.len()
                < usize::MAX,
            old(r).entry_at(self@).anchor matches Some(id) ==> old(r).anchor(id).weaks
                < usize::MAX,
        ensures
            final(r).wf(),
            final(r).nonce == old(r).nonce,
            final(r).cap == old(r).cap,
            final(r).n() == old(r).n(),
            forall|j: int|
                0 <= j < old(r).n() && j != self@ ==> final(r).data@[j] == old(r).data@[j],
            final(r).live_at(self@),
            final(r).value_at(self@) == old(r).value_at(self@),
            final(r).entry_at(self@).anchor == Some(res@),
            final(r).anchor_live(res@),
            final(r).anchor(res@).target == self@,
            final(r).anchor(res@).weaks >= 1,
            forall|x: AnchorId| old(r).has_anchor_id(x) ==> final(r).has_anchor_id(x),
            forall|x: AnchorId|
                final(r).has_anchor_id(x) && x != res@ ==> old(r).has_anchor_id(x) && final(r).anchor(x) == old(r).anchor(x),
    {
        r.make_weak(self.ix.identifier())
    }
}

} // verus!

verus! {

impl<T> Region<T> {
    /// Share a root: a second root handle observing the same anchor,
    /// which now takes two releases to un-root its target.
    pub fn clone_root(&mut self, root: &Root<T>) -> (r: Root<T>)
        requires
            old(self).wf(),
            old(self).has_anchor_id(root@) ==> old(self).anchor(root@).roots < usize::MAX,
        ensures
            final(self).wf(),
            final(self).nonce == old(self).nonce,
            final(self).cap == old(self).cap,
            final(self).data == old(self).data,
            r@ == root@,
            forall|x: AnchorId| final(self).has_anchor_id(x) <==> old(self).has_anchor_id(x),
            forall|x: AnchorId|
                old(self).has_anchor_id(x) && x != root@ ==> final(self).anchor(x) == old(
                    self,
                ).anchor(x),
            old(self).has_anchor_id(root@) ==> final(self).anchor(root@) == (Anchor {
                roots: (old(self).anchor(root@).roots + 1) as usize,
                ..old(self).anchor(root@)
            }),
    {
        let id = root.id();
        let ghost pre = *self;
        match self.find_space(id.nonce) {
            None => {},
            Some(s) => {
                proof {
                    lemma_anchor_lookup(pre.spaces@, id, s as int);
                }
                if id.slot < self.spaces[s].anchors.len() {
                    let k = id.slot;
                    let mut a = self.spaces[s].anchors[k];
                    a.roots = a.roots + 1;
                    self.spaces[s].anchors.set(k, a);
                    proof {
                        lemma_links_count_change(
                            self.data@,
                            pre.spaces@,
                            self.spaces@,
                            s as int,
                            k as int,
                        );
                        lemma_anchor_lookup(self.spaces@, id, s as int);
                    }
                }
            },
        }
        Root::from_id(id)
    }

    /// Share a weak handle: a second observer of the same anchor.
    pub fn clone_weak(&mut self, weak: &Weak<T>) -> (r: Weak<T>)
        requires
            old(self).wf(),
            old(self).has_anchor_id(weak@) ==> old(self).anchor(weak@).weaks < usize::MAX,
        ensures
            final(self).wf(),
            final(self).nonce == old(self).nonce,
            final(self).cap == old(self).cap,
            final(self).data == old(self).data,
            r@ == weak@,
            forall|x: AnchorId| final(self).has_anchor_id(x) <==> old(self).has_anchor_id(x),
            forall|x: AnchorId|
                old(self).has_anchor_id(x) && x != weak@ ==> final(self).anchor(x) == old(
                    self,
                ).anchor(x),
            old(self).has_anchor_id(weak@) ==> final(self).anchor(weak@) == (Anchor {
                weaks: (old(self).anchor(weak@).weaks + 1) as usize,
                ..old(self).anchor(weak@)
            }),
    {
        let id = weak.id();
        let ghost pre = *self;
        match self.find_space(id.nonce) {
            None => {},
            Some(s) => {
                proof {
                    lemma_anchor_lookup(pre.spaces@, id, s as int);
                }
                if id.slot < self.spaces[s].anchors.len() {
                    let k = id.slot;
                    let mut a = self.spaces[s].anchors[k];
                    a.weaks = a.weaks + 1;
                    self.spaces[s].anchors.set(k, a);
                    proof {
                        lemma_links_count_change(
                            self.data@,
                            pre.spaces@,
                            self.spaces@,
                            s as int,
                            k as int,
                        );
                        lemma_anchor_lookup(self.spaces@, id, s as int);
                    }
                }
            },
        }
        Weak::from_id(id)
    }
}

} // verus!

verus! {

impl<T> Default for Region<T> {
    /// An empty region with nonce zero. Regions that may be merged with
    /// one another should be built with [`Region::new`] and distinct
    /// nonces instead.
    fn default() -> (r: Self)
        ensures
            r.wf(),
            r.n() == 0,
            r.nonce == 0,
    {
        Region::new(0)
    }
}

} // verus!
