//! The copying collector: reachability, the forwarding step, and the
//! linear-scan copy.

use vstd::prelude::*;

use crate::entry::{Entry, Spot};
use crate::has_ix::HasIx;
use crate::region::{
    MutEntry,
    all_present, anchor_of, anchors_at_rest, anchors_linked, distinct_nonces, edges_ok_at,
    edges_within, entry_at, has_anchor, has_space, lemma_anchor_lookup, lemma_space_at, live_at,
    space_at, Region,
};
use crate::types::{Anchor, AnchorId, Ix, Space};

verus! {

/// Offset `i` is the target of some present anchor with a live root
/// observer: the root set of a collection.
pub open spec fn rooted(ss: Seq<Space>, i: int) -> bool {
    exists|s: int, k: int|
        0 <= s < ss.len() && 0 <= k < ss[s].anchors@.len()
            && (#[trigger] ss[s].anchors@[k]).present && ss[s].anchors@[k].roots > 0
            && ss[s].anchors@[k].target == i
}

/// The live entry at `i` owns an edge to offset `j`.
pub open spec fn points_to<T: HasIx<T>>(ds: Seq<Spot<T>>, i: int, j: int) -> bool {
    live_at(ds, i) && entry_at(ds, i).t.edges().contains(j)
}

/// Offset `j` holds a live entry reachable from the root set in at most
/// `n` edge steps.
pub open spec fn reach_n<T: HasIx<T>>(ds: Seq<Spot<T>>, ss: Seq<Space>, j: int, n: nat) -> bool
    decreases n,
{
    if n == 0 {
        rooted(ss, j) && live_at(ds, j)
    } else {
        reach_n(ds, ss, j, (n - 1) as nat) || exists|i: int|
            reach_n(ds, ss, i, (n - 1) as nat) && #[trigger] points_to(ds, i, j) && live_at(ds, j)
    }
}

/// Offset `j` holds a live entry reachable from the root set through the
/// traversal capability.
pub open spec fn reachable<T: HasIx<T>>(ds: Seq<Spot<T>>, ss: Seq<Space>, j: int) -> bool {
    exists|n: nat| reach_n(ds, ss, j, n)
}

/// A reachable entry's live edge targets are reachable.
pub proof fn lemma_reach_step<T: HasIx<T>>(ds: Seq<Spot<T>>, ss: Seq<Space>, i: int, j: int)
    requires
        reachable(ds, ss, i),
        points_to(ds, i, j),
        live_at(ds, j),
    ensures
        reachable(ds, ss, j),
{
    let n = choose|n: nat| reach_n(ds, ss, i, n);
    let m: nat = n + 1;
    assert(reach_n(ds, ss, i, (m - 1) as nat));
    assert(reach_n(ds, ss, j, m));
}

/// A live member of the root set is reachable.
pub proof fn lemma_rooted_reachable<T: HasIx<T>>(ds: Seq<Spot<T>>, ss: Seq<Space>, i: int)
    requires
        rooted(ss, i),
        live_at(ds, i),
    ensures
        reachable(ds, ss, i),
{
    assert(reach_n(ds, ss, i, 0));
}

proof fn lemma_reach_n_in_closed<T: HasIx<T>>(
    ds: Seq<Spot<T>>,
    ss: Seq<Space>,
    dom: Set<int>,
    j: int,
    n: nat,
)
    requires
        forall|i: int| rooted(ss, i) && live_at(ds, i) ==> dom.contains(i),
        forall|i: int, j2: int|
            dom.contains(i) && #[trigger] points_to(ds, i, j2) && live_at(ds, j2) ==> dom.contains(
                j2,
            ),
        reach_n(ds, ss, j, n),
    ensures
        dom.contains(j),
    decreases n,
{
    if n == 0 {
    } else {
        assert(reach_n(ds, ss, j, (n - 1) as nat) || exists|i: int|
            reach_n(ds, ss, i, (n - 1) as nat) && #[trigger] points_to(ds, i, j) && live_at(
                ds,
                j,
            ));
        if reach_n(ds, ss, j, (n - 1) as nat) {
            lemma_reach_n_in_closed(ds, ss, dom, j, (n - 1) as nat);
        } else {
            let i = choose|i: int|
                reach_n(ds, ss, i, (n - 1) as nat) && #[trigger] points_to(ds, i, j) && live_at(
                    ds,
                    j,
                );
            lemma_reach_n_in_closed(ds, ss, dom, i, (n - 1) as nat);
        }
    }
}

/// A set that contains every live root target and is closed under live
/// edges contains everything reachable.
pub proof fn lemma_reach_closed<T: HasIx<T>>(ds: Seq<Spot<T>>, ss: Seq<Space>, dom: Set<int>)
    requires
        forall|i: int| rooted(ss, i) && live_at(ds, i) ==> dom.contains(i),
        forall|i: int, j2: int|
            dom.contains(i) && #[trigger] points_to(ds, i, j2) && live_at(ds, j2) ==> dom.contains(
                j2,
            ),
    ensures
        forall|j: int| reachable(ds, ss, j) ==> dom.contains(j),
{
    assert forall|j: int| reachable(ds, ss, j) implies dom.contains(j) by {
        let n = choose|n: nat| reach_n(ds, ss, j, n);
        lemma_reach_n_in_closed(ds, ss, dom, j, n);
    }
}

/// Number of live entries in a store.
pub open spec fn present_count<T>(ds: Seq<Spot<T>>) -> int
    decreases ds.len(),
{
    if ds.len() == 0 {
        0
    } else {
        present_count(ds.drop_last()) + if ds.last() is Present {
            1int
        } else {
            0int
        }
    }
}

pub proof fn lemma_present_count_bounds<T>(ds: Seq<Spot<T>>)
    ensures
        0 <= present_count(ds) <= ds.len(),
    decreases ds.len(),
{
    if ds.len() > 0 {
        lemma_present_count_bounds(ds.drop_last());
    }
}

/// Replacing one live entry by a broken heart lowers the live count by
/// exactly one.
pub proof fn lemma_present_count_update<T>(ds: Seq<Spot<T>>, i: int, v: Spot<T>)
    requires
        0 <= i < ds.len(),
        ds[i] is Present,
        !(v is Present),
    ensures
        present_count(ds.update(i, v)) == present_count(ds) - 1,
    decreases ds.len(),
{
    let du = ds.update(i, v);
    if i == ds.len() - 1 {
        assert(du.drop_last() =~= ds.drop_last());
    } else {
        assert(du.drop_last() =~= ds.drop_last().update(i, v));
        lemma_present_count_update(ds.drop_last(), i, v);
    }
}

} // verus!

verus! {

use crate::region::find_space_in;

/// Facts about the graph as it stood when a collection began; they stay
/// fixed while the collection runs.
pub open spec fn graph_ok<T: HasIx<T>>(ds0: Seq<Spot<T>>, ss0: Seq<Space>) -> bool {
    &&& all_present(ds0)
    &&& anchors_linked(ds0, ss0)
    &&& distinct_nonces(ss0)
    &&& anchors_at_rest(ss0)
    &&& edges_within(ds0)
}

/// Mid-collection forwarding state: how the source store, the anchor
/// spaces and the copy map `m` relate to the original graph `ds0`/`ss0`.
/// `d0` is the destination length when the collection began, `dlen` its
/// current length, and `order` lists the copied source offsets in copy
/// order.
pub open spec fn fwd_ok<T: HasIx<T>>(
    ds0: Seq<Spot<T>>,
    ss0: Seq<Space>,
    d0: int,
    src: Seq<Spot<T>>,
    ss: Seq<Space>,
    dlen: int,
    m: Map<int, int>,
    order: Seq<int>,
) -> bool {
    // the source store carries a broken heart exactly where an object
    // has been copied out
    &&& src.len() == ds0.len()
    &&& forall|i: int|
        0 <= i < ds0.len() ==> #[trigger] src[i] == if m.dom().contains(i) {
            Spot::BrokenHeart(m[i] as usize)
        } else {
            ds0[i]
        }
    // the copy map sends live source offsets into the new segment,
    // injectively, and covers it in copy order
    &&& forall|i: int| #[trigger] m.dom().contains(i) ==> 0 <= i < ds0.len() && d0 <= m[i] < dlen
    &&& forall|i1: int, i2: int|
        m.dom().contains(i1) && m.dom().contains(i2) && i1 != i2 ==> m[i1] != m[i2]
    &&& order.len() == dlen - d0
    &&& forall|q: int|
        0 <= q < order.len() ==> m.dom().contains(#[trigger] order[q]) && m[order[q]] == d0 + q
    // anchors: copied objects' anchors are marked moved and point at the
    // copy; everything else is untouched
    &&& ss.len() == ss0.len()
    &&& forall|s: int|
        0 <= s < ss0.len() ==> (#[trigger] ss[s]).nonce == ss0[s].nonce && ss[s].anchors@.len()
            == ss0[s].anchors@.len()
    &&& forall|s: int, k: int|
        0 <= s < ss0.len() && 0 <= k < ss0[s].anchors@.len() ==> {
            let a0 = ss0[s].anchors@[k];
            let a1 = #[trigger] ss[s].anchors@[k];
            if a0.present && m.dom().contains(a0.target as int) {
                &&& a1.target == m[a0.target as int]
                &&& a1.present
                &&& a1.roots == a0.roots
                &&& a1.weaks == a0.weaks
                &&& a1.moved
            } else {
                a1 == a0
            }
        }
    // only reachable objects are ever copied
    &&& forall|i: int| #[trigger] m.dom().contains(i) ==> reachable(ds0, ss0, i)
    // the copies are exactly the source store's missing entries
    &&& dlen - d0 == ds0.len() - present_count(src)
}


/// Extending an anchor sequence by one record extends its root targets
/// by that record's target exactly when it is a present rooted anchor.
pub proof fn lemma_roots_push(asq: Seq<Anchor>, a: Anchor)
    ensures
        roots_of_anchors(asq.push(a)) == if a.present && a.roots > 0 {
            roots_of_anchors(asq).push(a.target as int)
        } else {
            roots_of_anchors(asq)
        },
{
    assert(asq.push(a).drop_last() =~= asq);
    assert(asq.push(a).last() == a);
}

/// A member of an anchor sequence's root targets is the target of some
/// present rooted record in it.
pub proof fn lemma_roots_mem(asq: Seq<Anchor>, x: int)
    requires
        roots_of_anchors(asq).contains(x),
    ensures
        exists|k: int|
            0 <= k < asq.len() && (#[trigger] asq[k]).present && asq[k].roots > 0 && asq[k].target
                == x,
    decreases asq.len(),
{
    assert(asq.len() > 0);
    let prev = asq.drop_last();
    lemma_roots_push(prev, asq.last());
    assert(asq =~= prev.push(asq.last()));
    if asq.last().present && asq.last().roots > 0 && asq.last().target == x {
        assert(asq[asq.len() - 1].present && asq[asq.len() - 1].roots > 0 && asq[asq.len()
            - 1].target == x);
    } else {
        assert(roots_of_anchors(prev).contains(x)) by {
            let r = roots_of_anchors(asq);
            let p = choose|p: int| 0 <= p < r.len() && r[p] == x;
            if asq.last().present && asq.last().roots > 0 {
                assert(r == roots_of_anchors(prev).push(asq.last().target as int));
                assert(p < r.len() - 1);
                assert(roots_of_anchors(prev)[p] == x);
            } else {
                assert(r == roots_of_anchors(prev));
            }
        }
        lemma_roots_mem(prev, x);
        let k = choose|k: int|
            0 <= k < prev.len() && (#[trigger] prev[k]).present && prev[k].roots > 0
                && prev[k].target == x;
        assert(asq[k].present && asq[k].roots > 0 && asq[k].target == x);
    }
}

/// A member of the root-order prefix is the target of some present
/// rooted anchor in one of the first `s` spaces.
pub proof fn lemma_root_order_upto_mem(ss: Seq<Space>, s: int, x: int)
    requires
        0 <= s <= ss.len(),
        root_order_upto(ss, s).contains(x),
    ensures
        exists|s2: int, k2: int|
            0 <= s2 < s && 0 <= k2 < ss[s2].anchors@.len() && (
            #[trigger] ss[s2].anchors@[k2]).present && ss[s2].anchors@[k2].roots > 0
                && ss[s2].anchors@[k2].target == x,
    decreases s,
{
    assert(s > 0);
    let prefix = root_order_upto(ss, s - 1);
    let tail = roots_of_anchors(ss[s - 1].anchors@);
    assert(root_order_upto(ss, s) == prefix + tail);
    let r = root_order_upto(ss, s);
    let p = choose|p: int| 0 <= p < r.len() && r[p] == x;
    if p < prefix.len() {
        assert(prefix.contains(prefix[p]));
        lemma_root_order_upto_mem(ss, s - 1, x);
        let (s2, k2) = choose|s2: int, k2: int|
            0 <= s2 < s - 1 && 0 <= k2 < ss[s2].anchors@.len() && (
            #[trigger] ss[s2].anchors@[k2]).present && ss[s2].anchors@[k2].roots > 0
                && ss[s2].anchors@[k2].target == x;
        assert(0 <= s2 < s && ss[s2].anchors@[k2].present && ss[s2].anchors@[k2].roots > 0
            && ss[s2].anchors@[k2].target == x);
    } else {
        assert(tail[p - prefix.len()] == x);
        assert(tail.contains(x));
        lemma_roots_mem(ss[s - 1].anchors@, x);
        let k2 = choose|k2: int|
            0 <= k2 < ss[s - 1].anchors@.len() && (#[trigger] ss[s - 1].anchors@[k2]).present
                && ss[s - 1].anchors@[k2].roots > 0 && ss[s - 1].anchors@[k2].target == x;
        assert(0 <= s - 1 < s && ss[s - 1].anchors@[k2].present);
    }
}

/// A copy order that covers `[d0, dlen)` of an injective copy map
/// enumerates exactly the map's domain.
pub proof fn lemma_order_enumerates_dom(
    d0: int,
    dlen: int,
    m: Map<int, int>,
    order: Seq<int>,
)
    requires
        forall|i: int| #[trigger] m.dom().contains(i) ==> d0 <= m[i] < dlen,
        forall|i1: int, i2: int|
            m.dom().contains(i1) && m.dom().contains(i2) && i1 != i2 ==> m[i1] != m[i2],
        order.len() == dlen - d0,
        forall|q: int|
            0 <= q < order.len() ==> m.dom().contains(#[trigger] order[q]) && m[order[q]] == d0
                + q,
    ensures
        forall|x: int| #[trigger] m.dom().contains(x) ==> order.contains(x) && order[m[x] - d0]
            == x,
        forall|x: int| #[trigger] order.contains(x) ==> m.dom().contains(x),
{
    assert forall|x: int| #[trigger] m.dom().contains(x) implies order.contains(x) && order[m[x]
        - d0] == x by {
        let q = m[x] - d0;
        assert(0 <= q < order.len());
        assert(m[order[q]] == d0 + q);
        assert(order[q] == x);
    }
    assert forall|x: int| #[trigger] order.contains(x) implies m.dom().contains(x) by {
        let q = choose|q: int| 0 <= q < order.len() && order[q] == x;
        assert(m.dom().contains(order[q]));
    }
}

/// The canonical-scan property of one position only looks at earlier
/// positions, so it survives any later appends to the copy order.
pub proof fn lemma_scan_next_stable<T: HasIx<T>>(
    ds0: Seq<Spot<T>>,
    o1: Seq<int>,
    o2: Seq<int>,
    q: int,
)
    requires
        0 <= q < o1.len(),
        o1.len() <= o2.len(),
        forall|p: int| 0 <= p < o1.len() ==> o2[p] == o1[p],
        scan_next(ds0, o1, q),
    ensures
        scan_next(ds0, o2, q),
{
    let (c, j) = choose|c: int, j: int|
        {
            &&& #[trigger] pair_fresh(ds0, o1, q, c, j)
            &&& o1[q] == edge_of(ds0, o1[c], j)
            &&& forall|c2: int, j2: int|
                #[trigger] pair_fresh(ds0, o1, q, c2, j2) ==> c < c2 || (c == c2 && j <= j2)
        };
    assert(o2.take(q) =~= o1.take(q));
    assert(pair_fresh(ds0, o2, q, c, j));
    assert(o2[q] == edge_of(ds0, o2[c], j));
    assert forall|c2: int, j2: int| #[trigger] pair_fresh(ds0, o2, q, c2, j2) implies c < c2 || (c
        == c2 && j <= j2) by {
        assert(pair_fresh(ds0, o1, q, c2, j2));
    }
}

/// Forward the object at source offset `i`: copy it to the end of the
/// destination once, leave a broken heart behind, and keep its anchor
/// current. A second visit only reads the broken heart.
fn forward<T: HasIx<T>>(
    src: &mut Vec<Spot<T>>,
    spaces: &mut Vec<Space>,
    dst: &mut Vec<Spot<T>>,
    i: usize,
    Ghost(ds0): Ghost<Seq<Spot<T>>>,
    Ghost(ss0): Ghost<Seq<Space>>,
    Ghost(d0): Ghost<int>,
    Ghost(m): Ghost<Map<int, int>>,
    Ghost(order): Ghost<Seq<int>>,
) -> (out: (usize, Ghost<Map<int, int>>, Ghost<Seq<int>>))
    requires
        graph_ok(ds0, ss0),
        fwd_ok(ds0, ss0, d0, old(src)@, old(spaces)@, old(dst)@.len() as int, m, order),
        0 <= d0 <= old(dst)@.len(),
        d0 + ds0.len() <= usize::MAX,
        (i as int) < ds0.len(),
        reachable(ds0, ss0, i as int),
    ensures
        fwd_ok(ds0, ss0, d0, final(src)@, final(spaces)@, final(dst)@.len() as int, out.1@, out.2@),
        m.dom().subset_of(out.1@.dom()),
        forall|x: int| m.dom().contains(x) ==> out.1@[x] == m[x],
        out.1@.dom().contains(i as int),
        out.0 == out.1@[i as int],
        m.dom().contains(i as int) ==> out.1@ == m && out.2@ == order && final(src)@ == old(src)@
            && final(spaces)@ == old(spaces)@ && final(dst)@ == old(dst)@,
        !m.dom().contains(i as int) ==> {
            &&& out.1@ == m.insert(i as int, old(dst)@.len() as int)
            &&& out.2@ == order.push(i as int)
            &&& final(dst)@ == old(dst)@.push(ds0[i as int])
            &&& out.0 == old(dst)@.len()
        },
{
    let already: Option<usize> = match &src[i] {
        Spot::BrokenHeart(j) => Some(*j),
        Spot::Present(_) => None,
    };
    match already {
        Some(j) => {
            proof {
                assert(m.dom().contains(i as int));
                vstd::std_specs::vec::axiom_spec_len(&*dst);
                assert(0 <= m[i as int] <= usize::MAX);
                assert(j as int == m[i as int]);
            }
            (j, Ghost(m), Ghost(order))
        },
        None => {
            proof {
                assert(!m.dom().contains(i as int));
                assert(old(src)@[i as int] == ds0[i as int]);
                lemma_present_count_update(
                    old(src)@,
                    i as int,
                    Spot::BrokenHeart(0usize),
                );
                lemma_present_count_bounds(old(src)@.update(i as int, Spot::BrokenHeart(0usize)));
                assert(present_count(old(src)@) >= 1);
                assert(old(dst)@.len() < usize::MAX);
            }
            let new_ix = dst.len();
            let mut spot: Spot<T> = Spot::BrokenHeart(new_ix);
            src.set_and_swap(i, &mut spot);
            let ghost m2 = m.insert(i as int, new_ix as int);
            let ghost order2 = order.push(i as int);
            proof {
                lemma_present_count_update(
                    old(src)@,
                    i as int,
                    Spot::BrokenHeart(new_ix),
                );
            }
            let aid = match spot.get() {
                Some(e) => e.anchor,
                None => unreached(),
            };
            match aid {
                None => {
                    proof {
                        // no present anchor targets this entry
                        assert forall|s: int, k: int|
                            0 <= s < ss0.len() && 0 <= k < ss0[s].anchors@.len() implies {
                            let a0 = ss0[s].anchors@[k];
                            let a1 = #[trigger] spaces@[s].anchors@[k];
                            if a0.present && m2.dom().contains(a0.target as int) {
                                &&& a1.target == m2[a0.target as int]
                                &&& a1.present
                                &&& a1.roots == a0.roots
                                &&& a1.weaks == a0.weaks
                                &&& a1.moved
                            } else {
                                a1 == a0
                            }
                        } by {
                            let a0 = ss0[s].anchors@[k];
                            if a0.present && a0.target == i {
                                assert(entry_at(ds0, i as int).anchor == Some(
                                    AnchorId { nonce: ss0[s].nonce, slot: k as usize },
                                ));
                            }
                        }
                    }
                },
                Some(id) => {
                    proof {
                        assert(entry_at(ds0, i as int).anchor == Some(id));
                        assert(has_anchor(ss0, id) && anchor_of(ss0, id).present && anchor_of(
                            ss0,
                            id,
                        ).target == i);
                        let s0 = space_at(ss0, id.nonce);
                        lemma_anchor_lookup(ss0, id, s0);
                        assert(spaces@[s0].nonce == id.nonce);
                        assert(has_space(spaces@, id.nonce));
                    }
                    let s = match find_space_in(spaces, id.nonce) {
                        Some(s) => s,
                        None => unreached(),
                    };
                    proof {
                        let s0 = space_at(ss0, id.nonce);
                        if s0 != s {
                            assert(ss0[s0].nonce == ss0[s as int].nonce);
                        }
                        assert(s == s0);
                        // the anchor currently holds its original record
                        assert(ss0[s as int].anchors@[id.slot as int].target == i);
                        assert(spaces@[s as int].anchors@[id.slot as int] == ss0[s as int].anchors@[id.slot as int]);
                    }
                    let k = id.slot;
                    let mut a = spaces[s].anchors[k];
                    a.target = new_ix;
                    a.moved = true;
                    spaces[s].anchors.set(k, a);
                    proof {
                        let ghost ssm = spaces@;
                        assert forall|s2: int, k2: int|
                            0 <= s2 < ss0.len() && 0 <= k2 < ss0[s2].anchors@.len() implies {
                            let a0 = ss0[s2].anchors@[k2];
                            let a1 = #[trigger] ssm[s2].anchors@[k2];
                            if a0.present && m2.dom().contains(a0.target as int) {
                                &&& a1.target == m2[a0.target as int]
                                &&& a1.present
                                &&& a1.roots == a0.roots
                                &&& a1.weaks == a0.weaks
                                &&& a1.moved
                            } else {
                                a1 == a0
                            }
                        } by {
                            let a0 = ss0[s2].anchors@[k2];
                            if s2 == s && k2 == k {
                                assert(a0 == old(spaces)@[s2].anchors@[k2]);
                                assert(a0.present && a0.target == i);
                                assert(m2[i as int] == new_ix as int);
                                assert(ssm[s2].anchors@[k2] == a);
                            } else {
                                assert(ssm[s2].anchors@[k2] == old(spaces)@[s2].anchors@[k2]);
                                if a0.present && m.dom().contains(a0.target as int) {
                                    assert(m2[a0.target as int] == m[a0.target as int]);
                                }
                                if a0.present && a0.target == i {
                                    // a second present anchor cannot target the
                                    // same entry
                                    crate::region::lemma_anchors_len_bound(ss0[s2]);
                                    assert(k2 as usize as int == k2);
                                    assert(entry_at(ds0, i as int).anchor == Some(
                                        AnchorId { nonce: ss0[s2].nonce, slot: k2 as usize },
                                    ));
                                    assert(id.nonce == ss0[s2].nonce);
                                    assert(id.slot == k2 as usize);
                                    lemma_space_at(ss0, id.nonce, s2);
                                    assert(s2 == space_at(ss0, id.nonce));
                                    assert(s2 == s && k2 == k as int);
                                    assert(false);
                                }
                            }
                        }
                    }
                },
            }
            dst.push(spot);
            proof {
                assert(dst@ == old(dst)@.push(ds0[i as int]));
                assert forall|q: int| 0 <= q < order2.len() implies m2.dom().contains(
                    #[trigger] order2[q],
                ) && m2[order2[q]] == d0 + q by {
                    if q < order.len() {
                        assert(order2[q] == order[q]);
                    }
                }
                assert(fwd_ok(ds0, ss0, d0, src@, spaces@, dst@.len() as int, m2, order2));
            }
            (new_ix, Ghost(m2), Ghost(order2))
        },
    }
}

} // verus!

verus! {

/// `all_present` stores have as many live entries as spots.
pub proof fn lemma_present_count_full<T>(ds: Seq<Spot<T>>)
    requires
        all_present(ds),
    ensures
        present_count(ds) == ds.len(),
    decreases ds.len(),
{
    if ds.len() > 0 {
        assert(all_present(ds.drop_last())) by {
            assert forall|i: int| 0 <= i < ds.len() - 1 implies ds.drop_last()[i] is Present by {
                assert(ds[i] is Present);
            }
        }
        lemma_present_count_full(ds.drop_last());
        assert(ds.last() is Present);
    }
}

/// The copy at `e1` preserves the entry `e0` up to forwarding: same anchor
/// link, same payload, and every edge sent through the copy map.
pub open spec fn rewritten<T: HasIx<T>>(m: Map<int, int>, e0: Entry<T>, e1: Entry<T>) -> bool {
    &&& e1.anchor == e0.anchor
    &&& e1.t.payload() == e0.t.payload()
    &&& e1.t.edges().len() == e0.t.edges().len()
    &&& forall|k: int|
        0 <= k < e0.t.edges().len() ==> m.dom().contains(#[trigger] e0.t.edges()[k])
            && e1.t.edges()[k] == m[e0.t.edges()[k]]
}

/// The targets of the present anchors with root observers, in slot order.
pub open spec fn roots_of_anchors(asq: Seq<Anchor>) -> Seq<int>
    decreases asq.len(),
{
    if asq.len() == 0 {
        Seq::empty()
    } else {
        let prev = roots_of_anchors(asq.drop_last());
        if asq.last().present && asq.last().roots > 0 {
            prev.push(asq.last().target as int)
        } else {
            prev
        }
    }
}

/// The root set in enumeration order: spaces first to last, slots first
/// to last within each space.
pub open spec fn root_order_upto(ss: Seq<Space>, s: int) -> Seq<int>
    decreases s,
{
    if s <= 0 {
        Seq::empty()
    } else {
        root_order_upto(ss, s - 1) + roots_of_anchors(ss[s - 1].anchors@)
    }
}

/// The full root set in enumeration order.
pub open spec fn root_order(ss: Seq<Space>) -> Seq<int> {
    root_order_upto(ss, ss.len() as int)
}

/// The `j`-th edge of the entry at offset `x`.
pub open spec fn edge_of<T: HasIx<T>>(ds: Seq<Spot<T>>, x: int, j: int) -> int {
    entry_at(ds, x).t.edges()[j]
}

/// In copy order `order`, the copy at position `c` owns a `j`-th edge
/// whose target has not been copied among the first `q` copies.
pub open spec fn pair_fresh<T: HasIx<T>>(
    ds0: Seq<Spot<T>>,
    order: Seq<int>,
    q: int,
    c: int,
    j: int,
) -> bool {
    &&& 0 <= c < q
    &&& 0 <= j < entry_at(ds0, order[c]).t.edges().len()
    &&& !order.take(q).contains(edge_of(ds0, order[c], j))
}

/// Position `q` of the copy order holds the target of the first fresh
/// edge, scanning the copies in order and each copy's edges in order:
/// the linear-scan discipline of a Cheney copy.
pub open spec fn scan_next<T: HasIx<T>>(ds0: Seq<Spot<T>>, order: Seq<int>, q: int) -> bool {
    exists|c: int, j: int|
        {
            &&& #[trigger] pair_fresh(ds0, order, q, c, j)
            &&& order[q] == edge_of(ds0, order[c], j)
            &&& forall|c2: int, j2: int|
                #[trigger] pair_fresh(ds0, order, q, c2, j2) ==> c < c2 || (c == c2 && j <= j2)
        }
}

/// The outcome of one collection of the graph `ds0`/`ss0` into a
/// destination whose length was `d0` at the start: `m` is the copy map,
/// `order` the copied source offsets in destination order.
pub open spec fn collected<T: HasIx<T>>(
    ds0: Seq<Spot<T>>,
    ss0: Seq<Space>,
    d0: int,
    dst: Seq<Spot<T>>,
    ss: Seq<Space>,
    m: Map<int, int>,
    order: Seq<int>,
) -> bool {
    // exactly the reachable objects were copied
    &&& forall|i: int| #[trigger] m.dom().contains(i) <==> reachable(ds0, ss0, i)
    &&& forall|i: int|
        #[trigger] m.dom().contains(i) ==> 0 <= i < ds0.len() && ds0[i] is Present && d0 <= m[i]
            < dst.len()
    &&& forall|i1: int, i2: int|
        m.dom().contains(i1) && m.dom().contains(i2) && i1 != i2 ==> m[i1] != m[i2]
    &&& d0 <= dst.len() <= d0 + ds0.len()
    // the new segment consists of the copies, in copy order
    &&& order.len() == dst.len() - d0
    &&& forall|q: int|
        0 <= q < order.len() ==> m.dom().contains(#[trigger] order[q]) && m[order[q]] == d0 + q
    // each copy preserves its original up to forwarding
    &&& forall|i: int|
        #[trigger] m.dom().contains(i) ==> dst[m[i]] is Present && rewritten(
            m,
            entry_at(ds0, i),
            entry_at(dst, m[i]),
        )
    // anchors of copied objects follow them; all others are expired
    &&& ss.len() == ss0.len()
    &&& forall|s: int|
        0 <= s < ss0.len() ==> (#[trigger] ss[s]).nonce == ss0[s].nonce && ss[s].anchors@.len()
            == ss0[s].anchors@.len()
    &&& forall|s: int, k: int|
        0 <= s < ss0.len() && 0 <= k < ss0[s].anchors@.len() ==> {
            let a0 = ss0[s].anchors@[k];
            let a1 = #[trigger] ss[s].anchors@[k];
            &&& a1.roots == a0.roots
            &&& a1.weaks == a0.weaks
            &&& !a1.moved
            &&& if a0.present && m.dom().contains(a0.target as int) {
                a1.present && a1.target == m[a0.target as int]
            } else {
                !a1.present && a1.target == a0.target
            }
        }
    // the copy order is canonical: first the root set in anchor
    // enumeration order, then each position takes the first edge of the
    // copies, in scan order, whose target is not yet copied
    &&& root_order(ss0).len() <= order.len()
    &&& order.take(root_order(ss0).len() as int) == root_order(ss0)
    &&& forall|q: int|
        root_order(ss0).len() <= q < order.len() ==> #[trigger] scan_next(ds0, order, q)
    &&& forall|c: int, j: int| !pair_fresh(ds0, order, order.len() as int, c, j)
}

/// Overwrite the `k`-th edge of the live entry at `at`.
fn set_edge_at<T: HasIx<T>>(dst: &mut Vec<Spot<T>>, at: usize, k: usize, v: Ix<T>)
    requires
        at < old(dst)@.len(),
        old(dst)@[at as int] is Present,
        k < entry_at(old(dst)@, at as int).t.edges().len(),
    ensures
        final(dst)@.len() == old(dst)@.len(),
        forall|x: int| 0 <= x < old(dst)@.len() && x != at ==> final(dst)@[x] == old(dst)@[x],
        final(dst)@[at as int] is Present,
        entry_at(final(dst)@, at as int).anchor == entry_at(old(dst)@, at as int).anchor,
        entry_at(final(dst)@, at as int).t.payload() == entry_at(old(dst)@, at as int).t.payload(),
        entry_at(final(dst)@, at as int).t.edges() == entry_at(old(dst)@, at as int).t.edges()
            .update(k as int, v@),
{
    dst[at].entry_mut().get_mut().set_edge(k, v);
}

} // verus!

verus! {

/// Copy every object reachable from the root set of `spaces` out of `src`
/// and onto the end of `dst`, rewriting all copied edges and keeping every
/// anchor current; then expire the anchors whose objects were left behind.
///
/// Returns the copy map and the copy order. What remains in `src` is dead
/// weight for the caller to discard.
pub(crate) fn collect_into<T: HasIx<T>>(
    src: &mut Vec<Spot<T>>,
    spaces: &mut Vec<Space>,
    dst: &mut Vec<Spot<T>>,
) -> (g: (Ghost<Map<int, int>>, Ghost<Seq<int>>))
    requires
        graph_ok(old(src)@, old(spaces)@),
        old(dst)@.len() + old(src)@.len() <= usize::MAX,
    ensures
        collected(
            old(src)@,
            old(spaces)@,
            old(dst)@.len() as int,
            final(dst)@,
            final(spaces)@,
            g.0@,
            g.1@,
        ),
        forall|j: int| 0 <= j < old(dst)@.len() ==> final(dst)@[j] == old(dst)@[j],
        final(src)@.len() == old(src)@.len(),
{
    let ghost ds0 = old(src)@;
    let ghost ss0 = old(spaces)@;
    let ghost dpre = old(dst)@;
    let d0 = dst.len();
    let ghost mut m = Map::<int, int>::empty();
    let ghost mut order = Seq::<int>::empty();
    proof {
        lemma_present_count_full(ds0);
        assert(fwd_ok(ds0, ss0, d0 as int, src@, spaces@, dst@.len() as int, m, order));
    }

    // Phase one: forward every object the root set keeps live.
    let mut s: usize = 0;
    while s < spaces.len()
        invariant
            graph_ok(ds0, ss0),
            fwd_ok(ds0, ss0, d0 as int, src@, spaces@, dst@.len() as int, m, order),
            s <= spaces@.len(),
            d0 + ds0.len() <= usize::MAX,
            forall|x: int| #[trigger] m.dom().contains(x) ==> dst@[m[x]] == ds0[x],
            forall|j: int| 0 <= j < d0 ==> dst@[j] == dpre[j],
            forall|s2: int, k2: int|
                0 <= s2 < s && 0 <= k2 < ss0[s2].anchors@.len() && (
                #[trigger] ss0[s2].anchors@[k2]).present && ss0[s2].anchors@[k2].roots > 0
                    ==> m.dom().contains(ss0[s2].anchors@[k2].target as int),
            order == root_order_upto(ss0, s as int),
        decreases spaces@.len() - s,
    {
        let mut k: usize = 0;
        while k < spaces[s].anchors.len()
            invariant
                graph_ok(ds0, ss0),
                fwd_ok(ds0, ss0, d0 as int, src@, spaces@, dst@.len() as int, m, order),
                s < spaces@.len(),
                k <= ss0[s as int].anchors@.len(),
                d0 + ds0.len() <= usize::MAX,
                forall|x: int| #[trigger] m.dom().contains(x) ==> dst@[m[x]] == ds0[x],
                forall|j: int| 0 <= j < d0 ==> dst@[j] == dpre[j],
                forall|s2: int, k2: int|
                    0 <= s2 < s && 0 <= k2 < ss0[s2].anchors@.len() && (
                    #[trigger] ss0[s2].anchors@[k2]).present && ss0[s2].anchors@[k2].roots > 0
                        ==> m.dom().contains(ss0[s2].anchors@[k2].target as int),
                forall|k2: int|
                    0 <= k2 < k && (#[trigger] ss0[s as int].anchors@[k2]).present && ss0[s as int].anchors@[k2].roots
                        > 0 ==> m.dom().contains(ss0[s as int].anchors@[k2].target as int),
                order == root_order_upto(ss0, s as int) + roots_of_anchors(
                    ss0[s as int].anchors@.take(k as int),
                ),
            decreases ss0[s as int].anchors@.len() - k,
        {
            let a = spaces[s].anchors[k];
            let ghost a0 = ss0[s as int].anchors@[k as int];
            if a.present && a.roots > 0 && !a.moved {
                proof {
                    // an unmoved anchor still carries its original record
                    assert(a == a0);
                    assert(rooted(ss0, a0.target as int));
                    assert(ss0[s as int].anchors@[k as int].present);
                    assert(live_at(ds0, a0.target as int));
                    lemma_rooted_reachable(ds0, ss0, a0.target as int);
                    lemma_present_count_bounds(src@);
                }
                let out = forward(
                    src,
                    spaces,
                    dst,
                    a.target,
                    Ghost(ds0),
                    Ghost(ss0),
                    Ghost(d0 as int),
                    Ghost(m),
                    Ghost(order),
                );
                proof {
                    m = out.1@;
                    order = out.2@;
                }
            } else {
                proof {
                    if a0.present && a0.roots > 0 {
                        // an unchanged anchor would have been a live unmoved
                        // root, so it must have been moved already; but only
                        // this very anchor can move this entry, and it has
                        // not been visited yet
                        if !(a0.present && m.dom().contains(a0.target as int)) {
                            assert(a == a0);
                            assert(!a0.moved);
                            assert(false);
                        }
                        let x = a0.target as int;
                        lemma_order_enumerates_dom(
                            d0 as int,
                            dst@.len() as int,
                            m,
                            order,
                        );
                        assert(order.contains(x));
                        let upto = root_order_upto(ss0, s as int);
                        let part = roots_of_anchors(ss0[s as int].anchors@.take(k as int));
                        let p = choose|p: int| 0 <= p < order.len() && order[p] == x;
                        assert(live_at(ds0, x));
                        assert(entry_at(ds0, x).anchor == Some(
                            AnchorId { nonce: ss0[s as int].nonce, slot: k as usize },
                        )) by {
                            crate::region::lemma_anchors_len_bound(ss0[s as int]);
                            assert(ss0[s as int].anchors@[k as int].present);
                        }
                        if p < upto.len() {
                            assert(upto.contains(upto[p]));
                            lemma_root_order_upto_mem(ss0, s as int, x);
                            let (s2, k2) = choose|s2: int, k2: int|
                                0 <= s2 < s && 0 <= k2 < ss0[s2].anchors@.len() && (
                                #[trigger] ss0[s2].anchors@[k2]).present && ss0[s2].anchors@[k2].roots
                                    > 0 && ss0[s2].anchors@[k2].target == x;
                            assert(entry_at(ds0, x).anchor == Some(
                                AnchorId { nonce: ss0[s2].nonce, slot: k2 as usize },
                            )) by {
                                crate::region::lemma_anchors_len_bound(ss0[s2]);
                            }
                            lemma_space_at(ss0, ss0[s2].nonce, s2);
                            lemma_space_at(ss0, ss0[s as int].nonce, s as int);
                            assert(false);
                        } else {
                            assert(part[p - upto.len()] == x);
                            assert(part.contains(x));
                            lemma_roots_mem(ss0[s as int].anchors@.take(k as int), x);
                            let k2 = choose|k2: int|
                                0 <= k2 < ss0[s as int].anchors@.take(k as int).len() && (
                                #[trigger] ss0[s as int].anchors@.take(k as int)[k2]).present
                                    && ss0[s as int].anchors@.take(k as int)[k2].roots > 0 && ss0[s as int].anchors@.take(
                                    k as int,
                                )[k2].target == x;
                            assert(ss0[s as int].anchors@[k2].present && ss0[s as int].anchors@[k2].target
                                == x);
                            assert(entry_at(ds0, x).anchor == Some(
                                AnchorId { nonce: ss0[s as int].nonce, slot: k2 as usize },
                            )) by {
                                crate::region::lemma_anchors_len_bound(ss0[s as int]);
                            }
                            assert(false);
                        }
                    }
                }
            }
            proof {
                // the processed prefix of this space's root targets grew by
                // exactly what this step appended
                let asq = ss0[s as int].anchors@;
                assert(asq.take(k + 1) =~= asq.take(k as int).push(a0));
                lemma_roots_push(asq.take(k as int), a0);
            }
            k = k + 1;
        }
        proof {
            let asq = ss0[s as int].anchors@;
            assert(asq.take(asq.len() as int) =~= asq);
        }
        s = s + 1;
    }

    // Phase two: scan the copies in order; forward what they point at and
    // rewrite their edges in place.
    proof {
        assert(order == root_order(ss0));
        assert(order.take(order.len() as int) =~= order);
    }
    let mut cursor: usize = d0;
    while cursor < dst.len()
        invariant
            graph_ok(ds0, ss0),
            fwd_ok(ds0, ss0, d0 as int, src@, spaces@, dst@.len() as int, m, order),
            d0 <= cursor <= dst@.len(),
            d0 + ds0.len() <= usize::MAX,
            forall|x: int|
                #[trigger] m.dom().contains(x) && m[x] >= cursor ==> dst@[m[x]] == ds0[x],
            forall|x: int|
                #[trigger] m.dom().contains(x) && m[x] < cursor ==> dst@[m[x]] is Present
                    && rewritten(m, entry_at(ds0, x), entry_at(dst@, m[x])),
            forall|j: int| 0 <= j < d0 ==> dst@[j] == dpre[j],
            forall|s2: int, k2: int|
                0 <= s2 < ss0.len() && 0 <= k2 < ss0[s2].anchors@.len() && (
                #[trigger] ss0[s2].anchors@[k2]).present && ss0[s2].anchors@[k2].roots > 0
                    ==> m.dom().contains(ss0[s2].anchors@[k2].target as int),
            root_order(ss0).len() <= order.len(),
            order.take(root_order(ss0).len() as int) == root_order(ss0),
            forall|q: int|
                root_order(ss0).len() <= q < order.len() ==> #[trigger] scan_next(ds0, order, q),
        decreases present_count(src@) + dst@.len() - cursor,
    {
        let ghost ic = order[cursor - d0];
        proof {
            assert(m.dom().contains(ic) && m[ic] == cursor);
            assert(dst@[cursor as int] == ds0[ic]);
        }
        let ghost orig = entry_at(ds0, ic);
        let n_edges = match dst[cursor].get() {
            Some(e) => e.get().edge_count(),
            None => unreached(),
        };
        let mut kk: usize = 0;
        while kk < n_edges
            invariant
                graph_ok(ds0, ss0),
                fwd_ok(ds0, ss0, d0 as int, src@, spaces@, dst@.len() as int, m, order),
                d0 <= cursor < dst@.len(),
                d0 + ds0.len() <= usize::MAX,
                kk <= n_edges,
                m.dom().contains(ic),
                m[ic] == cursor,
                orig == entry_at(ds0, ic),
                n_edges == orig.t.edges().len(),
                dst@[cursor as int] is Present,
                entry_at(dst@, cursor as int).anchor == orig.anchor,
                entry_at(dst@, cursor as int).t.payload() == orig.t.payload(),
                entry_at(dst@, cursor as int).t.edges().len() == orig.t.edges().len(),
                forall|q: int|
                    0 <= q < kk ==> m.dom().contains(#[trigger] orig.t.edges()[q]) && entry_at(
                        dst@,
                        cursor as int,
                    ).t.edges()[q] == m[orig.t.edges()[q]],
                forall|q: int|
                    kk <= q < n_edges ==> entry_at(dst@, cursor as int).t.edges()[q]
                        == #[trigger] orig.t.edges()[q],
                forall|x: int|
                    #[trigger] m.dom().contains(x) && m[x] > cursor ==> dst@[m[x]] == ds0[x],
                forall|x: int|
                    #[trigger] m.dom().contains(x) && m[x] < cursor ==> dst@[m[x]] is Present
                        && rewritten(m, entry_at(ds0, x), entry_at(dst@, m[x])),
                forall|j: int| 0 <= j < d0 ==> dst@[j] == dpre[j],
                forall|s2: int, k2: int|
                    0 <= s2 < ss0.len() && 0 <= k2 < ss0[s2].anchors@.len() && (
                    #[trigger] ss0[s2].anchors@[k2]).present && ss0[s2].anchors@[k2].roots > 0
                        ==> m.dom().contains(ss0[s2].anchors@[k2].target as int),
                root_order(ss0).len() <= order.len(),
                order.take(root_order(ss0).len() as int) == root_order(ss0),
                forall|q: int|
                    root_order(ss0).len() <= q < order.len() ==> #[trigger] scan_next(
                        ds0,
                        order,
                        q,
                    ),
            decreases n_edges - kk,
        {
            let e = match dst[cursor].get() {
                Some(en) => en.get().edge(kk),
                None => unreached(),
            };
            let ei = e.identifier();
            proof {
                assert(e@ == orig.t.edges()[kk as int]);
                assert(edges_ok_at(ds0, ic));
                assert(0 <= orig.t.edges()[kk as int] < ds0.len());
                assert(reachable(ds0, ss0, ic));
                assert(orig.t.edges().contains(orig.t.edges()[kk as int]));
                assert(points_to(ds0, ic, ei as int));
                assert(live_at(ds0, ei as int));
                lemma_reach_step(ds0, ss0, ic, ei as int);
                lemma_present_count_bounds(src@);
            }
            let ghost m_before = m;
            let ghost order_before = order;
            let out = forward(
                src,
                spaces,
                dst,
                ei,
                Ghost(ds0),
                Ghost(ss0),
                Ghost(d0 as int),
                Ghost(m),
                Ghost(order),
            );
            let j = out.0;
            proof {
                m = out.1@;
                order = out.2@;
            }
            proof {
                // the copy order stays canonical: any append is the first
                // fresh edge in scan order
                let rr = root_order(ss0).len() as int;
                if !m_before.dom().contains(ei as int) {
                    let q0 = order.len() as int - 1;
                    let cstar = cursor as int - d0;
                    let ev = orig.t.edges()[kk as int];
                    lemma_order_enumerates_dom(
                        d0 as int,
                        d0 + order_before.len() as int,
                        m_before,
                        order_before,
                    );
                    assert(order == order_before.push(ei as int));
                    assert(order.take(q0) =~= order_before);
                    assert(order[cstar] == ic) by {
                        assert(order_before[m_before[ic] - d0] == ic);
                    }
                    assert(ev == ei as int);
                    assert(!order.take(q0).contains(ev)) by {
                        if order_before.contains(ev) {
                            assert(m_before.dom().contains(ev));
                        }
                    }
                    assert(pair_fresh(ds0, order, q0, cstar, kk as int)) by {
                        assert(entry_at(ds0, order[cstar]).t.edges().len() == n_edges);
                    }
                    assert(order[q0] == edge_of(ds0, order[cstar], kk as int));
                    assert forall|c2: int, j2: int|
                        #[trigger] pair_fresh(ds0, order, q0, c2, j2) implies cstar < c2 || (cstar
                        == c2 && kk as int <= j2) by {
                        if c2 < cstar || (c2 == cstar && j2 < kk as int) {
                            let x2 = order[c2];
                            assert(x2 == order_before[c2]);
                            assert(m_before.dom().contains(x2) && m_before[x2] == d0 + c2);
                            let e2 = edge_of(ds0, x2, j2);
                            if c2 < cstar {
                                // that copy was scanned already, so all its
                                // edges were forwarded
                                assert(m_before[x2] < cursor as int);
                                assert(0 <= j2 < entry_at(ds0, x2).t.edges().len());
                                assert(entry_at(ds0, x2).t.edges()[j2] == e2);
                                assert(m_before.dom().contains(e2));
                            } else {
                                assert(x2 == ic);
                                assert(e2 == orig.t.edges()[j2]);
                                assert(m_before.dom().contains(e2));
                            }
                            assert(order_before.contains(e2));
                            assert(order.take(q0).contains(e2));
                            assert(false);
                        }
                    }
                    assert(scan_next(ds0, order, q0));
                }
                assert(order.take(rr) == root_order(ss0)) by {
                    assert(order.take(rr) =~= order_before.take(rr));
                }
                assert forall|q: int| rr <= q < order.len() implies #[trigger] scan_next(
                    ds0,
                    order,
                    q,
                ) by {
                    if q < order_before.len() {
                        lemma_scan_next_stable(ds0, order_before, order, q);
                    }
                }
            }
            set_edge_at(dst, cursor, kk, Ix::new(j));
            proof {
                assert forall|q: int| 0 <= q < kk + 1 implies m.dom().contains(
                    #[trigger] orig.t.edges()[q],
                ) && entry_at(dst@, cursor as int).t.edges()[q] == m[orig.t.edges()[q]] by {
                    if q < kk {
                        assert(m_before.dom().contains(orig.t.edges()[q]));
                        assert(m[orig.t.edges()[q]] == m_before[orig.t.edges()[q]]);
                    }
                }
            }
            kk = kk + 1;
        }
        proof {
            assert(rewritten(m, entry_at(ds0, ic), entry_at(dst@, cursor as int)));
        }
        cursor = cursor + 1;
        proof {
            lemma_present_count_bounds(src@);
            assert forall|x: int|
                #[trigger] m.dom().contains(x) && m[x] < cursor implies dst@[m[x]] is Present
                && rewritten(m, entry_at(ds0, x), entry_at(dst@, m[x])) by {
                if m[x] == cursor - 1 {
                    assert(x == ic) by {
                        if x != ic {
                            assert(m[ic] == cursor - 1);
                        }
                    }
                }
            }
        }
    }

    // Phase three: expire the anchors of what was not copied, and clear
    // the collector's marks.
    let ghost ssp = spaces@;
    let mut s: usize = 0;
    while s < spaces.len()
        invariant
            ss0.len() == ssp.len(),
            spaces@.len() == ssp.len(),
            s <= ssp.len(),
            forall|s2: int|
                0 <= s2 < ssp.len() ==> (#[trigger] spaces@[s2]).nonce == ssp[s2].nonce
                    && spaces@[s2].anchors@.len() == ssp[s2].anchors@.len(),
            forall|s2: int, k2: int|
                s <= s2 < ssp.len() && 0 <= k2 < ssp[s2].anchors@.len()
                    ==> #[trigger] spaces@[s2].anchors@[k2] == ssp[s2].anchors@[k2],
            forall|s2: int, k2: int|
                0 <= s2 < s && 0 <= k2 < ssp[s2].anchors@.len() ==> {
                    let ap = ssp[s2].anchors@[k2];
                    let a1 = #[trigger] spaces@[s2].anchors@[k2];
                    &&& a1.roots == ap.roots
                    &&& a1.weaks == ap.weaks
                    &&& a1.target == ap.target
                    &&& !a1.moved
                    &&& a1.present == (ap.present && ap.moved)
                },
        decreases ssp.len() - s,
    {
        let mut k: usize = 0;
        while k < spaces[s].anchors.len()
            invariant
                ss0.len() == ssp.len(),
                spaces@.len() == ssp.len(),
                s < ssp.len(),
                k <= ssp[s as int].anchors@.len(),
                forall|s2: int|
                    0 <= s2 < ssp.len() ==> (#[trigger] spaces@[s2]).nonce == ssp[s2].nonce
                        && spaces@[s2].anchors@.len() == ssp[s2].anchors@.len(),
                forall|s2: int, k2: int|
                    s < s2 < ssp.len() && 0 <= k2 < ssp[s2].anchors@.len()
                        ==> #[trigger] spaces@[s2].anchors@[k2] == ssp[s2].anchors@[k2],
                forall|k2: int|
                    k <= k2 < ssp[s as int].anchors@.len()
                        ==> #[trigger] spaces@[s as int].anchors@[k2] == ssp[s as int].anchors@[k2],
                forall|s2: int, k2: int|
                    0 <= s2 < s && 0 <= k2 < ssp[s2].anchors@.len() ==> {
                        let ap = ssp[s2].anchors@[k2];
                        let a1 = #[trigger] spaces@[s2].anchors@[k2];
                        &&& a1.roots == ap.roots
                        &&& a1.weaks == ap.weaks
                        &&& a1.target == ap.target
                        &&& !a1.moved
                        &&& a1.present == (ap.present && ap.moved)
                    },
                forall|k2: int|
                    0 <= k2 < k ==> {
                        let ap = ssp[s as int].anchors@[k2];
                        let a1 = #[trigger] spaces@[s as int].anchors@[k2];
                        &&& a1.roots == ap.roots
                        &&& a1.weaks == ap.weaks
                        &&& a1.target == ap.target
                        &&& !a1.moved
                        &&& a1.present == (ap.present && ap.moved)
                    },
            decreases ssp[s as int].anchors@.len() - k,
        {
            let mut a = spaces[s].anchors[k];
            if a.moved {
                a.moved = false;
                spaces[s].anchors.set(k, a);
            } else if a.present {
                a.present = false;
                spaces[s].anchors.set(k, a);
            }
            k = k + 1;
        }
        s = s + 1;
    }

    // The copy map is exactly the reachable set.
    proof {
        lemma_order_enumerates_dom(d0 as int, dst@.len() as int, m, order);
        assert(order.take(order.len() as int) =~= order);
        assert forall|c: int, j: int| !pair_fresh(ds0, order, order.len() as int, c, j) by {
            if pair_fresh(ds0, order, order.len() as int, c, j) {
                let x2 = order[c];
                assert(m.dom().contains(x2) && m[x2] == d0 + c);
                assert(m[x2] < cursor as int);
                assert(0 <= j < entry_at(ds0, x2).t.edges().len());
                assert(entry_at(ds0, x2).t.edges()[j] == edge_of(ds0, x2, j));
                assert(m.dom().contains(edge_of(ds0, x2, j)));
                assert(order.contains(edge_of(ds0, x2, j)));
                assert(false);
            }
        }
        assert forall|i: int| #[trigger] m.dom().contains(i) <==> reachable(ds0, ss0, i) by {
            if !m.dom().contains(i) && reachable(ds0, ss0, i) {
                lemma_reach_closed(ds0, ss0, m.dom());
            }
        }
        lemma_present_count_bounds(src@);
        assert(collected(ds0, ss0, d0 as int, dst@, spaces@, m, order)) by {
            assert forall|s2: int, k2: int|
                0 <= s2 < ss0.len() && 0 <= k2 < ss0[s2].anchors@.len() implies {
                let a0 = ss0[s2].anchors@[k2];
                let a1 = #[trigger] spaces@[s2].anchors@[k2];
                &&& a1.roots == a0.roots
                &&& a1.weaks == a0.weaks
                &&& !a1.moved
                &&& if a0.present && m.dom().contains(a0.target as int) {
                    a1.present && a1.target == m[a0.target as int]
                } else {
                    !a1.present && a1.target == a0.target
                }
            } by {
                let a0 = ss0[s2].anchors@[k2];
                let ap = ssp[s2].anchors@[k2];
                assert(ap.roots == a0.roots && ap.weaks == a0.weaks);
            }
        }
    }
    (Ghost(m), Ghost(order))
}

} // verus!

verus! {

/// Appending the collection's outcome to a well-formed prefix store and
/// prefix spaces yields a well-formed whole, provided no nonce is shared
/// between the two sides.
pub proof fn lemma_merged_wf<T: HasIx<T>>(
    ds_a: Seq<Spot<T>>,
    ss_a: Seq<Space>,
    ds0: Seq<Spot<T>>,
    ss0: Seq<Space>,
    dst: Seq<Spot<T>>,
    ss_n: Seq<Space>,
    m: Map<int, int>,
    order: Seq<int>,
)
    requires
        all_present(ds_a),
        anchors_linked(ds_a, ss_a),
        distinct_nonces(ss_a),
        anchors_at_rest(ss_a),
        edges_within(ds_a),
        graph_ok(ds0, ss0),
        collected(ds0, ss0, ds_a.len() as int, dst, ss_n, m, order),
        forall|j: int| 0 <= j < ds_a.len() ==> dst[j] == ds_a[j],
        forall|s1: int, s2: int|
            0 <= s1 < ss0.len() && 0 <= s2 < ss_a.len() ==> (#[trigger] ss0[s1]).nonce != (
            #[trigger] ss_a[s2]).nonce,
    ensures
        all_present(dst),
        distinct_nonces(ss_a + ss_n),
        anchors_linked(dst, ss_a + ss_n),
        anchors_at_rest(ss_a + ss_n),
        edges_within(dst),
{
    let d0 = ds_a.len() as int;
    let ss = ss_a + ss_n;
    assert(ss_n.len() == ss0.len());
    // the new segment is present, and its edges forwarded into range
    assert forall|j: int| 0 <= j < dst.len() implies dst[j] is Present by {
        if j < d0 {
            assert(dst[j] == ds_a[j]);
        } else {
            let q = j - d0;
            assert(m.dom().contains(order[q]) && m[order[q]] == j);
            assert(dst[m[order[q]]] is Present);
        }
    }
    assert forall|i: int| live_at(dst, i) implies #[trigger] edges_ok_at(dst, i) by {
        if i < d0 {
            assert(edges_ok_at(ds_a, i));
            assert(entry_at(dst, i) == entry_at(ds_a, i));
            assert forall|k: int| 0 <= k < entry_at(dst, i).t.edges().len() implies 0
                <= #[trigger] entry_at(dst, i).t.edges()[k] < dst.len() by {
                assert(0 <= entry_at(ds_a, i).t.edges()[k] < ds_a.len());
            }
        } else {
            let q = i - d0;
            let x = order[q];
            assert(m.dom().contains(x) && m[x] == i);
            assert(rewritten(m, entry_at(ds0, x), entry_at(dst, i)));
            let e0 = entry_at(ds0, x);
            assert forall|k: int| 0 <= k < entry_at(dst, i).t.edges().len() implies 0
                <= #[trigger] entry_at(dst, i).t.edges()[k] < dst.len() by {
                assert(m.dom().contains(e0.t.edges()[k]));
                assert(entry_at(dst, i).t.edges()[k] == m[e0.t.edges()[k]]);
            }
        }
    }
    // distinct nonces across the concatenation
    assert forall|a: int, b: int| 0 <= a < b < ss.len() implies ss[a].nonce != ss[b].nonce by {
        if a < ss_a.len() && b >= ss_a.len() {
            assert(ss[a] == ss_a[a]);
            assert(ss[b] == ss_n[b - ss_a.len()]);
            assert(ss_n[b - ss_a.len()].nonce == ss0[b - ss_a.len()].nonce);
        } else if b < ss_a.len() {
            assert(ss[a] == ss_a[a] && ss[b] == ss_a[b]);
        } else {
            assert(ss[a] == ss_n[a - ss_a.len()] && ss[b] == ss_n[b - ss_a.len()]);
            assert(ss_n[a - ss_a.len()].nonce == ss0[a - ss_a.len()].nonce);
            assert(ss_n[b - ss_a.len()].nonce == ss0[b - ss_a.len()].nonce);
        }
    }
    assert(anchors_at_rest(ss)) by {
        assert forall|s: int, k: int|
            0 <= s < ss.len() && 0 <= k < ss[s].anchors@.len() implies !(
        #[trigger] ss[s].anchors@[k]).moved by {
            if s < ss_a.len() {
                assert(ss[s] == ss_a[s]);
                assert(!ss_a[s].anchors@[k].moved);
            } else {
                assert(ss[s] == ss_n[s - ss_a.len()]);
                assert(!ss_n[s - ss_a.len()].anchors@[k].moved);
            }
        }
    }
    // entries point at anchors that exist, are present, and target them
    assert forall|i: int|
        live_at(dst, i) && (#[trigger] entry_at(dst, i)).anchor is Some implies {
        let id = entry_at(dst, i).anchor->Some_0;
        &&& has_anchor(ss, id)
        &&& anchor_of(ss, id).present
        &&& anchor_of(ss, id).target == i
    } by {
        let id = entry_at(dst, i).anchor->Some_0;
        if i < d0 {
            assert(entry_at(dst, i) == entry_at(ds_a, i));
            let sa = space_at(ss_a, id.nonce);
            lemma_anchor_lookup(ss_a, id, sa);
            assert(ss[sa] == ss_a[sa]);
            lemma_anchor_lookup(ss, id, sa);
        } else {
            let q = i - d0;
            let x = order[q];
            assert(m.dom().contains(x) && m[x] == i);
            assert(rewritten(m, entry_at(ds0, x), entry_at(dst, i)));
            assert(entry_at(ds0, x).anchor == Some(id));
            assert(live_at(ds0, x));
            let s0 = space_at(ss0, id.nonce);
            lemma_anchor_lookup(ss0, id, s0);
            assert(anchor_of(ss0, id).present && anchor_of(ss0, id).target == x);
            let a0 = ss0[s0].anchors@[id.slot as int];
            assert(ss_n[s0].anchors@[id.slot as int].present && ss_n[s0].anchors@[id.slot as int].target
                == m[x]);
            assert(ss[ss_a.len() + s0] == ss_n[s0]);
            lemma_anchor_lookup(ss, id, ss_a.len() + s0);
        }
    }
    // present anchors target live entries that link back
    assert forall|s: int, k: int|
        0 <= s < ss.len() && 0 <= k < ss[s].anchors@.len() && (
    #[trigger] ss[s].anchors@[k]).present implies {
        let a = ss[s].anchors@[k];
        &&& live_at(dst, a.target as int)
        &&& entry_at(dst, a.target as int).anchor == Some(
            AnchorId { nonce: ss[s].nonce, slot: k as usize },
        )
    } by {
        let a = ss[s].anchors@[k];
        if s < ss_a.len() {
            assert(ss[s] == ss_a[s]);
            crate::region::lemma_anchors_len_bound(ss_a[s]);
            assert((#[trigger] ss_a[s].anchors@[k]).present);
            assert(live_at(ds_a, a.target as int));
            assert(entry_at(ds_a, a.target as int).anchor == Some(
                AnchorId { nonce: ss_a[s].nonce, slot: k as usize },
            ));
            assert(a.target < ds_a.len());
            assert(dst[a.target as int] == ds_a[a.target as int]);
        } else {
            let sn = s - ss_a.len();
            assert(ss[s] == ss_n[sn]);
            crate::region::lemma_anchors_len_bound(ss0[sn]);
            let a0 = ss0[sn].anchors@[k];
            assert(a.present);
            assert(a0.present && m.dom().contains(a0.target as int));
            assert((#[trigger] ss0[sn].anchors@[k]).present);
            assert(entry_at(ds0, a0.target as int).anchor == Some(
                AnchorId { nonce: ss0[sn].nonce, slot: k as usize },
            ));
            assert(a.target == m[a0.target as int]);
            assert(rewritten(m, entry_at(ds0, a0.target as int), entry_at(dst, a.target as int)));
            assert(entry_at(ds0, a0.target as int).anchor == Some(
                AnchorId { nonce: ss0[sn].nonce, slot: k as usize },
            ));
            assert(ss[s].nonce == ss0[sn].nonce);
        }
    }
}

} // verus!

verus! {

impl<T: HasIx<T>> Region<T> {
    /// Every live entry's edges point inside the backing store. The
    /// collector requires this; storing a stale index inside a live
    /// object and then collecting breaks it, an unrecoverable user error
    /// since the heap graph is then inconsistent.
    pub open spec fn edges_ok(self) -> bool {
        edges_within(self.data@)
    }

    /// One collection relates the region before it to the region after
    /// it: `m` is the copy map over spot offsets, `order` the copied
    /// offsets in destination order.
    pub open spec fn gc_rel(pre: Region<T>, post: Region<T>, m: Map<int, int>, order: Seq<int>) -> bool {
        collected(pre.data@, pre.spaces@, 0, post.data@, post.spaces@, m, order)
    }

    /// Immediately trigger a standard garbage collection.
    ///
    /// Exactly the objects reachable from the root set survive, relocated
    /// to the front of a fresh store with every edge and every anchor
    /// rewritten; anchors of reclaimed objects expire. Raw indices held
    /// outside the region are invalidated.
    pub fn gc(&mut self)
        requires
            old(self).wf(),
            old(self).edges_ok(),
        ensures
            final(self).wf(),
            final(self).edges_ok(),
            final(self).nonce == old(self).nonce,
            final(self).cap == old(self).n(),
            final(self).n() <= old(self).n(),
            // anchors persist as records; observer counts are untouched
            forall|id: AnchorId|
                old(self).has_anchor_id(id) <==> final(self).has_anchor_id(id),
            forall|id: AnchorId|
                #[trigger] old(self).has_anchor_id(id) ==> final(self).anchor(id).roots == old(self).anchor(id).roots && final(self).anchor(id).weaks == old(self).anchor(id).weaks,
            // a rooted anchor stays live and targets a live entry
            forall|id: AnchorId|
                old(self).anchor_live(id) && old(self).anchor(id).roots > 0 ==> final(self).anchor_live(id) && final(self).live_at(final(self).anchor(id).target as int),
            exists|m: Map<int, int>, order: Seq<int>|
                Self::gc_rel(*old(self), *final(self), m, order),
    {
        let mut src: Vec<Spot<T>> = Vec::new();
        core::mem::swap(&mut self.data, &mut src);
        let newcap = src.len();
        let mut dst: Vec<Spot<T>> = Vec::new();
        let g = collect_into(&mut src, &mut self.spaces, &mut dst);
        self.data = dst;
        self.cap = newcap;
        proof {
            let m = g.0@;
            let order = g.1@;
            let ds0 = old(self).data@;
            let ss0 = old(self).spaces@;
            lemma_merged_wf(
                Seq::<Spot<T>>::empty(),
                Seq::<Space>::empty(),
                ds0,
                ss0,
                self.data@,
                self.spaces@,
                m,
                order,
            );
            assert(Seq::<Space>::empty() + self.spaces@ =~= self.spaces@);
            assert(Self::gc_rel(*old(self), *self, m, order));
            assert forall|id: AnchorId|
                old(self).has_anchor_id(id) <==> self.has_anchor_id(id) by {
                if old(self).has_anchor_id(id) {
                    let s = space_at(old(self).spaces@, id.nonce);
                    lemma_anchor_lookup(old(self).spaces@, id, s);
                    lemma_anchor_lookup(self.spaces@, id, s);
                }
                if self.has_anchor_id(id) {
                    let s = space_at(self.spaces@, id.nonce);
                    lemma_anchor_lookup(self.spaces@, id, s);
                    lemma_anchor_lookup(old(self).spaces@, id, s);
                }
            }
            assert forall|id: AnchorId| #[trigger] old(self).has_anchor_id(id) implies self.anchor(
                id,
            ).roots == old(self).anchor(id).roots && self.anchor(id).weaks == old(self).anchor(
                id,
            ).weaks by {
                let s = space_at(old(self).spaces@, id.nonce);
                lemma_anchor_lookup(old(self).spaces@, id, s);
                lemma_anchor_lookup(self.spaces@, id, s);
            }
            assert forall|id: AnchorId|
                old(self).anchor_live(id) && old(self).anchor(id).roots > 0 implies self
                .anchor_live(id) && self.live_at(self.anchor(id).target as int) by {
                let s = space_at(old(self).spaces@, id.nonce);
                lemma_anchor_lookup(old(self).spaces@, id, s);
                lemma_anchor_lookup(self.spaces@, id, s);
                let a0 = old(self).spaces@[s].anchors@[id.slot as int];
                assert(a0.present && a0.roots > 0);
                assert(rooted(old(self).spaces@, a0.target as int));
                assert(live_at(old(self).data@, a0.target as int));
                lemma_rooted_reachable(old(self).data@, old(self).spaces@, a0.target as int);
                assert(m.dom().contains(a0.target as int));
            }
        }
    }

    /// Ensure that the capacity supports `additional` more entries,
    /// collecting garbage first if it does not. When it collects, the
    /// new capacity is the old length plus the larger of that length and
    /// `additional` (at least doubling), saturating at the address range.
    pub fn ensure(&mut self, additional: usize)
        requires
            old(self).wf(),
            old(self).edges_ok(),
            old(self).n() + additional <= usize::MAX,
        ensures
            final(self).wf(),
            final(self).edges_ok(),
            final(self).nonce == old(self).nonce,
            final(self).cap >= final(self).n() + additional,
            final(self).n() <= old(self).n(),
            old(self).cap >= old(self).n() + additional ==> *final(self) == *old(self),
            old(self).cap < old(self).n() + additional ==> exists|m: Map<int, int>, order: Seq<int>|
                Self::gc_rel(*old(self), *final(self), m, order),
    {
        let len = self.data.len();
        if self.cap - len >= additional {
            return ;
        }
        let grow = if len > additional {
            len
        } else {
            additional
        };
        let newcap = match len.checked_add(grow) {
            Some(c) => c,
            None => usize::MAX,
        };
        let mut src: Vec<Spot<T>> = Vec::new();
        core::mem::swap(&mut self.data, &mut src);
        let mut dst: Vec<Spot<T>> = Vec::new();
        let g = collect_into(&mut src, &mut self.spaces, &mut dst);
        self.data = dst;
        self.cap = newcap;
        proof {
            let m = g.0@;
            let order = g.1@;
            lemma_merged_wf(
                Seq::<Spot<T>>::empty(),
                Seq::<Space>::empty(),
                old(self).data@,
                old(self).spaces@,
                self.data@,
                self.spaces@,
                m,
                order,
            );
            assert(Seq::<Space>::empty() + self.spaces@ =~= self.spaces@);
            assert(Self::gc_rel(*old(self), *self, m, order));
        }
    }

    /// Allocate a new entry holding `t`, returning a handle to it.
    ///
    /// This may trigger a garbage collection first (never afterwards), so
    /// raw indices computed before the call may be invalidated; the value
    /// `t` itself is stored as given, its edges unrewritten.
    pub fn allocate(&mut self, t: T) -> (me: MutEntry<T>)
        requires
            old(self).wf(),
            old(self).edges_ok(),
            old(self).n() + 1 <= usize::MAX,
        ensures
            final(self).wf(),
            final(self).nonce == old(self).nonce,
            me@ == final(self).n() - 1,
            final(self).n() >= 1,
            final(self).live_at(me@),
            final(self).value_at(me@) == t,
            final(self).entry_at(me@).anchor is None,
            final(self).cap >= final(self).n(),
            old(self).cap > old(self).n() ==> final(self).data@ == old(self).data@.push(
                Spot::Present(Entry { t, anchor: None }),
            ) && final(self).spaces == old(self).spaces && final(self).cap == old(self).cap,
            old(self).cap <= old(self).n() ==> exists|m: Map<int, int>, order: Seq<int>|
                collected(
                    old(self).data@,
                    old(self).spaces@,
                    0,
                    final(self).data@.drop_last(),
                    final(self).spaces@,
                    m,
                    order,
                ),
            (forall|k: int| 0 <= k < t.edges().len() ==> 0 <= #[trigger] t.edges()[k] < final(self).n()) ==> final(self).edges_ok(),
    {
        self.ensure(1);
        let ghost mid = *self;
        let n = self.data.len();
        self.data.push(Spot::new(t));
        proof {
            assert(self.data@ == mid.data@.push(Spot::Present(Entry { t, anchor: None })));
            if old(self).cap <= old(self).n() {
                let (m, order) = choose|m: Map<int, int>, order: Seq<int>|
                    Self::gc_rel(*old(self), mid, m, order);
                assert(self.data@.drop_last() =~= mid.data@);
                assert(collected(
                    old(self).data@,
                    old(self).spaces@,
                    0,
                    self.data@.drop_last(),
                    self.spaces@,
                    m,
                    order,
                ));
            }
            assert forall|j: int|
                live_at(self.data@, j) && (#[trigger] entry_at(self.data@, j)).anchor
                    is Some implies {
                let id = entry_at(self.data@, j).anchor->Some_0;
                &&& has_anchor(self.spaces@, id)
                &&& anchor_of(self.spaces@, id).present
                &&& anchor_of(self.spaces@, id).target == j
            } by {
                if j < n {
                    assert(entry_at(self.data@, j) == entry_at(mid.data@, j));
                } else {
                    assert(entry_at(self.data@, j).anchor is None);
                }
            }
            assert forall|s: int, k: int|
                0 <= s < self.spaces@.len() && 0 <= k < self.spaces@[s].anchors@.len() && (
                #[trigger] self.spaces@[s].anchors@[k]).present implies {
                let a = self.spaces@[s].anchors@[k];
                &&& live_at(self.data@, a.target as int)
                &&& entry_at(self.data@, a.target as int).anchor == Some(
                    AnchorId { nonce: self.spaces@[s].nonce, slot: k as usize },
                )
            } by {
                let a = self.spaces@[s].anchors@[k];
                assert(live_at(mid.data@, a.target as int));
                assert(entry_at(self.data@, a.target as int) == entry_at(mid.data@, a.target as int));
            }
            assert(anchors_linked(self.data@, self.spaces@));
            assert forall|i: int| live_at(self.data@, i) && i < n implies #[trigger] edges_ok_at(
                self.data@,
                i,
            ) by {
                assert(edges_ok_at(mid.data@, i));
                assert(entry_at(self.data@, i) == entry_at(mid.data@, i));
                assert forall|k: int| 0 <= k < entry_at(self.data@, i).t.edges().len() implies 0
                    <= #[trigger] entry_at(self.data@, i).t.edges()[k] < self.data@.len() by {
                    assert(0 <= entry_at(mid.data@, i).t.edges()[k] < mid.data@.len());
                }
            }
        }
        MutEntry::from_ix(Ix::new(n))
    }
}

} // verus!

verus! {

impl<T: HasIx<T>> Region<T> {
    /// One bulk transfer relates the consumed region `moved` and the
    /// destination before the call (`pre`) to the destination after it
    /// (`post`): the destination may first collect itself once (`mid`),
    /// then `moved`'s reachable objects are appended with the copy map
    /// `m`, and `moved`'s anchor spaces follow them wholesale.
    pub open spec fn gc_into_rel(
        moved: Region<T>,
        pre: Region<T>,
        mid: Region<T>,
        post: Region<T>,
        m: Map<int, int>,
        order: Seq<int>,
    ) -> bool {
        &&& mid.nonce == pre.nonce
        &&& (mid == pre || exists|m0: Map<int, int>, o0: Seq<int>| Self::gc_rel(pre, mid, m0, o0))
        &&& mid.n() <= pre.n()
        &&& collected(
            moved.data@,
            moved.spaces@,
            mid.n(),
            post.data@,
            post.spaces@.skip(mid.spaces@.len() as int),
            m,
            order,
        )
        &&& post.spaces@.len() == mid.spaces@.len() + moved.spaces@.len()
        &&& forall|s: int| 0 <= s < mid.spaces@.len() ==> post.spaces@[s] == mid.spaces@[s]
        &&& forall|j: int| 0 <= j < mid.n() ==> post.data@[j] == mid.data@[j]
    }

    /// Move the entries of this region onto the end of another region,
    /// consuming this one. External handles into this region keep
    /// working and now denote locations in the other region; the
    /// transfer may first trigger a collection there to make room.
    ///
    /// The two regions' anchor spaces must carry distinct nonces: merging
    /// a region into one that shares a nonce would leave handles
    /// ambiguous.
    pub fn gc_into(self, other: &mut Region<T>)
        requires
            self.wf(),
            self.edges_ok(),
            old(other).wf(),
            old(other).edges_ok(),
            forall|s1: int, s2: int|
                0 <= s1 < self.spaces@.len() && 0 <= s2 < old(other).spaces@.len() ==> (
                #[trigger] self.spaces@[s1]).nonce != (#[trigger] old(other).spaces@[s2]).nonce,
            old(other).n() + self.n() <= usize::MAX,
        ensures
            final(other).wf(),
            final(other).edges_ok(),
            final(other).nonce == old(other).nonce,
            // roots minted in the moved region stay live, now denoting
            // locations in the destination
            forall|id: AnchorId|
                has_anchor(self.spaces@, id) && anchor_of(self.spaces@, id).present && anchor_of(
                    self.spaces@,
                    id,
                ).roots > 0 ==> final(other).anchor_live(id) && final(other).live_at(
                    final(other).anchor(id).target as int,
                ),
            // roots of the destination survive as well
            forall|id: AnchorId|
                old(other).anchor_live(id) && old(other).anchor(id).roots > 0 ==> final(other).anchor_live(id) && final(other).live_at(final(other).anchor(id).target as int),
            exists|mid: Region<T>, m: Map<int, int>, order: Seq<int>|
                Self::gc_into_rel(self, *old(other), mid, *final(other), m, order),
    {
        let mut this = self;
        let n = this.data.len();
        other.ensure(n);
        let ghost mid = *other;
        let g = collect_into(&mut this.data, &mut this.spaces, &mut other.data);
        other.spaces.append(&mut this.spaces);
        proof {
            let m = g.0@;
            let order = g.1@;
            let ghost ss_n = other.spaces@.skip(mid.spaces@.len() as int);
            assert(other.spaces@ == mid.spaces@ + ss_n) by {
                assert(other.spaces@ =~= mid.spaces@ + other.spaces@.skip(
                    mid.spaces@.len() as int,
                ));
            }
            // the appended tail is exactly what the collection produced
            assert(ss_n =~= (mid.spaces@ + ss_n).skip(mid.spaces@.len() as int));
            // nonces of mid agree with the original destination
            assert forall|s1: int, s2: int|
                0 <= s1 < self.spaces@.len() && 0 <= s2 < mid.spaces@.len() implies (
            #[trigger] self.spaces@[s1]).nonce != (#[trigger] mid.spaces@[s2]).nonce by {
                assert(mid.spaces@[s2].nonce == old(other).spaces@[s2].nonce);
            }
            lemma_merged_wf(
                mid.data@,
                mid.spaces@,
                self.data@,
                self.spaces@,
                other.data@,
                ss_n,
                m,
                order,
            );
            assert(Self::gc_into_rel(self, *old(other), mid, *other, m, order));
            // roots of the moved region resolve in the merged spaces
            assert forall|id: AnchorId|
                has_anchor(self.spaces@, id) && anchor_of(self.spaces@, id).present && anchor_of(
                    self.spaces@,
                    id,
                ).roots > 0 implies other.anchor_live(id) && other.live_at(
                other.anchor(id).target as int,
            ) by {
                let s = space_at(self.spaces@, id.nonce);
                lemma_anchor_lookup(self.spaces@, id, s);
                let a0 = self.spaces@[s].anchors@[id.slot as int];
                assert(a0.present && a0.roots > 0);
                assert(rooted(self.spaces@, a0.target as int));
                assert(live_at(self.data@, a0.target as int));
                lemma_rooted_reachable(self.data@, self.spaces@, a0.target as int);
                assert(m.dom().contains(a0.target as int));
                assert(ss_n[s].anchors@[id.slot as int].present);
                assert(other.spaces@[mid.spaces@.len() + s] == ss_n[s]);
                lemma_anchor_lookup(other.spaces@, id, mid.spaces@.len() + s);
                assert(other.spaces@[mid.spaces@.len() + s].anchors@[id.slot as int].present);
            }
            // roots of the destination resolve where they did before
            assert forall|id: AnchorId|
                old(other).anchor_live(id) && old(other).anchor(id).roots > 0 implies other
                .anchor_live(id) && other.live_at(other.anchor(id).target as int) by {
                let s = space_at(old(other).spaces@, id.nonce);
                lemma_anchor_lookup(old(other).spaces@, id, s);
                let b0 = old(other).spaces@[s].anchors@[id.slot as int];
                assert(b0.present && b0.roots > 0);
                // the destination's own optional collection kept it live
                assert(mid.spaces@[s].nonce == old(other).spaces@[s].nonce);
                lemma_anchor_lookup(mid.spaces@, id, s);
                let b1 = mid.spaces@[s].anchors@[id.slot as int];
                assert(b1.present && b1.target < mid.n()) by {
                    if mid == *old(other) {
                    } else {
                        let (m0, o0) = choose|m0: Map<int, int>, o0: Seq<int>|
                            Self::gc_rel(*old(other), mid, m0, o0);
                        assert(rooted(old(other).spaces@, b0.target as int));
                        assert(live_at(old(other).data@, b0.target as int));
                        lemma_rooted_reachable(
                            old(other).data@,
                            old(other).spaces@,
                            b0.target as int,
                        );
                        assert(m0.dom().contains(b0.target as int));
                    }
                }
                assert(other.spaces@[s] == mid.spaces@[s]);
                lemma_anchor_lookup(other.spaces@, id, s);
                assert(other.data@[b1.target as int] == mid.data@[b1.target as int]);
                assert(live_at(mid.data@, b1.target as int));
            }
        }
    }
}

} // verus!
