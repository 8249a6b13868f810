//! The collector's guarantees, stated and proved as standalone laws over
//! the collection relation that [`Region::gc`](crate::Region::gc)
//! establishes.

use vstd::prelude::*;

use crate::collect::{
    lemma_rooted_reachable, points_to, reach_n, reachable, rewritten, rooted,
};
use crate::has_ix::HasIx;
use crate::region::{entry_at, lemma_anchor_lookup, live_at, space_at, Region};
use crate::types::AnchorId;

verus! {

/// Liveness preservation: every object reachable from the root set
/// through the traversal capability survives a collection; its copy
/// carries the same payload and the same anchor link.
pub proof fn lemma_liveness_preserved<T: HasIx<T>>(
    pre: Region<T>,
    post: Region<T>,
    m: Map<int, int>,
    order: Seq<int>,
    i: int,
)
    requires
        Region::gc_rel(pre, post, m, order),
        reachable(pre.data@, pre.spaces@, i),
    ensures
        m.dom().contains(i),
        post.live_at(m[i]),
        post.value_at(m[i]).payload() == pre.value_at(i).payload(),
        post.value_at(m[i]).edges().len() == pre.value_at(i).edges().len(),
        post.entry_at(m[i]).anchor == pre.entry_at(i).anchor,
{
    assert(m.dom().contains(i));
    assert(rewritten(m, entry_at(pre.data@, i), entry_at(post.data@, m[i])));
}

/// Reclamation: an object not reachable from the root set is not copied,
/// and its anchor, if it had one, is observable as expired afterwards.
pub proof fn lemma_reclamation<T: HasIx<T>>(
    pre: Region<T>,
    post: Region<T>,
    m: Map<int, int>,
    order: Seq<int>,
    i: int,
)
    requires
        Region::gc_rel(pre, post, m, order),
        pre.wf(),
        pre.live_at(i),
        !reachable(pre.data@, pre.spaces@, i),
    ensures
        !m.dom().contains(i),
        forall|q: int| 0 <= q < order.len() ==> order[q] != i,
        pre.entry_at(i).anchor matches Some(id) ==> post.has_anchor_id(id) && !post.anchor(
            id,
        ).present,
{
    assert forall|q: int| 0 <= q < order.len() implies order[q] != i by {
        assert(m.dom().contains(order[q]));
    }
    if pre.entry_at(i).anchor is Some {
        let id = pre.entry_at(i).anchor->Some_0;
        let s = space_at(pre.spaces@, id.nonce);
        lemma_anchor_lookup(pre.spaces@, id, s);
        let a0 = pre.spaces@[s].anchors@[id.slot as int];
        assert(a0.present && a0.target == i);
        assert(post.spaces@[s].nonce == pre.spaces@[s].nonce);
        lemma_anchor_lookup(post.spaces@, id, s);
        assert(!post.spaces@[s].anchors@[id.slot as int].present);
    }
}

/// Index forwarding: every index stored inside a surviving object at a
/// position the traversal capability exposes equals, after collection,
/// the destination offset of the object it pointed at.
pub proof fn lemma_index_forwarding<T: HasIx<T>>(
    pre: Region<T>,
    post: Region<T>,
    m: Map<int, int>,
    order: Seq<int>,
    i: int,
    k: int,
)
    requires
        Region::gc_rel(pre, post, m, order),
        m.dom().contains(i),
        0 <= k < pre.entry_at(i).t.edges().len(),
    ensures
        m.dom().contains(pre.entry_at(i).t.edges()[k]),
        post.entry_at(m[i]).t.edges()[k] == m[pre.entry_at(i).t.edges()[k]],
{
    assert(rewritten(m, entry_at(pre.data@, i), entry_at(post.data@, m[i])));
}

/// Handle stability: a root's anchor survives every collection; after
/// one it holds the destination offset of its object, whose payload is
/// unchanged, and its observer counts are untouched.
pub proof fn lemma_handle_stability<T: HasIx<T>>(
    pre: Region<T>,
    post: Region<T>,
    m: Map<int, int>,
    order: Seq<int>,
    id: AnchorId,
)
    requires
        Region::gc_rel(pre, post, m, order),
        pre.wf(),
        pre.anchor_live(id),
        pre.anchor(id).roots > 0,
    ensures
        m.dom().contains(pre.anchor(id).target as int),
        post.anchor_live(id),
        post.anchor(id).target == m[pre.anchor(id).target as int],
        post.anchor(id).roots == pre.anchor(id).roots,
        post.anchor(id).weaks == pre.anchor(id).weaks,
        post.live_at(post.anchor(id).target as int),
        post.value_at(post.anchor(id).target as int).payload() == pre.value_at(
            pre.anchor(id).target as int,
        ).payload(),
{
    let s = space_at(pre.spaces@, id.nonce);
    lemma_anchor_lookup(pre.spaces@, id, s);
    let a0 = pre.spaces@[s].anchors@[id.slot as int];
    let i = a0.target as int;
    assert(a0.present);
    assert(rooted(pre.spaces@, i));
    assert(live_at(pre.data@, i));
    lemma_rooted_reachable(pre.data@, pre.spaces@, i);
    assert(m.dom().contains(i));
    assert(post.spaces@[s].nonce == pre.spaces@[s].nonce);
    lemma_anchor_lookup(post.spaces@, id, s);
    assert(post.spaces@[s].anchors@[id.slot as int].present);
    assert(rewritten(m, entry_at(pre.data@, i), entry_at(post.data@, m[i])));
}

/// Every copy made by a collection is itself reachable afterwards: the
/// copy map sends each step of a path from the root set to a step of a
/// path in the new region.
proof fn lemma_reach_mapped<T: HasIx<T>>(
    pre: Region<T>,
    post: Region<T>,
    m: Map<int, int>,
    order: Seq<int>,
    i: int,
    n: nat,
)
    requires
        Region::gc_rel(pre, post, m, order),
        pre.wf(),
        reach_n(pre.data@, pre.spaces@, i, n),
    ensures
        m.dom().contains(i),
        reach_n(post.data@, post.spaces@, m[i], n),
    decreases n,
{
    assert(reachable(pre.data@, pre.spaces@, i)) by {
        assert(reach_n(pre.data@, pre.spaces@, i, n));
    }
    assert(m.dom().contains(i));
    if n == 0 {
        assert(rooted(pre.spaces@, i) && live_at(pre.data@, i));
        let (s, k) = choose|s: int, k: int|
            0 <= s < pre.spaces@.len() && 0 <= k < pre.spaces@[s].anchors@.len() && (
            #[trigger] pre.spaces@[s].anchors@[k]).present && pre.spaces@[s].anchors@[k].roots > 0
                && pre.spaces@[s].anchors@[k].target == i;
        let a1 = post.spaces@[s].anchors@[k];
        assert(a1.present && a1.roots > 0 && a1.target == m[i]);
        assert(rooted(post.spaces@, m[i]));
        assert(live_at(post.data@, m[i]));
        assert(reach_n(post.data@, post.spaces@, m[i], 0));
    } else {
        if reach_n(pre.data@, pre.spaces@, i, (n - 1) as nat) {
            lemma_reach_mapped(pre, post, m, order, i, (n - 1) as nat);
            assert(reach_n(post.data@, post.spaces@, m[i], n));
        } else {
            assert(reach_n(pre.data@, pre.spaces@, i, n) && !reach_n(
                pre.data@,
                pre.spaces@,
                i,
                (n - 1) as nat,
            ));
            let i0 = choose|i0: int|
                reach_n(pre.data@, pre.spaces@, i0, (n - 1) as nat) && #[trigger] points_to(
                    pre.data@,
                    i0,
                    i,
                ) && live_at(pre.data@, i);
            lemma_reach_mapped(pre, post, m, order, i0, (n - 1) as nat);
            let e0 = entry_at(pre.data@, i0);
            let k = choose|k: int| 0 <= k < e0.t.edges().len() && e0.t.edges()[k] == i;
            assert(rewritten(m, e0, entry_at(post.data@, m[i0])));
            assert(entry_at(post.data@, m[i0]).t.edges()[k] == m[i]);
            assert(entry_at(post.data@, m[i0]).t.edges().contains(m[i]));
            assert(points_to(post.data@, m[i0], m[i]));
            assert(live_at(post.data@, m[i]));
            assert(reach_n(post.data@, post.spaces@, m[i], n));
        }
    }
}

/// After a collection, every entry of the region is reachable: the
/// region holds live data only.
pub proof fn lemma_post_gc_all_reachable<T: HasIx<T>>(
    pre: Region<T>,
    post: Region<T>,
    m: Map<int, int>,
    order: Seq<int>,
    j: int,
)
    requires
        Region::gc_rel(pre, post, m, order),
        pre.wf(),
        0 <= j < post.n(),
    ensures
        reachable(post.data@, post.spaces@, j),
{
    let i = order[j];
    assert(m.dom().contains(i) && m[i] == j);
    assert(reachable(pre.data@, pre.spaces@, i));
    let n = choose|n: nat| reach_n(pre.data@, pre.spaces@, i, n);
    lemma_reach_mapped(pre, post, m, order, i, n);
    assert(reach_n(post.data@, post.spaces@, j, n));
}

/// Idempotence of collection, in size: collecting twice in succession
/// without touching the graph in between reclaims nothing the second
/// time, so the length is unchanged.
pub proof fn lemma_gc_idempotent_len<T: HasIx<T>>(
    r0: Region<T>,
    r1: Region<T>,
    r2: Region<T>,
    m1: Map<int, int>,
    o1: Seq<int>,
    m2: Map<int, int>,
    o2: Seq<int>,
)
    requires
        Region::gc_rel(r0, r1, m1, o1),
        Region::gc_rel(r1, r2, m2, o2),
        r0.wf(),
    ensures
        r2.n() == r1.n(),
{
    // everything in the once-collected region is reachable, so the
    // second collection's copy map covers all of it
    assert forall|j: int| 0 <= j < r1.n() implies #[trigger] m2.dom().contains(j) by {
        lemma_post_gc_all_reachable(r0, r1, m1, o1, j);
    }
    assert(m2.dom() =~= vstd::set_lib::set_int_range(0, r1.n()));
    // the second copy order lists the whole domain without repeats
    assert(o2.no_duplicates()) by {
        assert forall|q1: int, q2: int|
            0 <= q1 < o2.len() && 0 <= q2 < o2.len() && q1 != q2 implies o2[q1] != o2[q2] by {
            assert(m2[o2[q1]] == q1 && m2[o2[q2]] == q2);
        }
    }
    assert(o2.to_set() =~= m2.dom()) by {
        assert forall|x: int| m2.dom().contains(x) implies o2.to_set().contains(x) by {
            let q = m2[x];
            assert(0 <= q < o2.len());
            assert(m2[o2[q]] == q);
            assert(o2[q] == x);
            assert(o2.to_set().contains(o2[q]));
        }
        assert forall|x: int| o2.to_set().contains(x) implies m2.dom().contains(x) by {
            let q = choose|q: int| 0 <= q < o2.len() && o2[q] == x;
            assert(m2.dom().contains(o2[q]));
        }
    }
    o2.unique_seq_to_set();
    vstd::set_lib::lemma_int_range(0, r1.n());
    assert(o2.len() == r1.n());
    assert(o2.len() == r2.n());
}

/// Capacity: a reservation that still covers `k` further entries keeps
/// the next allocation collection-free, and after it covers the `k - 1`
/// after that; iterating this is why `k` reserved spots allow `k`
/// allocations with no collection in between.
pub proof fn lemma_capacity_step(cap: int, n: int, k: int)
    requires
        cap >= n + k,
        k >= 1,
    ensures
        cap > n,
        cap >= (n + 1) + (k - 1),
{
}

} // verus!

verus! {

proof fn lemma_no_roots_reach_n<T: HasIx<T>>(
    ds: Seq<crate::entry::Spot<T>>,
    ss: Seq<crate::types::Space>,
    j: int,
    n: nat,
)
    requires
        forall|i: int| !rooted(ss, i),
    ensures
        !reach_n(ds, ss, j, n),
    decreases n,
{
    if n == 0 {
    } else {
        lemma_no_roots_reach_n(ds, ss, j, (n - 1) as nat);
        assert forall|i: int| !(reach_n(ds, ss, i, (n - 1) as nat) && #[trigger] points_to(
            ds,
            i,
            j,
        ) && live_at(ds, j)) by {
            lemma_no_roots_reach_n(ds, ss, i, (n - 1) as nat);
        }
    }
}

/// With an empty root set, nothing is reachable: a collection of a
/// rootless region reclaims everything.
pub proof fn lemma_no_roots_nothing_reachable<T: HasIx<T>>(
    ds: Seq<crate::entry::Spot<T>>,
    ss: Seq<crate::types::Space>,
)
    requires
        forall|i: int| !rooted(ss, i),
    ensures
        forall|j: int| !reachable(ds, ss, j),
{
    assert forall|j: int| !reachable(ds, ss, j) by {
        assert forall|n: nat| !reach_n(ds, ss, j, n) by {
            lemma_no_roots_reach_n(ds, ss, j, n);
        }
    }
}

} // verus!


verus! {

use crate::collect::{
    edge_of, lemma_order_enumerates_dom, lemma_roots_push, pair_fresh, root_order,
    root_order_upto, roots_of_anchors, scan_next,
};
use crate::types::Anchor;
use crate::types::Space;

/// Anchor records before and after a collection pick out the same root
/// positions, with each target sent through the copy map.
proof fn lemma_roots_mapped(asq0: Seq<Anchor>, asq1: Seq<Anchor>, m: Map<int, int>)
    requires
        asq1.len() == asq0.len(),
        forall|k: int|
            0 <= k < asq0.len() ==> ((#[trigger] asq1[k]).present && asq1[k].roots > 0) == ((
            #[trigger] asq0[k]).present && asq0[k].roots > 0),
        forall|k: int|
            0 <= k < asq0.len() && (#[trigger] asq0[k]).present && asq0[k].roots > 0
                ==> m.dom().contains(asq0[k].target as int) && asq1[k].target == m[asq0[k].target as int],
    ensures
        roots_of_anchors(asq1).len() == roots_of_anchors(asq0).len(),
        forall|p: int|
            0 <= p < roots_of_anchors(asq0).len() ==> m.dom().contains(
                #[trigger] roots_of_anchors(asq0)[p],
            ) && roots_of_anchors(asq1)[p] == m[roots_of_anchors(asq0)[p]],
    decreases asq0.len(),
{
    if asq0.len() > 0 {
        let p0 = asq0.drop_last();
        let p1 = asq1.drop_last();
        lemma_roots_mapped(p0, p1, m);
        assert(asq0 =~= p0.push(asq0.last()));
        assert(asq1 =~= p1.push(asq1.last()));
        lemma_roots_push(p0, asq0.last());
        lemma_roots_push(p1, asq1.last());
        assert(asq0[asq0.len() - 1] == asq0.last());
        assert(asq1[asq0.len() - 1] == asq1.last());
    }
}

/// The root enumeration before and after a collection: same length,
/// targets sent through the copy map.
proof fn lemma_root_order_mapped(ss0: Seq<Space>, ss1: Seq<Space>, m: Map<int, int>, s: int)
    requires
        0 <= s <= ss0.len(),
        ss1.len() == ss0.len(),
        forall|s2: int, k2: int|
            0 <= s2 < ss0.len() && 0 <= k2 < ss0[s2].anchors@.len() ==> ((
            #[trigger] ss1[s2].anchors@[k2]).present && ss1[s2].anchors@[k2].roots > 0) == ((
            #[trigger] ss0[s2].anchors@[k2]).present && ss0[s2].anchors@[k2].roots > 0),
        forall|s2: int| 0 <= s2 < ss0.len() ==> (#[trigger] ss1[s2]).anchors@.len()
            == ss0[s2].anchors@.len(),
        forall|s2: int, k2: int|
            0 <= s2 < ss0.len() && 0 <= k2 < ss0[s2].anchors@.len() && (
            #[trigger] ss0[s2].anchors@[k2]).present && ss0[s2].anchors@[k2].roots > 0
                ==> m.dom().contains(ss0[s2].anchors@[k2].target as int)
                && ss1[s2].anchors@[k2].target == m[ss0[s2].anchors@[k2].target as int],
    ensures
        root_order_upto(ss1, s).len() == root_order_upto(ss0, s).len(),
        forall|p: int|
            0 <= p < root_order_upto(ss0, s).len() ==> m.dom().contains(
                #[trigger] root_order_upto(ss0, s)[p],
            ) && root_order_upto(ss1, s)[p] == m[root_order_upto(ss0, s)[p]],
    decreases s,
{
    if s > 0 {
        lemma_root_order_mapped(ss0, ss1, m, s - 1);
        lemma_roots_mapped(ss0[s - 1].anchors@, ss1[s - 1].anchors@, m);
    }
}

} // verus!

verus! {

/// During a second collection of an untouched region, every step of the
/// canonical copy order picks the objects in their existing order.
proof fn lemma_second_order_identity<T: HasIx<T>>(
    r0: Region<T>,
    r1: Region<T>,
    r2: Region<T>,
    m1: Map<int, int>,
    o1: Seq<int>,
    m2: Map<int, int>,
    o2: Seq<int>,
    q: int,
)
    requires
        Region::gc_rel(r0, r1, m1, o1),
        Region::gc_rel(r1, r2, m2, o2),
        r0.wf(),
        0 <= q <= o2.len(),
        o2.len() <= o1.len(),
        root_order(r1.spaces@).len() == root_order(r0.spaces@).len(),
        forall|p: int|
            0 <= p < root_order(r1.spaces@).len() ==> #[trigger] root_order(r1.spaces@)[p] == p,
    ensures
        forall|p: int| 0 <= p < q ==> #[trigger] o2[p] == p,
    decreases q,
{
    if q > 0 {
        lemma_second_order_identity(r0, r1, r2, m1, o1, m2, o2, q - 1);
        let qq = q - 1;
        let rr = root_order(r1.spaces@).len() as int;
        lemma_order_enumerates_dom(0, r1.n(), m1, o1);
        if qq < rr {
            assert(o2.take(rr)[qq] == root_order(r1.spaces@)[qq]);
            assert(o2[qq] == qq);
        } else {
            assert(scan_next(r1.data@, o2, qq));
            assert(scan_next(r0.data@, o1, qq));
            let (c2, j2) = choose|c2: int, j2: int|
                {
                    &&& #[trigger] pair_fresh(r1.data@, o2, qq, c2, j2)
                    &&& o2[qq] == edge_of(r1.data@, o2[c2], j2)
                    &&& forall|ca: int, ja: int|
                        #[trigger] pair_fresh(r1.data@, o2, qq, ca, ja) ==> c2 < ca || (c2 == ca
                            && j2 <= ja)
                };
            let (c1, j1) = choose|c1: int, j1: int|
                {
                    &&& #[trigger] pair_fresh(r0.data@, o1, qq, c1, j1)
                    &&& o1[qq] == edge_of(r0.data@, o1[c1], j1)
                    &&& forall|ca: int, ja: int|
                        #[trigger] pair_fresh(r0.data@, o1, qq, ca, ja) ==> c1 < ca || (c1 == ca
                            && j1 <= ja)
                };
            // the fresh pairs of the two scans coincide
            assert forall|c: int, j: int|
                #[trigger] pair_fresh(r1.data@, o2, qq, c, j) implies pair_fresh(
                r0.data@,
                o1,
                qq,
                c,
                j,
            ) by {
                assert(o2[c] == c);
                assert(m1.dom().contains(o1[c]) && m1[o1[c]] == c);
                assert(crate::collect::rewritten(
                    m1,
                    entry_at(r0.data@, o1[c]),
                    entry_at(r1.data@, c),
                ));
                let e0 = edge_of(r0.data@, o1[c], j);
                let e1 = edge_of(r1.data@, c, j);
                assert(m1.dom().contains(e0) && e1 == m1[e0]);
                if o1.take(qq).contains(e0) {
                    let p = choose|p: int| 0 <= p < qq && o1.take(qq)[p] == e0;
                    assert(o1[p] == e0);
                    assert(m1[e0] == p);
                    assert(o2[p] == p);
                    assert(o2.take(qq)[p] == e1);
                    assert(false);
                }
            }
            assert forall|c: int, j: int|
                #[trigger] pair_fresh(r0.data@, o1, qq, c, j) implies pair_fresh(
                r1.data@,
                o2,
                qq,
                c,
                j,
            ) by {
                assert(o2[c] == c);
                assert(m1.dom().contains(o1[c]) && m1[o1[c]] == c);
                assert(crate::collect::rewritten(
                    m1,
                    entry_at(r0.data@, o1[c]),
                    entry_at(r1.data@, c),
                ));
                let e0 = edge_of(r0.data@, o1[c], j);
                let e1 = edge_of(r1.data@, c, j);
                assert(m1.dom().contains(e0) && e1 == m1[e0]);
                if o2.take(qq).contains(e1) {
                    let p = choose|p: int| 0 <= p < qq && o2.take(qq)[p] == e1;
                    assert(o2[p] == e1);
                    assert(o2[p] == p);
                    assert(m1[e0] == p);
                    assert(o1[m1[e0]] == e0);
                    assert(o1.take(qq)[p] == e0);
                    assert(false);
                }
            }
            // so the least pair is the same on both sides
            assert(pair_fresh(r0.data@, o1, qq, c2, j2));
            assert(pair_fresh(r1.data@, o2, qq, c1, j1));
            assert(c1 == c2 && j1 == j2);
            // and the copied target is the image of the first run's pick
            assert(o2[qq] == edge_of(r1.data@, c1, j1));
            assert(crate::collect::rewritten(
                m1,
                entry_at(r0.data@, o1[c1]),
                entry_at(r1.data@, c1),
            )) by {
                assert(m1.dom().contains(o1[c1]) && m1[o1[c1]] == c1);
            }
            assert(edge_of(r1.data@, c1, j1) == m1[edge_of(r0.data@, o1[c1], j1)]);
            assert(m1[o1[qq]] == qq);
            assert(o2[qq] == qq);
        }
    }
}

} // verus!

verus! {

/// Idempotence, in full: collecting twice in succession on an unchanged
/// graph leaves the second collection with nothing to do. The length is
/// unchanged, every object keeps its position, payload, edges and anchor
/// link, and every anchor record is identical.
pub proof fn lemma_gc_idempotent<T: HasIx<T>>(
    r0: Region<T>,
    r1: Region<T>,
    r2: Region<T>,
    m1: Map<int, int>,
    o1: Seq<int>,
    m2: Map<int, int>,
    o2: Seq<int>,
)
    requires
        Region::gc_rel(r0, r1, m1, o1),
        Region::gc_rel(r1, r2, m2, o2),
        r0.wf(),
    ensures
        r2.n() == r1.n(),
        forall|i: int|
            0 <= i < r1.n() ==> #[trigger] m2.dom().contains(i) && m2[i] == i,
        forall|i: int|
            0 <= i < r1.n() ==> {
                &&& #[trigger] r2.live_at(i)
                &&& r2.value_at(i).payload() == r1.value_at(i).payload()
                &&& r2.value_at(i).edges() == r1.value_at(i).edges()
                &&& r2.entry_at(i).anchor == r1.entry_at(i).anchor
            },
        r2.spaces@.len() == r1.spaces@.len(),
        forall|s: int, k: int|
            0 <= s < r1.spaces@.len() && 0 <= k < r1.spaces@[s].anchors@.len()
                ==> #[trigger] r2.spaces@[s].anchors@[k] == r1.spaces@[s].anchors@[k],
{
    lemma_gc_idempotent_len(r0, r1, r2, m1, o1, m2, o2);
    // the root enumeration of the collected region is the identity prefix
    lemma_order_enumerates_dom(0, r1.n(), m1, o1);
    assert forall|s2: int, k2: int|
        0 <= s2 < r0.spaces@.len() && 0 <= k2 < r0.spaces@[s2].anchors@.len() && (
        #[trigger] r0.spaces@[s2].anchors@[k2]).present && r0.spaces@[s2].anchors@[k2].roots
        > 0 implies m1.dom().contains(r0.spaces@[s2].anchors@[k2].target as int) by {
        assert(rooted(r0.spaces@, r0.spaces@[s2].anchors@[k2].target as int));
        assert(live_at(r0.data@, r0.spaces@[s2].anchors@[k2].target as int));
        lemma_rooted_reachable(
            r0.data@,
            r0.spaces@,
            r0.spaces@[s2].anchors@[k2].target as int,
        );
    }
    lemma_root_order_mapped(r0.spaces@, r1.spaces@, m1, r0.spaces@.len() as int);
    let rr = root_order(r0.spaces@).len() as int;
    assert(root_order(r1.spaces@).len() == rr);
    assert forall|p: int| 0 <= p < rr implies #[trigger] root_order(r1.spaces@)[p] == p by {
        let x = root_order(r0.spaces@)[p];
        assert(root_order(r1.spaces@)[p] == m1[x]);
        assert(o1.take(rr)[p] == x);
        assert(o1[p] == x);
        assert(m1[o1[p]] == p);
    }
    // the second copy order is the identity
    lemma_second_order_identity(r0, r1, r2, m1, o1, m2, o2, o2.len() as int);
    lemma_order_enumerates_dom(0, r2.n(), m2, o2);
    assert forall|i: int| 0 <= i < r1.n() implies #[trigger] m2.dom().contains(i) && m2[i]
        == i by {
        lemma_post_gc_all_reachable(r0, r1, m1, o1, i);
        assert(reachable(r1.data@, r1.spaces@, i));
        assert(m2.dom().contains(i));
        assert(0 <= m2[i] < r2.n());
        assert(o2.len() == r2.n());
        assert(o2[m2[i] - 0] == i);
        assert(o2[m2[i]] == m2[i]);
    }
    // with an identity copy map, every copy equals its original
    assert forall|i: int| 0 <= i < r1.n() implies {
        &&& #[trigger] r2.live_at(i)
        &&& r2.value_at(i).payload() == r1.value_at(i).payload()
        &&& r2.value_at(i).edges() == r1.value_at(i).edges()
        &&& r2.entry_at(i).anchor == r1.entry_at(i).anchor
    } by {
        assert(m2.dom().contains(i) && m2[i] == i);
        assert(rewritten(m2, entry_at(r1.data@, i), entry_at(r2.data@, i)));
        let e1 = entry_at(r1.data@, i);
        let e2 = entry_at(r2.data@, i);
        assert(e2.t.edges() =~= e1.t.edges()) by {
            assert forall|k: int| 0 <= k < e1.t.edges().len() implies e2.t.edges()[k]
                == e1.t.edges()[k] by {
                assert(m2.dom().contains(#[trigger] e1.t.edges()[k]));
                assert(e2.t.edges()[k] == m2[e1.t.edges()[k]]);
                assert(0 <= e1.t.edges()[k] < r1.n());
            }
        }
    }
    // every anchor record is reproduced exactly
    assert forall|s: int, k: int|
        0 <= s < r1.spaces@.len() && 0 <= k < r1.spaces@[s].anchors@.len()
            implies #[trigger] r2.spaces@[s].anchors@[k] == r1.spaces@[s].anchors@[k] by {
        let a1 = r1.spaces@[s].anchors@[k];
        let a2 = r2.spaces@[s].anchors@[k];
        let a0 = r0.spaces@[s].anchors@[k];
        assert(!a1.moved);
        if a1.present {
            assert(a0.present && m1.dom().contains(a0.target as int));
            assert(a1.target == m1[a0.target as int]);
            assert(0 <= a1.target < r1.n());
            assert(m2.dom().contains(a1.target as int) && m2[a1.target as int]
                == a1.target as int) by {
                lemma_post_gc_all_reachable(r0, r1, m1, o1, a1.target as int);
                assert(reachable(r1.data@, r1.spaces@, a1.target as int));
                assert(m2.dom().contains(a1.target as int));
                assert(0 <= m2[a1.target as int] < r2.n());
                assert(o2.len() == r2.n());
                assert(o2[m2[a1.target as int] - 0] == a1.target as int);
                assert(o2[m2[a1.target as int]] == m2[a1.target as int]);
            }
            assert(a2.present && a2.target == a1.target);
        } else {
            assert(!a2.present && a2.target == a1.target);
        }
    }
}

} // verus!
