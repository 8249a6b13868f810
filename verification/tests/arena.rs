use moving_gc_arena::{Elem, Error, Region};

#[test]
fn weaks_are_weak() {
    let mut r: Region<Elem> = Region::new(0);
    let e1 = r.allocate(Elem::new());
    let w1 = e1.weak(&mut r);

    let e2 = r.allocate(Elem::new());
    let w2 = e2.weak(&mut r);
    let r2 = e2.root(&mut r);

    r.gc();
    let e3 = r.allocate(Elem::new());
    let w3 = e3.weak(&mut r);

    // first is collected by now
    assert!(w1.try_get(&r).is_err());

    // root and new version are both accessible
    assert!(w2.try_get(&r).is_ok());
    assert!(w3.try_get(&r).is_ok());

    // touch r2
    r.drop_root(r2);
}

#[test]
fn roots_are_root() {
    let mut r: Region<Elem> = Region::new(0);
    let e1 = r.allocate(Elem::new());
    let w1 = e1.weak(&mut r);
    let r1 = e1.root(&mut r);
    let e2 = r.allocate(Elem::new());
    let r2 = e2.root(&mut r);
    r.drop_root(r1);
    r.gc();

    // r1 stopped being a root when released
    assert!(w1.try_get(&r).is_err());

    // r2 is still a root
    assert!(r2.try_get(&r).is_ok());
}

#[test]
fn indirect_correct() {
    let mut r: Region<Elem> = Region::new(0);

    let e1 = r.allocate(Elem::new());
    let w1 = e1.weak(&mut r);
    let r1 = e1.root(&mut r);
    let r1_ix = r1.ix(&r);
    let e2 = r.allocate(Elem { tag: 0, ix: Some(r1_ix) });
    let r2 = e2.root(&mut r);
    r.drop_root(r1);

    let e3 = r.allocate(Elem::new());
    let e3_ix = e3.ix();
    e3.get_mut(&mut r).ix = Some(e3_ix);
    let w3 = e3.weak(&mut r);

    let e4 = r.allocate(Elem::new());
    let r4 = e4.root(&mut r);
    let e5 = r.allocate(Elem::new());
    let w5 = e5.weak(&mut r);

    let w5_ix = w5.ix(&r).unwrap();
    r4.get_mut(&mut r).ix = Some(w5_ix);
    let r4_ix = r4.ix(&r);
    w5.get_mut(&mut r).ix = Some(r4_ix);

    // nothing changed with r4 and w5 during access
    assert!(r4.try_get(&r).is_ok());
    assert!(w5.try_get(&r).is_ok());
    r.drop_root(r4);

    r.gc();

    // entries 1 and 2 are still good
    assert!(match w1.try_get(&r) {
        Ok(Elem { ix: None, .. }) => true,
        x => panic!("{:?}", x),
    });
    assert!(match r2.try_get(&r) {
        Ok(Elem { ix: Some(_), .. }) => true,
        x => panic!("{:?}", x),
    });

    // entries 3, 4 and 5 should be collected despite cycles
    assert!(w3.try_get(&r).is_err());
    assert!(w5.try_get(&r).is_err());
}

#[test]
fn simple_reclamation() {
    let mut r: Region<()> = Region::new(0);
    r.allocate(());
    assert_eq!(r.len(), 1);
    r.gc();
    assert!(r.is_empty());
    assert_eq!(r.len(), 0);
}

#[test]
fn root_keeps_alive() {
    let mut r: Region<Elem> = Region::new(0);
    let ea = r.allocate(Elem::with_tag(1));
    let ra = ea.root(&mut r);
    let eb = r.allocate(Elem::with_tag(2));
    let wb = eb.weak(&mut r);
    r.gc();
    assert!(ra.try_get(&r).is_ok());
    assert!(wb.try_get(&r).is_err());
}

#[test]
fn weak_expires_while_root_lives_on_sibling() {
    let mut r: Region<Elem> = Region::new(0);
    let ea = r.allocate(Elem::with_tag(1));
    let ra = ea.root(&mut r);
    let eb = r.allocate(Elem::with_tag(2));
    let wb = eb.weak(&mut r);
    r.gc();
    assert_eq!(wb.try_get(&r).unwrap_err(), Error::EntryExpired);
    assert_eq!(ra.try_get(&r).unwrap().tag, 1);
}

#[test]
fn cycles_are_collectable() {
    let mut r: Region<Elem> = Region::new(0);

    // x stores its own index
    let ex = r.allocate(Elem::new());
    let ex_ix = ex.ix();
    ex.get_mut(&mut r).ix = Some(ex_ix);
    let wx = ex.weak(&mut r);

    // y and z form a mutual cycle, held only by weak handles
    let ey = r.allocate(Elem::new());
    let ez = r.allocate(Elem::new());
    let ez_ix = ez.ix();
    ey.get_mut(&mut r).ix = Some(ez_ix);
    let ey_ix = ey.ix();
    ez.get_mut(&mut r).ix = Some(ey_ix);
    let wy = ey.weak(&mut r);
    let wz = ez.weak(&mut r);

    r.gc();
    assert!(r.is_empty());
    assert!(wx.try_get(&r).is_err());
    assert!(wy.try_get(&r).is_err());
    assert!(wz.try_get(&r).is_err());
    assert!(wx.ix(&r).is_none());
}

#[test]
fn indirect_liveness() {
    let mut r: Region<Elem> = Region::new(0);
    let ep = r.allocate(Elem::with_tag(7));
    let rp = ep.root(&mut r);
    let eq = r.allocate(Elem::with_tag(42));
    let q_ix = eq.ix();
    rp.get_mut(&mut r).ix = Some(q_ix);
    r.gc();
    assert_eq!(r.len(), 2);
    // p's stored index still resolves to the value originally placed in q
    let stored = rp.try_get(&r).unwrap().ix.unwrap();
    assert_eq!(stored.try_get(&r).unwrap().tag, 42);
}

#[test]
fn cross_region_transfer() {
    let mut ra: Region<Elem> = Region::new(10);
    let mut rb: Region<Elem> = Region::new(11);
    let e1 = ra.allocate(Elem::with_tag(1));
    let r1 = e1.root(&mut ra);
    ra.allocate(Elem::with_tag(2));
    ra.allocate(Elem::with_tag(3));
    ra.gc_into(&mut rb);
    assert!(rb.len() >= 1);
    // the surviving root now accesses its value through the destination
    assert_eq!(r1.try_get(&rb).unwrap().tag, 1);
    let i = r1.ix(&rb);
    assert_eq!(i.get(&rb).tag, 1);
}

#[test]
fn capacity_growth_triggers_collection() {
    let mut r: Region<Elem> = Region::new(0);
    let mut roots = Vec::new();
    let mut weaks = Vec::new();
    for i in 0..20u64 {
        let e = r.allocate(Elem::with_tag(i));
        if i % 2 == 0 {
            roots.push((i, e.root(&mut r)));
        } else {
            weaks.push(e.weak(&mut r));
        }
    }
    r.gc();
    // only the rooted objects remain
    assert_eq!(r.len(), roots.len());
    for (tag, root) in &roots {
        assert_eq!(root.try_get(&r).unwrap().tag, *tag);
    }
    for w in &weaks {
        assert!(w.try_get(&r).is_err());
    }
}

#[test]
fn ensure_reserves_capacity() {
    let mut r: Region<Elem> = Region::new(0);
    let ea = r.allocate(Elem::with_tag(5));
    let ra = ea.root(&mut r);
    r.ensure(5);
    assert!(r.capacity() >= r.len() + 5);
    // a weak-only sentinel would be reclaimed by any collection
    let es = r.allocate(Elem::with_tag(6));
    let ws = es.weak(&mut r);
    let cap = r.capacity();
    for i in 0..4u64 {
        r.allocate(Elem::with_tag(i));
        assert_eq!(r.capacity(), cap);
        assert!(ws.try_get(&r).is_ok());
    }
    assert_eq!(ra.try_get(&r).unwrap().tag, 5);
}

#[test]
fn gc_twice_unchanged() {
    let mut r: Region<Elem> = Region::new(0);
    let ea = r.allocate(Elem::with_tag(1));
    let ra = ea.root(&mut r);
    let eb = r.allocate(Elem::with_tag(2));
    let b_ix = eb.ix();
    ra.get_mut(&mut r).ix = Some(b_ix);
    let ec = r.allocate(Elem::with_tag(3));
    let wc = ec.weak(&mut r);

    r.gc();
    let len1 = r.len();
    let tags1: Vec<u64> = (0..r.len())
        .map(|i| moving_gc_arena::Ix::new(i).try_get(&r).unwrap().tag)
        .collect();

    r.gc();
    let len2 = r.len();
    let tags2: Vec<u64> = (0..r.len())
        .map(|i| moving_gc_arena::Ix::new(i).try_get(&r).unwrap().tag)
        .collect();

    assert_eq!(len1, len2);
    assert_eq!(tags1, tags2);
    assert_eq!(len1, 2);
    assert!(wc.try_get(&r).is_err());
    // the root's edge still reaches the same content
    assert_eq!(
        ra.try_get(&r).unwrap().ix.unwrap().try_get(&r).unwrap().tag,
        2
    );
}

#[test]
fn empty_region_gc_is_noop() {
    let mut r: Region<Elem> = Region::new(0);
    assert!(r.is_empty());
    r.gc();
    assert!(r.is_empty());
    assert_eq!(r.len(), 0);
}

#[test]
fn transfer_rewrites_edges_and_expires_orphans() {
    let mut ra: Region<Elem> = Region::new(20);
    let mut rb: Region<Elem> = Region::new(21);
    // give the destination some contents of its own first
    let eb0 = rb.allocate(Elem::with_tag(50));
    let rb0 = eb0.root(&mut rb);

    ra.ensure(3);
    let orphan = ra.allocate(Elem::with_tag(66));
    let w_orphan = orphan.weak(&mut ra);
    let ep = ra.allocate(Elem::with_tag(1));
    let rp = ep.root(&mut ra);
    let eq = ra.allocate(Elem::with_tag(2));
    let wq = eq.weak(&mut ra);
    let q_ix = eq.ix();
    rp.get_mut(&mut ra).ix = Some(q_ix);

    ra.gc_into(&mut rb);

    // the destination's own entry is untouched
    assert_eq!(rb0.try_get(&rb).unwrap().tag, 50);
    // the rooted chain survived the transfer; its edge was rewritten to
    // a location in the destination
    assert_eq!(rp.try_get(&rb).unwrap().tag, 1);
    let stored = rp.try_get(&rb).unwrap().ix.unwrap();
    assert_eq!(stored.try_get(&rb).unwrap().tag, 2);
    assert_eq!(wq.try_get(&rb).unwrap().tag, 2);
    // the weak-only orphan did not move; its handle reports expiry
    assert!(w_orphan.try_get(&rb).is_err());
    assert_eq!(rb.len(), 3);
}

#[test]
fn allocation_after_transfer_keeps_handles() {
    let mut ra: Region<Elem> = Region::new(30);
    let mut rb: Region<Elem> = Region::new(31);
    let e = ra.allocate(Elem::with_tag(9));
    let root = e.root(&mut ra);
    ra.gc_into(&mut rb);
    // force further collections in the destination
    for i in 0..10u64 {
        rb.allocate(Elem::with_tag(i));
    }
    rb.gc();
    assert_eq!(rb.len(), 1);
    assert_eq!(root.try_get(&rb).unwrap().tag, 9);
}
