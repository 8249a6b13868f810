use moving_gc_arena::{Elem, Error, Region};

#[test]
fn index_errors_are_indeterminable() {
    let mut r: Region<Elem> = Region::new(0);
    r.allocate(Elem::with_tag(1));
    let stale = moving_gc_arena::Ix::<Elem>::new(5);
    assert_eq!(stale.try_get(&r).unwrap_err(), Error::Indeterminable);
    assert_eq!(stale.try_get_mut(&mut r).unwrap_err(), Error::Indeterminable);
    assert_eq!(stale.check_region(&r).unwrap_err(), Error::Indeterminable);
    let good = moving_gc_arena::Ix::<Elem>::new(0);
    assert!(good.check_region(&r).is_ok());
    assert_eq!(good.identifier(), 0);
}

#[test]
fn wrong_region_root_is_detected() {
    let mut r1: Region<Elem> = Region::new(1);
    let r2: Region<Elem> = Region::new(2);
    let e = r1.allocate(Elem::with_tag(9));
    let root = e.root(&mut r1);
    assert_eq!(root.try_get(&r2).unwrap_err(), Error::IncorrectRegion);
    assert_eq!(root.try_get(&r1).unwrap().tag, 9);
}

#[test]
fn weak_on_wrong_region_expires() {
    let mut r1: Region<Elem> = Region::new(1);
    let r2: Region<Elem> = Region::new(2);
    let e = r1.allocate(Elem::with_tag(9));
    let w = e.weak(&mut r1);
    assert_eq!(w.try_get(&r2).unwrap_err(), Error::EntryExpired);
    assert!(w.ix(&r2).is_none());
}

#[test]
fn handle_accessors_agree() {
    let mut r: Region<Elem> = Region::new(0);
    let e = r.allocate(Elem::with_tag(3));
    assert_eq!(e.get(&r).tag, 3);
    assert_eq!(e.as_ref(&r).tag, 3);
    e.get_mut(&mut r).tag = 4;
    assert_eq!(e.as_ref(&r).tag, 4);
    e.as_mut_ref(&mut r).tag = 5;
    let ix = e.ix();
    assert_eq!(ix.get(&r).tag, 5);
    ix.get_mut(&mut r).tag = 6;
    assert_eq!(ix.try_get(&r).unwrap().tag, 6);

    let root = e.root(&mut r);
    let w = e.weak(&mut r);
    assert_eq!(root.get(&r).tag, 6);
    root.get_mut(&mut r).tag = 7;
    assert_eq!(w.get(&r).tag, 7);
    w.get_mut(&mut r).tag = 8;
    assert_eq!(w.try_get_mut(&mut r).unwrap().tag, 8);
    assert_eq!(root.try_get_mut(&mut r).unwrap().tag, 8);
    assert_eq!(root.ix(&r).identifier(), w.ix(&r).unwrap().identifier());
    r.drop_root(root);
    r.drop_weak(w);
}

#[test]
fn second_root_shares_the_anchor() {
    let mut r: Region<Elem> = Region::new(0);
    let e = r.allocate(Elem::with_tag(1));
    let root1 = e.root(&mut r);
    let root2 = e.root(&mut r);
    // releasing one root keeps the object live through the other
    r.drop_root(root1);
    r.gc();
    assert_eq!(root2.try_get(&r).unwrap().tag, 1);
    // releasing the last one lets a collection reclaim it
    r.drop_root(root2);
    r.gc();
    assert!(r.is_empty());
}

#[test]
fn cloned_root_keeps_target_live() {
    let mut r: Region<Elem> = Region::new(0);
    let e = r.allocate(Elem::with_tag(2));
    let root1 = e.root(&mut r);
    let root2 = r.clone_root(&root1);
    r.drop_root(root1);
    r.gc();
    assert_eq!(root2.try_get(&r).unwrap().tag, 2);
    r.drop_root(root2);
    r.gc();
    assert!(r.is_empty());
}

#[test]
fn cloned_weak_observes_same_anchor() {
    let mut r: Region<Elem> = Region::new(0);
    let e = r.allocate(Elem::with_tag(2));
    let root = e.root(&mut r);
    let w1 = e.weak(&mut r);
    let w2 = r.clone_weak(&w1);
    r.gc();
    assert_eq!(w1.try_get(&r).unwrap().tag, 2);
    assert_eq!(w2.try_get(&r).unwrap().tag, 2);
    r.drop_weak(w1);
    r.drop_root(root);
    r.gc();
    assert!(w2.try_get(&r).is_err());
}

#[test]
fn error_values_are_distinct() {
    assert_ne!(Error::Indeterminable, Error::IncorrectRegion);
    assert_ne!(Error::EntryExpired, Error::UnexpectedInternalState);
    let shown = format!("{:?}", Error::UnexpectedInternalState);
    assert!(shown.contains("UnexpectedInternalState"));
}

#[test]
fn edges_are_rewritten_to_destinations() {
    // after a collection the stored index must equal the destination
    // offset of its target, not the old one
    let mut r: Region<Elem> = Region::new(0);
    // reserve room so no collection runs before the explicit one
    r.ensure(4);
    let filler = r.allocate(Elem::with_tag(100));
    let _w = filler.weak(&mut r);
    let ea = r.allocate(Elem::with_tag(1));
    let ra = ea.root(&mut r);
    let eb = r.allocate(Elem::with_tag(2));
    let rb = eb.root(&mut r);
    let b_ix = eb.ix();
    ra.get_mut(&mut r).ix = Some(b_ix);
    let old_id = b_ix.identifier();
    r.gc();
    // the filler was reclaimed, so positions shifted
    assert_eq!(r.len(), 2);
    let stored = ra.try_get(&r).unwrap().ix.unwrap();
    assert_ne!(stored.identifier(), old_id);
    assert_eq!(stored.identifier(), rb.ix(&r).identifier());
    assert_eq!(stored.try_get(&r).unwrap().tag, 2);
}

#[test]
fn errors_describe_themselves() {
    assert_eq!(Error::Indeterminable.describe(), "invalid index");
    assert_eq!(Error::IncorrectRegion.describe(), "incorrect region for index");
    assert_eq!(Error::EntryExpired.describe(), "index expired");
    assert_eq!(
        Error::UnexpectedInternalState.describe(),
        "correct region has invalid internal state"
    );
}
