use keep::{Domain, Keep};

#[test]
fn keep_roundtrip() {
    let mut dom = Domain::new();
    let keep_a = Keep::new(&mut dom, 39);
    assert_eq!(39, *keep_a.read(&mut dom).value(&dom));
}

#[test]
fn read_twice() {
    let mut dom = Domain::new();
    let keep = Keep::new(&mut dom, 39);
    assert_eq!(39, *keep.read(&mut dom).value(&dom));
    assert_eq!(39, *keep.read(&mut dom).value(&dom));
}

#[test]
fn keep_swapping() {
    let mut dom = Domain::new();
    let mut keep_a = Keep::new(&mut dom, 39);
    let mut keep_b = Keep::new(&mut dom, 2);

    assert_eq!(39, *keep_a.read(&mut dom).value(&dom));
    assert_eq!(2, *keep_b.read(&mut dom).value(&dom));

    keep_a.swap_with(&mut keep_b, &mut dom);

    assert_eq!(2, *keep_a.read(&mut dom).value(&dom));
    assert_eq!(39, *keep_b.read(&mut dom).value(&dom));

    keep_a.release(&mut dom);

    assert_eq!(39, *keep_b.read(&mut dom).value(&dom));
}

#[test]
fn keep_clone() {
    let mut dom = Domain::new();
    let original = Keep::new(&mut dom, 39);
    let cloned = original.duplicate(&mut dom);

    assert_eq!(39, *cloned.read(&mut dom).value(&dom));
    original.release(&mut dom);
    assert_eq!(39, *cloned.read(&mut dom).value(&dom));
}

#[test]
fn guards_keep_value_alive() {
    let mut dom = Domain::new();
    let keep = Keep::new(&mut dom, 39);
    let guard = keep.read(&mut dom);

    keep.release(&mut dom);
    assert_eq!(39, *guard.value(&dom));
}

#[test]
fn correct_drop_behavior() {
    // Drop guard first
    {
        let mut dom = Domain::new();
        let keep = Keep::new(&mut dom, 39);
        let guard = keep.read(&mut dom);
        guard.release(&mut dom);
        assert_eq!(39, *keep.read(&mut dom).value(&dom));
        keep.release(&mut dom);
    }

    // Drop keep first
    {
        let mut dom = Domain::new();
        let keep = Keep::new(&mut dom, 39);
        let guard = keep.read(&mut dom);
        keep.release(&mut dom);
        assert_eq!(39, *guard.value(&dom));
        guard.release(&mut dom);
    }
}

#[test]
fn multiple_guards_outlive_keep() {
    let mut dom = Domain::new();
    let keep = Keep::new(&mut dom, 39);

    let guard_a = keep.read(&mut dom);
    let guard_b = keep.read(&mut dom);
    let guard_c = keep.read(&mut dom);

    keep.release(&mut dom);

    let guard_d = guard_b.duplicate(&mut dom);

    assert_eq!(39, *guard_a.value(&dom));
    assert_eq!(39, *guard_b.value(&dom));
    assert_eq!(39, *guard_c.value(&dom));
    assert_eq!(39, *guard_d.value(&dom));
}

#[test]
fn multiple_guards() {
    let mut dom = Domain::new();
    let keep = Keep::new(&mut dom, 39);

    // Making sure that the guards go before the keep, using this scope
    {
        let guard_a = keep.read(&mut dom);
        let guard_b = keep.read(&mut dom);
        let guard_c = keep.read(&mut dom);
        let guard_d = guard_b.duplicate(&mut dom);

        assert_eq!(39, *guard_a.value(&dom));
        assert_eq!(39, *guard_b.value(&dom));
        assert_eq!(39, *guard_c.value(&dom));
        assert_eq!(39, *guard_d.value(&dom));

        guard_a.release(&mut dom);
        guard_b.release(&mut dom);
        guard_c.release(&mut dom);
        guard_d.release(&mut dom);
    }

    keep.release(&mut dom);
}

#[test]
fn write() {
    let mut dom = Domain::new();
    let keep = Keep::new(&mut dom, 39);

    let old = keep.read(&mut dom);
    keep.write(&mut dom, 14);
    let new = keep.read(&mut dom);

    assert_eq!(39, *old.value(&dom));
    assert_eq!(14, *new.value(&dom));
}

#[test]
fn swap() {
    let mut dom = Domain::new();
    let keep = Keep::new(&mut dom, 39);

    let old = keep.swap(&mut dom, 14);
    let new = keep.read(&mut dom);

    assert_eq!(39, *old.value(&dom));
    assert_eq!(14, *new.value(&dom));
}

#[test]
fn exchange() {
    let mut dom_ok = Domain::new();
    let mut dom_err = Domain::new();
    let keep_ok = Keep::new(&mut dom_ok, 39);
    let keep_err = Keep::new(&mut dom_err, "mk");

    let guard_ok = keep_ok.read(&mut dom_ok);
    let guard_err = keep_err.swap(&mut dom_err, "???");

    let ok = keep_ok.exchange(&mut dom_ok, &guard_ok, 10).unwrap();
    let err = keep_err.exchange(&mut dom_err, &guard_err, "oh no...").unwrap_err();

    assert_eq!(10, *keep_ok.read(&mut dom_ok).value(&dom_ok));
    assert_eq!("???", *keep_err.read(&mut dom_err).value(&dom_err));

    assert_eq!(39, *ok.value(&dom_ok));
    assert_eq!("???", *err.value(&dom_err));
}

#[test]
fn write_while_readers_outstanding() {
    let mut dom = Domain::new();
    let keep = Keep::new(&mut dom, "a");
    let guard = keep.read(&mut dom);
    keep.write(&mut dom, "b");
    assert_eq!("a", *guard.value(&dom));
    assert_eq!("b", *keep.read(&mut dom).value(&dom));
    guard.release(&mut dom);
    keep.release(&mut dom);
}

#[test]
fn swap_with_relabels_not_values() {
    let mut dom = Domain::new();
    let mut k1 = Keep::new(&mut dom, 1);
    let mut k2 = Keep::new(&mut dom, 2);
    k1.swap_with(&mut k2, &mut dom);
    assert_eq!(2, *k1.read(&mut dom).value(&dom));
    assert_eq!(1, *k2.read(&mut dom).value(&dom));
    k1.release(&mut dom);
    assert_eq!(1, *k2.read(&mut dom).value(&dom));
}

#[test]
fn swap_with_twice_restores() {
    let mut dom = Domain::new();
    let mut k1 = Keep::new(&mut dom, 1);
    let mut k2 = Keep::new(&mut dom, 2);
    k1.swap_with(&mut k2, &mut dom);
    k1.swap_with(&mut k2, &mut dom);
    assert_eq!(1, *k1.read(&mut dom).value(&dom));
    assert_eq!(2, *k2.read(&mut dom).value(&dom));
}

#[test]
fn exchange_failure_path() {
    let mut dom = Domain::new();
    let keep = Keep::new(&mut dom, 10);
    let guard = keep.read(&mut dom);
    keep.write(&mut dom, 20);
    let r = keep.exchange(&mut dom, &guard, 30);
    let err = r.unwrap_err();
    assert_eq!(20, *err.value(&dom));
    assert_eq!(20, *keep.read(&mut dom).value(&dom));
}

#[test]
fn exchange_precision() {
    let mut dom = Domain::new();
    let keep = Keep::new(&mut dom, 1);
    let guard = keep.read(&mut dom);
    // nothing moved the cell since `guard` was taken: the exchange lands
    let first = keep.exchange(&mut dom, &guard, 2);
    assert_eq!(1, *first.unwrap().value(&dom));
    // the same guard is stale now: the exchange refuses
    let second = keep.exchange(&mut dom, &guard, 3);
    let err = second.unwrap_err();
    assert_eq!(2, *err.value(&dom));
    assert_eq!(2, *keep.read(&mut dom).value(&dom));
}

#[test]
fn marker_exchange_with() {
    let mut dom = Domain::new();
    let mut k1 = Keep::new(&mut dom, 7);
    let mut k2 = Keep::new(&mut dom, 8);
    let marker = k1.mark();
    assert!(k1.exchange_with(marker, &mut k2, &mut dom).is_ok());
    assert_eq!(8, *k1.read(&mut dom).value(&dom));
    assert_eq!(7, *k2.read(&mut dom).value(&dom));
    // the remembered name is stale now
    let stale = k1.exchange_with(marker, &mut k2, &mut dom);
    assert!(stale.is_err());
    assert_eq!(8, *k1.read(&mut dom).value(&dom));
}

#[test]
fn guard_clone_independent() {
    let mut dom = Domain::new();
    let keep = Keep::new(&mut dom, 39);
    let guard = keep.read(&mut dom);
    let copy = guard.duplicate(&mut dom);
    guard.release(&mut dom);
    assert_eq!(39, *copy.value(&dom));
    keep.write(&mut dom, 40);
    assert_eq!(39, *copy.value(&dom));
}

#[test]
fn guard_reload() {
    let mut dom = Domain::new();
    let keep = Keep::new(&mut dom, 1);
    let mut guard = keep.read(&mut dom);
    guard.write(&mut dom, 2);
    assert_eq!(1, *guard.value(&dom));
    guard.reload(&mut dom);
    assert_eq!(2, *guard.value(&dom));
    let newer = guard.read(&mut dom);
    assert_eq!(2, *newer.value(&dom));
}

#[test]
fn no_leak_after_drop() {
    // once every keep and every guard is gone, the domain holds nothing
    let mut dom = Domain::new();
    let k = Keep::new(&mut dom, 39);
    let k2 = k.duplicate(&mut dom);
    let g = k.read(&mut dom);
    let g2 = g.duplicate(&mut dom);
    k.release(&mut dom);
    g.release(&mut dom);
    k2.release(&mut dom);
    g2.release(&mut dom);
    assert!(dom.cells.iter().all(|c| c.is_none()));
}

#[test]
fn value_reclaimed_when_last_reader_leaves() {
    let mut dom = Domain::new();
    let k = Keep::new(&mut dom, 1);
    let g = k.read(&mut dom);
    k.write(&mut dom, 2);

    let live_slots = |dom: &Domain<i32>| {
        dom.cells[0]
            .as_ref()
            .map(|cell| cell.slots.iter().filter(|s| s.is_some()).count())
            .unwrap_or(0)
    };

    // the displaced value survives while its reader does
    assert_eq!(2, live_slots(&dom));
    g.release(&mut dom);
    assert_eq!(1, live_slots(&dom));
}
