use keep::PlugMap;

#[test]
fn look_and_feel() {
    let mut map = PlugMap::<usize, &str>::new();

    assert!(
        map.get(&39).is_none(),
        "Empty map did not return None on get(..)"
    );

    map.insert(39, "Briar");

    assert_eq!(
        Some("Briar"),
        map.get(&39).map(|v| *map.value(&v)),
        "get(..) did not return the current value"
    );

    let old = map.insert(39, "Miku").unwrap();
    assert_eq!("Briar", *map.value(&old));

    assert_eq!(
        Some("Miku"),
        map.get(&39).map(|v| *map.value(&v)),
        "get(..) did not return the current value"
    );
}

#[test]
fn remove() {
    let mut map = PlugMap::<u32, &str>::new();

    assert_eq!(None, map.remove(&39));
    map.insert(39, "Briar");
    assert_eq!(Some("Briar"), map.remove(&39).map(|g| *map.value(&g)));
    assert_eq!(None, map.remove(&39));
    assert_eq!(None, map.insert(39, "Other"));
    assert_eq!(Some("Other"), map.remove(&39).map(|g| *map.value(&g)));
    assert_eq!(None, map.remove(&39));
}

#[test]
fn many_entries() {
    let mut map = PlugMap::new();

    for i in 0..100 {
        map.insert(i, i.to_string());
    }

    assert_eq!(Some("39"), map.get(&39).as_ref().map(|g| map.value(g).as_str()));
    assert_eq!(Some("39"), map.remove(&39).as_ref().map(|g| map.value(g).as_str()));
    assert_eq!(None, map.remove(&39).as_ref().map(|g| map.value(g).as_str()));
    assert_eq!(None, map.get(&39));
    assert_eq!(Some("31"), map.get(&31).as_ref().map(|g| map.value(g).as_str()));
}

#[test]
fn map_insert_update_remove() {
    let mut m = PlugMap::<u64, &str>::new();
    assert!(m.insert(39, "a").is_none());
    let old = m.insert(39, "b").unwrap();
    assert_eq!("a", *m.value(&old));
    let got = m.get(&39).unwrap();
    assert_eq!("b", *m.value(&got));
    let gone = m.remove(&39).unwrap();
    assert_eq!("b", *m.value(&gone));
    assert!(m.get(&39).is_none());
}

#[test]
fn chain_collision() {
    // 100 keys over 16 bins: several keys share every bin
    let mut map = PlugMap::<u64, u64>::new();
    for i in 0..100 {
        map.insert(i, i * 10);
    }
    for i in 0..100 {
        assert_eq!(Some(i * 10), map.get(&i).map(|g| *map.value(&g)));
    }
    // overwrite a few and check the most recent value wins
    for i in 0..100 {
        if i % 3 == 0 {
            map.insert(i, i * 10 + 1);
        }
    }
    for i in 0..100 {
        let expected = if i % 3 == 0 { i * 10 + 1 } else { i * 10 };
        assert_eq!(Some(expected), map.get(&i).map(|g| *map.value(&g)));
    }
    // removing one interior key leaves every other entry intact
    assert_eq!(Some(500), map.remove(&50).map(|g| *map.value(&g)));
    assert_eq!(None, map.get(&50));
    for i in 0..100 {
        if i != 50 {
            let expected = if i % 3 == 0 { i * 10 + 1 } else { i * 10 };
            assert_eq!(Some(expected), map.get(&i).map(|g| *map.value(&g)));
        }
    }
}

#[test]
fn guards_survive_map_updates() {
    let mut map = PlugMap::<u32, u32>::new();
    map.insert(5, 500);
    let g = map.get(&5).unwrap();
    map.insert(5, 501);
    map.insert(6, 600);
    map.remove(&5);
    // the reader still sees the value that was current at read time
    assert_eq!(500, *map.value(&g));
}

#[test]
fn new_with_hasher_spreads() {
    let mut map = PlugMap::<i64, i64>::new_with_hasher(2, keep::PlainHasher);
    for i in -20i64..20 {
        map.insert(i, i);
    }
    for i in -20i64..20 {
        assert_eq!(Some(i), map.get(&i).map(|g| *map.value(&g)));
    }
}
