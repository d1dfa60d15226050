use ord_hash_map::OrdHashMap;

#[test]
fn insert() {
    let mut map = OrdHashMap::new();

    map.insert(10, String::from("10"));

    map.insert(5, String::from("5"));

    assert_eq!(map.get(&10), Some(&String::from("10")));

    assert_eq!(map.get(&0), None);
}

#[test]
fn iter() {
    let mut map = OrdHashMap::new();

    map.insert(10, String::from("10"));

    map.insert(5, String::from("5"));

    map.insert(100, String::from("This is 100"));

    let mut i = map.iter();

    assert_eq!(i.next(), Some((10, &String::from("10"))));

    assert_eq!(i.next(), Some((5, &String::from("5"))));

    assert_eq!(i.next(), Some((100, &String::from("This is 100"))));

    assert_eq!(i.next(), None);
}

fn collect_entries(map: &OrdHashMap<String>) -> Vec<(u64, String)> {
    let mut out = Vec::new();
    let mut it = map.iter();
    while let Some((k, v)) = it.next() {
        out.push((k, v.clone()));
    }
    out
}

#[test]
fn order_preserved_over_many_inserts() {
    let keys: [u64; 6] = [9, 2, 7, 4, 1, 30];
    let mut map = OrdHashMap::new();
    for &k in keys.iter() {
        assert_eq!(map.insert(k, format!("v{k}")), None);
    }
    let got = collect_entries(&map);
    let want: Vec<(u64, String)> = keys.iter().map(|&k| (k, format!("v{k}"))).collect();
    assert_eq!(got, want);
}

#[test]
fn update_in_place_keeps_position() {
    let mut map = OrdHashMap::new();
    map.insert(1, String::from("one"));
    map.insert(2, String::from("two"));
    map.insert(3, String::from("three"));

    // Re-inserting the middle key hands back the old value...
    assert_eq!(map.insert(2, String::from("TWO")), Some(String::from("two")));

    // ...and changes only that entry, keeping the traversal order.
    let got = collect_entries(&map);
    assert_eq!(
        got,
        vec![
            (1, String::from("one")),
            (2, String::from("TWO")),
            (3, String::from("three")),
        ]
    );
}

#[test]
fn remove_head_middle_tail() {
    let mut map = OrdHashMap::new();
    for k in 1u64..=5 {
        map.insert(k, k.to_string());
    }

    // Middle: neighbours are bridged directly.
    assert_eq!(map.remove(&3), Some(String::from("3")));
    assert_eq!(
        collect_entries(&map),
        vec![
            (1, String::from("1")),
            (2, String::from("2")),
            (4, String::from("4")),
            (5, String::from("5")),
        ]
    );

    // Head: the former second entry becomes the head.
    assert_eq!(map.remove(&1), Some(String::from("1")));
    let after_head = collect_entries(&map);
    assert_eq!(after_head[0], (2, String::from("2")));
    assert_eq!(
        after_head,
        vec![(2, String::from("2")), (4, String::from("4")), (5, String::from("5"))]
    );

    // Tail: the former penultimate entry becomes the tail.
    assert_eq!(map.remove(&5), Some(String::from("5")));
    let after_tail = collect_entries(&map);
    assert_eq!(after_tail.last(), Some(&(4, String::from("4"))));
    assert_eq!(after_tail, vec![(2, String::from("2")), (4, String::from("4"))]);
}

#[test]
fn remove_only_entry_empties_the_map() {
    let mut map = OrdHashMap::new();
    map.insert(42, String::from("answer"));
    assert_eq!(map.remove(&42), Some(String::from("answer")));
    assert_eq!(collect_entries(&map), Vec::<(u64, String)>::new());
    // A fresh traversal of the emptied map also yields nothing.
    assert_eq!(map.iter().next(), None);
    // Appending afterwards starts a fresh order at the new key.
    map.insert(7, String::from("seven"));
    assert_eq!(collect_entries(&map), vec![(7, String::from("seven"))]);
}

#[test]
fn miss_leaves_map_unchanged() {
    let mut map = OrdHashMap::new();
    map.insert(1, String::from("one"));
    map.insert(2, String::from("two"));

    assert_eq!(map.get(&9), None);
    assert_eq!(map.remove(&9), None);
    assert_eq!(map.get_mut(&9), None);

    assert_eq!(
        collect_entries(&map),
        vec![(1, String::from("one")), (2, String::from("two"))]
    );
}

#[test]
fn round_trip_keeps_relative_order() {
    let mut map = OrdHashMap::new();
    for k in 0u64..8 {
        map.insert(k, k.to_string());
    }
    // Remove a non-adjacent subset.
    assert_eq!(map.remove(&1), Some(String::from("1")));
    assert_eq!(map.remove(&4), Some(String::from("4")));
    assert_eq!(map.remove(&6), Some(String::from("6")));

    let want: Vec<(u64, String)> =
        [0u64, 2, 3, 5, 7].iter().map(|&k| (k, k.to_string())).collect();
    assert_eq!(collect_entries(&map), want);
}

#[test]
fn scenario_insert_three_then_remove_two() {
    let mut map = OrdHashMap::new();
    map.insert(10, String::from("10"));
    map.insert(5, String::from("5"));
    map.insert(100, String::from("This is 100"));

    let mut i = map.iter();
    assert_eq!(i.next(), Some((10, &String::from("10"))));
    assert_eq!(i.next(), Some((5, &String::from("5"))));
    assert_eq!(i.next(), Some((100, &String::from("This is 100"))));
    assert_eq!(i.next(), None);
    // A spent cursor stays spent.
    assert_eq!(i.next(), None);

    map.remove(&5);
    assert_eq!(
        collect_entries(&map),
        vec![(10, String::from("10")), (100, String::from("This is 100"))]
    );

    // Removing the head: the traversal now starts at the remaining key.
    map.remove(&10);
    let mut j = map.iter();
    assert_eq!(j.next(), Some((100, &String::from("This is 100"))));
    assert_eq!(j.next(), None);
}

#[test]
fn get_mut_writes_through() {
    let mut map = OrdHashMap::new();
    map.insert(8, String::from("before"));
    map.insert(9, String::from("other"));

    match map.get_mut(&8) {
        Some(v) => *v = String::from("after"),
        None => panic!("key 8 must be present"),
    }

    // The write is visible through the map, and only that entry changed.
    assert_eq!(map.get(&8), Some(&String::from("after")));
    assert_eq!(
        collect_entries(&map),
        vec![(8, String::from("after")), (9, String::from("other"))]
    );
}

#[test]
fn construction_and_capacity() {
    let empty: OrdHashMap<String> = OrdHashMap::new();
    assert_eq!(empty.iter().next(), None);

    let defaulted: OrdHashMap<String> = OrdHashMap::default();
    assert_eq!(defaulted.iter().next(), None);

    let mut sized: OrdHashMap<String> = OrdHashMap::with_capacity(16);
    assert!(sized.capacity() >= 16);
    assert_eq!(sized.iter().next(), None);
    sized.insert(3, String::from("three"));
    assert_eq!(sized.get(&3), Some(&String::from("three")));
}
