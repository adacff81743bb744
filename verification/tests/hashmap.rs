use epoch_map::hashmap::Hashmap;

#[test]
fn hashmap_handle_cloning() {
    let (mut map, handle) = Hashmap::with_capacity(8);
    println!("{:?}", handle.epoch(&map));
    handle.insert(&mut map, 1, 3);
    assert_eq!(handle.get(&mut map, 1).unwrap(), 3);

    //create a new handle
    let new_handle = handle.clone(&mut map);
    assert_eq!(new_handle.get(&mut map, 1).unwrap(), 3);
    new_handle.insert(&mut map, 2, 5);

    assert_eq!(handle.get(&mut map, 2).unwrap(), 5);
}

#[test]
fn hashmap_delete() {
    let (mut map, handle) = Hashmap::with_capacity(8);
    handle.insert(&mut map, 1, 3);
    handle.insert(&mut map, 2, 5);
    handle.insert(&mut map, 3, 8);
    handle.insert(&mut map, 4, 3);
    handle.insert(&mut map, 5, 4);
    handle.insert(&mut map, 6, 5);
    handle.insert(&mut map, 7, 3);
    handle.insert(&mut map, 8, 3);
    handle.insert(&mut map, 9, 3);
    handle.insert(&mut map, 10, 3);
    handle.insert(&mut map, 11, 3);
    handle.insert(&mut map, 12, 3);
    handle.insert(&mut map, 13, 3);
    handle.insert(&mut map, 14, 3);
    handle.insert(&mut map, 15, 3);
    handle.insert(&mut map, 16, 3);
    assert_eq!(handle.get(&mut map, 1).unwrap(), 3);
    assert_eq!(handle.delete(&mut map, 1).unwrap(), 3);
    assert_eq!(handle.get(&mut map, 1), None);
    assert_eq!(handle.delete(&mut map, 2).unwrap(), 5);
    assert_eq!(handle.delete(&mut map, 16).unwrap(), 3);
    assert_eq!(handle.get(&mut map, 16), None);
}

#[test]
fn hashmap_basics() {
    let (mut map, new_hashmap) = Hashmap::with_capacity(8);
    //input values
    new_hashmap.insert(&mut map, 1, 1);
    new_hashmap.insert(&mut map, 2, 5);
    new_hashmap.insert(&mut map, 12, 5);
    new_hashmap.insert(&mut map, 13, 7);
    new_hashmap.insert(&mut map, 0, 0);

    new_hashmap.insert(&mut map, 20, 3);
    new_hashmap.insert(&mut map, 3, 2);
    new_hashmap.insert(&mut map, 4, 1);

    assert_eq!(new_hashmap.insert(&mut map, 20, 5).unwrap(), 3); //repeated
    assert_eq!(new_hashmap.insert(&mut map, 3, 8).unwrap(), 2); //repeated
    assert_eq!(new_hashmap.insert(&mut map, 5, 5), None); //repeated

    assert_eq!(map.nitems(), 9);

    new_hashmap.insert(&mut map, 3, 8); //repeated

    assert_eq!(new_hashmap.get(&mut map, 20).unwrap(), 5);
    assert_eq!(new_hashmap.get(&mut map, 12).unwrap(), 5);
    assert_eq!(new_hashmap.get(&mut map, 1).unwrap(), 1);
    assert_eq!(new_hashmap.get(&mut map, 0).unwrap(), 0);
    assert!(new_hashmap.get(&mut map, 3).unwrap() != 2); // test that it changed

    // try the same assert_eqs
    assert_eq!(new_hashmap.get(&mut map, 20).unwrap(), 5);
    assert_eq!(new_hashmap.get(&mut map, 12).unwrap(), 5);
    assert_eq!(new_hashmap.get(&mut map, 1).unwrap(), 1);
    assert_eq!(new_hashmap.get(&mut map, 0).unwrap(), 0);
    assert!(new_hashmap.get(&mut map, 3).unwrap() != 2); // test that it changed
    assert_eq!(new_hashmap.get(&mut map, 3), Some(8));
}

#[test]
fn hashmap_starts_empty() {
    let (mut map, handle) = Hashmap::with_capacity(1);
    assert_eq!(map.nitems(), 0);
    assert_eq!(handle.epoch(&map), 0);
    assert!(map.is_compact());
    assert_eq!(handle.get(&mut map, 0), None);
    assert_eq!(handle.delete(&mut map, 0), None);
    assert_eq!(map.nitems(), 0);
}

#[test]
fn hashmap_single_bucket_holds_every_key() {
    let (mut map, handle) = Hashmap::with_capacity(1);
    let mut key: u64 = 0;
    while key < 50 {
        assert_eq!(handle.insert(&mut map, key, key * 2), None);
        key += 1;
    }
    assert_eq!(map.nitems(), 50);
    key = 0;
    while key < 50 {
        assert_eq!(handle.get(&mut map, key), Some(key * 2));
        key += 1;
    }
    assert_eq!(handle.get(&mut map, 50), None);
}

#[test]
fn hashmap_extreme_keys_and_values() {
    let (mut map, handle) = Hashmap::with_capacity(3);
    assert_eq!(handle.insert(&mut map, u64::MAX, u64::MAX), None);
    assert_eq!(handle.insert(&mut map, 0, u64::MAX), None);
    assert_eq!(handle.get(&mut map, u64::MAX), Some(u64::MAX));
    assert_eq!(handle.insert(&mut map, u64::MAX, 0), Some(u64::MAX));
    assert_eq!(handle.delete(&mut map, u64::MAX), Some(0));
    assert_eq!(handle.get(&mut map, 0), Some(u64::MAX));
    assert_eq!(map.nitems(), 1);
}

#[test]
fn hashmap_matches_reference_mapping() {
    // A mixed run against an array that keeps the last value written per key.
    let (mut map, handle) = Hashmap::with_capacity(8);
    let mut reference: Vec<Option<u64>> = vec![None; 32];
    let mut state: u64 = 0x2545_f491_4f6c_dd1d;
    let mut count: usize = 0;
    let mut step = 0;
    while step < 5000 {
        state = state.wrapping_mul(6364136223846793005).wrapping_add(1442695040888963407);
        let key = (state >> 33) % 32;
        let choice = (state >> 20) % 3;
        let slot = key as usize;
        if choice == 0 {
            let value = state >> 40;
            assert_eq!(handle.insert(&mut map, key, value), reference[slot]);
            if reference[slot].is_none() {
                count += 1;
            }
            reference[slot] = Some(value);
        } else if choice == 1 {
            assert_eq!(handle.get(&mut map, key), reference[slot]);
        } else {
            assert_eq!(handle.delete(&mut map, key), reference[slot]);
            if reference[slot].is_some() {
                count -= 1;
            }
            reference[slot] = None;
        }
        assert_eq!(map.nitems(), count);
        assert!(map.is_compact());
        step += 1;
    }
    assert_eq!(handle.epoch(&map), 10000);
}

#[test]
fn hashmap_replacement_keeps_count() {
    let (mut map, handle) = Hashmap::with_capacity(4);
    assert_eq!(handle.insert(&mut map, 7, 10), None);
    assert_eq!(map.nitems(), 1);
    assert_eq!(handle.insert(&mut map, 7, 11), Some(10));
    assert_eq!(handle.get(&mut map, 7), Some(11));
    assert_eq!(map.nitems(), 1);
}

#[test]
fn hashmap_delete_returns_current() {
    let (mut map, handle) = Hashmap::with_capacity(4);
    handle.insert(&mut map, 1, 100);
    handle.insert(&mut map, 7, 10);
    assert_eq!(map.nitems(), 2);
    assert_eq!(handle.delete(&mut map, 7), Some(10));
    assert_eq!(handle.get(&mut map, 7), None);
    assert_eq!(map.nitems(), 1);
    assert_eq!(handle.get(&mut map, 1), Some(100));
}

#[test]
fn hashmap_second_delete_changes_nothing() {
    let (mut map, handle) = Hashmap::with_capacity(4);
    handle.insert(&mut map, 1, 100);
    handle.insert(&mut map, 7, 10);
    assert_eq!(handle.delete(&mut map, 7), Some(10));
    assert_eq!(map.nitems(), 1);
    assert_eq!(handle.delete(&mut map, 7), None);
    assert_eq!(map.nitems(), 1);
    assert_eq!(handle.get(&mut map, 1), Some(100));
}

#[test]
fn hashmap_epoch_is_twice_the_operations() {
    let (mut map, handle) = Hashmap::with_capacity(8);
    assert_eq!(handle.epoch(&map), 0);
    handle.insert(&mut map, 1, 1);
    assert_eq!(handle.epoch(&map), 2);
    handle.get(&mut map, 1);
    assert_eq!(handle.epoch(&map), 4);
    handle.get(&mut map, 2);
    assert_eq!(handle.epoch(&map), 6);
    handle.insert(&mut map, 1, 2);
    assert_eq!(handle.epoch(&map), 8);
    handle.delete(&mut map, 1);
    assert_eq!(handle.epoch(&map), 10);
    handle.delete(&mut map, 1);
    assert_eq!(handle.epoch(&map), 12);
}

#[test]
fn hashmap_clone_has_its_own_counter() {
    let (mut map, first) = Hashmap::with_capacity(8);
    first.insert(&mut map, 1, 1);
    first.insert(&mut map, 2, 2);
    let second = first.clone(&mut map);
    assert_eq!(second.epoch(&map), 0);
    assert_eq!(first.epoch(&map), 4);
    second.delete(&mut map, 1);
    assert_eq!(second.epoch(&map), 2);
    assert_eq!(first.epoch(&map), 4);
    assert_eq!(first.get(&mut map, 1), None);
    assert_eq!(first.epoch(&map), 6);
    assert_eq!(map.nitems(), 1);
}

#[test]
fn hashmap_retired_nodes_are_freed() {
    let (mut map, handle) = Hashmap::with_capacity(2);
    let mut round: u64 = 0;
    while round < 100 {
        handle.insert(&mut map, round % 5, round);
        assert!(map.is_compact());
        round += 1;
    }
    let mut key: u64 = 0;
    while key < 5 {
        assert_eq!(handle.delete(&mut map, key), Some(95 + key));
        assert!(map.is_compact());
        key += 1;
    }
    assert_eq!(map.nitems(), 0);
}

#[test]
fn hashmap_handles_taking_turns() {
    // Five handles, 100000 operations each, on keys below 128; every
    // insertion binds a key to itself.
    let (mut map, first) = Hashmap::with_capacity(8);
    let mut handles = Vec::new();
    let mut made = 0;
    while made < 5 {
        handles.push(first.clone(&mut map));
        made += 1;
    }
    let num_iterations: usize = 100000;
    let mut state: u64 = 88172645463325252;
    let mut round = 0;
    while round < num_iterations {
        for new_handle in handles.iter() {
            state ^= state << 13;
            state ^= state >> 7;
            state ^= state << 17;
            let val = (state >> 8) % 128;
            let two = (state >> 32) % 3;
            if two == 0 {
                new_handle.insert(&mut map, val, val);
            } else if two == 1 {
                let v = new_handle.get(&mut map, val);
                if v.is_some() {
                    assert_eq!(v.unwrap(), val);
                }
            } else {
                new_handle.delete(&mut map, val);
            }
        }
        round += 1;
    }
    for new_handle in handles.iter() {
        assert_eq!(new_handle.epoch(&map), num_iterations * 2);
    }
    assert_eq!(first.epoch(&map), 0);
    assert!(map.is_compact());
    assert!(map.nitems() <= 128);
}
