use lockless_map::LocklessMap;

#[test]
fn lib_test_basic_methods() {
    const CAPACITY: usize = 66;
    let mut map = LocklessMap::<u32, u32>::with_capacity(CAPACITY);

    map.insert(6, 6666);
    map.insert(6, 6666);
    assert_eq!(1, map.size());
    assert_eq!(*map.get(&6).unwrap(), 6666);
    assert_eq!(map.contains_key(&6), true);
    map.remove(&6);
    assert_eq!(map.contains_key(&6), false);

    map.insert(10, 1000);
    map.insert(11, 1001);
    map.insert(12, 1002);
    map.insert(13, 1002);
    map.insert(14, 1002);
    assert_eq!(5, map.size());
}

#[test]
fn main_test_basic_methods() {
    const CAPACITY: usize = 66;
    let mut map = LocklessMap::<u32, u32>::with_capacity(CAPACITY);

    map.insert(6, 6666);
    map.insert(6, 6666);
    assert_eq!(1, map.size());
    assert_eq!(*map.get(&6).unwrap(), 6666);
    assert_eq!(map.contains_key(&6), true);
    map.remove(&6);
    assert_eq!(map.contains_key(&6), false);

    map.insert(10, 1000);
    map.insert(11, 1001);
    map.insert(12, 1002);
    map.insert(13, 1002);
    map.insert(14, 1002);
    assert_eq!(5, map.size());
}

#[test]
fn lib_test_insert() {
    let mut map: LocklessMap<u32, u32> = LocklessMap::new();

    map.insert(10, 1000);
    map.insert(11, 1001);
    map.insert(12, 1002);
    assert_eq!(Some(&1000u32), map.get(&10));

    map.insert(10, 1001);
    assert_eq!(Some(&1001u32), map.get(&10));

    map.insert(10, 1001);
    assert_eq!(Some(&1001u32), map.get(&10));

    assert_eq!(3, map.size());
    assert_eq!(false, map.contains_key(&1));
    assert_eq!(true, map.contains_key(&10));
}

#[test]
fn main_test_insert() {
    let mut map: LocklessMap<u32, u32> = LocklessMap::new();

    map.insert(10, 1000);
    map.insert(11, 1001);
    map.insert(12, 1002);
    assert_eq!(Some(&1000u32), map.get(&10));

    map.insert(10, 1001);
    assert_eq!(Some(&1001u32), map.get(&10));

    map.insert(10, 1001);
    assert_eq!(Some(&1001u32), map.get(&10));

    assert_eq!(3, map.size());
    assert_eq!(false, map.contains_key(&1));
    assert_eq!(true, map.contains_key(&10));
}

#[test]
fn insert_returns_previous_value() {
    let mut map: LocklessMap<u32, u32> = LocklessMap::new();
    assert_eq!(map.insert(7, 70), None);
    assert_eq!(map.insert(7, 71), Some(70));
    assert_eq!(map.get(&7), Some(&71));
    assert_eq!(map.size(), 1);
}

#[test]
fn remove_returns_value_and_absent_gives_none() {
    let mut map: LocklessMap<u32, u32> = LocklessMap::with_capacity(4);
    map.insert(1, 100);
    map.insert(2, 200);
    assert_eq!(map.remove(&1), Some(100));
    assert_eq!(map.remove(&1), None);
    assert_eq!(map.remove(&3), None);
    assert_eq!(map.get(&2), Some(&200));
    assert_eq!(map.get(&1), None);
    assert_eq!(map.size(), 1);
}

#[test]
fn remove_undoes_insert_of_new_key() {
    let mut map: LocklessMap<u32, u32> = LocklessMap::with_capacity(3);
    map.insert(1, 10);
    map.insert(2, 20);
    map.insert(3, 30);
    map.remove(&3);
    assert_eq!(map.size(), 2);
    assert_eq!(map.get(&1), Some(&10));
    assert_eq!(map.get(&2), Some(&20));
    assert_eq!(map.contains_key(&3), false);
}

#[test]
fn new_map_is_empty_with_default_capacity() {
    let map: LocklessMap<u32, u32> = LocklessMap::new();
    assert_eq!(map.capacity(), 16);
    assert_eq!(map.size(), 0);
    assert_eq!(map.contains_key(&0), false);
    let empty: LocklessMap<u64, u8> = LocklessMap::with_capacity(0);
    assert_eq!(empty.size(), 0);
    assert_eq!(empty.capacity(), 0);
}

#[test]
fn one_bucket_keeps_newest_first() {
    let mut map: LocklessMap<u32, u32> = LocklessMap::with_capacity(1);
    map.insert(1, 10);
    map.insert(2, 20);
    map.insert(3, 30);
    assert_eq!(map.bucket_entries(0), &[(3, 30), (2, 20), (1, 10)][..]);
    map.insert(2, 21);
    assert_eq!(map.bucket_entries(0), &[(2, 21), (3, 30), (1, 10)][..]);
    map.remove(&3);
    assert_eq!(map.bucket_entries(0), &[(2, 21), (1, 10)][..]);
}

#[test]
fn pairs_sit_in_the_bucket_of_their_hash() {
    let mut map: LocklessMap<u32, u32> = LocklessMap::with_capacity(7);
    for k in 0..50u32 {
        map.insert(k, k * 2);
    }
    assert_eq!(map.size(), 50);
    let mut total = 0;
    for b in 0..7usize {
        for pair in map.bucket_entries(b) {
            let h = lockless_map::hasher::generic_xxhash(&pair.0);
            assert_eq!((h as usize) % 7, b);
            assert_eq!(pair.1, pair.0 * 2);
            total += 1;
        }
    }
    assert_eq!(total, 50);
}

#[test]
fn put_data_later_pair_wins() {
    let mut map: LocklessMap<u32, String> = LocklessMap::with_capacity(5);
    let data = vec![
        (1u32, "one".to_string()),
        (2u32, "two".to_string()),
        (1u32, "uno".to_string()),
    ];
    map.put_data_into_map(data);
    assert_eq!(map.size(), 2);
    assert_eq!(map.get(&1), Some(&"uno".to_string()));
    assert_eq!(map.get(&2), Some(&"two".to_string()));
    map.put_data_into_map(Vec::new());
    assert_eq!(map.size(), 2);
}

#[test]
fn array_keys() {
    let mut map: LocklessMap<[u64; 2], u32> = LocklessMap::new();
    map.insert([1, 2], 12);
    map.insert([2, 1], 21);
    map.insert([1, 2], 13);
    assert_eq!(map.size(), 2);
    assert_eq!(map.get(&[1, 2]), Some(&13));
    assert_eq!(map.get(&[2, 1]), Some(&21));
    assert_eq!(map.get(&[1, 1]), None);
}
