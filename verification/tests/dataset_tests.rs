use lockless_map::dataset::{create_ordered_dataset, create_random_dataset};
use lockless_map::LocklessMap;

fn is_value(s: &str) -> bool {
    s.len() == 30 && s.chars().all(|c| c.is_ascii_alphanumeric())
}

#[test]
fn ordered_dataset_has_keys_in_order() {
    let data = create_ordered_dataset(100);
    assert_eq!(data.len(), 100);
    for (i, (k, v)) in data.iter().enumerate() {
        assert_eq!(*k, i);
        assert!(is_value(v));
    }
    assert_eq!(create_ordered_dataset(0).len(), 0);
}

#[test]
fn random_dataset_keys_are_in_range() {
    let data = create_random_dataset(200);
    assert_eq!(data.len(), 200);
    for (k, v) in data.iter() {
        assert!(*k < 10000);
        assert!(is_value(v));
    }
}

#[test]
fn ordered_dataset_fills_a_map() {
    let data = create_ordered_dataset(1000);
    let mut map = LocklessMap::<u32, String>::with_capacity(1000);
    for (k, v) in data.iter() {
        map.insert(*k as u32, v.clone());
    }
    assert_eq!(map.size(), 1000);
    assert_eq!(map.get(&999), Some(&data[999].1));
}
