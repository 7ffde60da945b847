use lockless_map::hasher;

#[derive(Debug)]
struct Key {
    value: u64,
    value2: u64,
}

#[test]
fn lib_test_hasher() {
    let key: Key = Key { value: 155, value2: 155 };
    let array: [u64; 2] = [15555555555555, 12345634567];

    let key_hash = hasher::generic_xxhash::<[u64; 2]>(&[key.value, key.value2]);
    let array_hash = hasher::generic_xxhash::<[u64; 2]>(&array);
    let hashu8 = hasher::generic_xxhash::<u8>(&10u8);
    let hashu16 = hasher::generic_xxhash::<u16>(&10u16);
    let hashu32 = hasher::generic_xxhash::<u32>(&10u32);
    let hashu64 = hasher::generic_xxhash::<u64>(&10u64);

    assert_eq!(hashu8, hasher::generic_xxhash::<u8>(&10u8));
    assert_eq!(hashu16, hasher::generic_xxhash::<u16>(&10u16));
    assert_eq!(hashu32, hasher::generic_xxhash::<u32>(&10u32));
    assert_eq!(hashu64, hasher::generic_xxhash::<u64>(&10u64));
    assert_eq!(array_hash, hasher::generic_xxhash::<[u64; 2]>(&array));
    assert_eq!(key_hash, hasher::generic_xxhash::<[u64; 2]>(&[key.value, key.value2]));
    println!("{:?}", key);
}

#[test]
fn main_test_hasher() {
    let key: Key = Key { value: 155, value2: 155 };
    let array: [u64; 2] = [15555555555555, 12345634567];

    let key_hash = hasher::generic_xxhash::<[u64; 2]>(&[key.value, key.value2]);
    let array_hash = hasher::generic_xxhash::<[u64; 2]>(&array);
    let hashu8 = hasher::generic_xxhash::<u8>(&10u8);
    let hashu16 = hasher::generic_xxhash::<u16>(&10u16);
    let hashu32 = hasher::generic_xxhash::<u32>(&10u32);
    let hashu64 = hasher::generic_xxhash::<u64>(&10u64);

    assert_eq!(hashu8, hasher::generic_xxhash::<u8>(&10u8));
    assert_eq!(hashu16, hasher::generic_xxhash::<u16>(&10u16));
    assert_eq!(hashu32, hasher::generic_xxhash::<u32>(&10u32));
    assert_eq!(hashu64, hasher::generic_xxhash::<u64>(&10u64));
    assert_eq!(array_hash, hasher::generic_xxhash::<[u64; 2]>(&array));
    assert_eq!(key_hash, hasher::generic_xxhash::<[u64; 2]>(&[key.value, key.value2]));
    println!("{:?}", key);
}

#[test]
fn xxhash_exact_values() {
    assert_eq!(hasher::xxhash(0), 8000355573975644306);
    assert_eq!(hasher::xxhash(10), 4622188024571296344);
    assert_eq!(hasher::xxhash(155), 3281828947120932504);
    assert_eq!(hasher::xxhash(6), 4495601214998984417);
}

#[test]
fn single_word_keys_hash_as_their_word() {
    assert_eq!(hasher::generic_xxhash(&10u8), hasher::xxhash(10));
    assert_eq!(hasher::generic_xxhash(&10u16), hasher::xxhash(10));
    assert_eq!(hasher::generic_xxhash(&10u32), 4622188024571296344);
    assert_eq!(hasher::generic_xxhash(&10u64), hasher::xxhash(10));
}

#[test]
fn array_keys_hash_as_xor_of_words() {
    assert_eq!(hasher::generic_xxhash(&[15555555555555u64, 12345634567]), 1701619245801581191);
    assert_eq!(hasher::generic_xxhash(&[155u64, 155]), 0);
    let empty: [u64; 0] = [];
    assert_eq!(hasher::generic_xxhash(&empty), 0);
}
