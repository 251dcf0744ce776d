use stable_kv::kv::{
    append, check_upgrade, del, get, get_available_space_size, get_bit_map, get_index_space,
    get_keys, get_size, post_upgrade, pre_upgrade, put,
};
use stable_kv::layout::KV_BLOCK_SIZE;
use stable_kv::stable::MAX_PAGE_BYTE;
use stable_kv::types::{KvError, Store};

#[test]
fn test_put() {}

#[test]
fn test_get() {}

#[test]
fn test_put_get() {}

#[test]
fn get_available_size() {
    let store = Store::default();
    get_available_space_size(&store);
}

#[test]
fn bit_test() {
    let byte = 2u8;
    if byte & 1 << 2 == 0 {
        println!("{}", 1)
    }
}

fn small_store() -> Store {
    // one reserved page and three pages of blocks: 384 blocks in all
    Store::new(MAX_PAGE_BYTE * 4, 1)
}

#[test]
fn round_trip() {
    let mut store = small_store();
    let key = "alpha".to_string();
    let value: Vec<u8> = (0..1000u32).map(|i| (i % 251) as u8).collect();
    put(&mut store, &key, value.clone()).unwrap();
    assert_eq!(get(&store, &key).unwrap(), value);
    assert_eq!(get_size(&store, &key), 1000);
}

#[test]
fn put_rejects_existing_key() {
    let mut store = small_store();
    let key = "k".to_string();
    put(&mut store, &key, vec![1, 2, 3]).unwrap();
    let r = put(&mut store, &key, vec![4, 5, 6]);
    assert!(matches!(r, Err(KvError::Other(_))));
    // the first value is untouched
    assert_eq!(get(&store, &key).unwrap(), vec![1, 2, 3]);
}

#[test]
fn put_rejects_empty_value() {
    let mut store = small_store();
    let key = "k".to_string();
    let r = put(&mut store, &key, Vec::new());
    assert!(matches!(r, Err(KvError::BlobSizeError)));
}

#[test]
fn get_unknown_key() {
    let store = small_store();
    let r = get(&store, &"missing".to_string());
    assert!(matches!(r, Err(KvError::InvalidKey)));
    assert_eq!(get_size(&store, &"missing".to_string()), 0);
}

#[test]
fn append_shorter_than_room() {
    let mut store = small_store();
    let key = "k".to_string();
    put(&mut store, &key, vec![0xAA; 600]).unwrap();
    append(&mut store, &key, vec![0xBB; 50]).unwrap();
    let mut expected = vec![0xAA; 600];
    expected.extend(vec![0xBB; 50]);
    assert_eq!(get(&store, &key).unwrap(), expected);
    assert_eq!(get_size(&store, &key), 650);
}

#[test]
fn append_equal_to_room() {
    let mut store = small_store();
    let key = "k".to_string();
    // fill is 88, so the final block has 424 bytes of room
    put(&mut store, &key, vec![0xAA; 600]).unwrap();
    append(&mut store, &key, vec![0xBB; 424]).unwrap();
    let mut expected = vec![0xAA; 600];
    expected.extend(vec![0xBB; 424]);
    assert_eq!(get(&store, &key).unwrap(), expected);
    assert_eq!(get_size(&store, &key), 1024);
    assert_eq!(store.kv.kv_set[0].1 .0.len(), 2);
    assert_eq!(store.kv.kv_set[0].1 .1, KV_BLOCK_SIZE);
}

#[test]
fn append_longer_than_room() {
    let mut store = small_store();
    let key = "k".to_string();
    put(&mut store, &key, vec![0xAA; 600]).unwrap();
    append(&mut store, &key, vec![0xBB; 500]).unwrap();
    let mut expected = vec![0xAA; 600];
    expected.extend(vec![0xBB; 500]);
    assert_eq!(get(&store, &key).unwrap(), expected);
    assert_eq!(get_size(&store, &key), 1100);
    assert_eq!(store.kv.kv_set[0].1 .0.len(), 3);
}

#[test]
fn append_absent_key_acts_as_put() {
    let mut store = small_store();
    let key = "k".to_string();
    append(&mut store, &key, vec![7; 100]).unwrap();
    assert_eq!(get(&store, &key).unwrap(), vec![7; 100]);
}

#[test]
fn worked_example() {
    let mut store = small_store();
    let key = "a".to_string();
    put(&mut store, &key, vec![0xAA; 600]).unwrap();
    assert_eq!(store.kv.kv_set[0].1 .0.len(), 2);
    assert_eq!(store.kv.kv_set[0].1 .1, 88);
    append(&mut store, &key, vec![0xBB; 50]).unwrap();
    assert_eq!(store.kv.kv_set[0].1 .0.len(), 2);
    assert_eq!(store.kv.kv_set[0].1 .1, 138);
    let got = get(&store, &key).unwrap();
    assert_eq!(got.len(), 650);
    assert!(got[..600].iter().all(|b| *b == 0xAA));
    assert!(got[600..].iter().all(|b| *b == 0xBB));
    assert_eq!(get_size(&store, &key), 650);
}

fn count_set_bits(map: &[u8]) -> u32 {
    map.iter().map(|b| b.count_ones()).sum()
}

#[test]
fn allocation_exclusivity() {
    let mut store = small_store();
    let before = get_bit_map(&store);
    assert_eq!(count_set_bits(&before), 0);
    put(&mut store, &"k".to_string(), vec![2; 1300]).unwrap();
    let after = get_bit_map(&store);
    // 1300 bytes need three blocks: exactly three previously clear bits set
    assert_eq!(count_set_bits(&after), 3);
    del(&mut store, &"k".to_string());
    let cleared = get_bit_map(&store);
    assert_eq!(before, cleared);
}

#[test]
fn idempotent_delete() {
    let mut store = small_store();
    put(&mut store, &"present".to_string(), vec![1; 10]).unwrap();
    del(&mut store, &"absent".to_string());
    assert_eq!(get_keys(&store), vec!["present".to_string()]);
    assert_eq!(get(&store, &"present".to_string()).unwrap(), vec![1; 10]);
}

#[test]
fn reuse_policy() {
    let mut store = small_store();
    put(&mut store, &"one".to_string(), vec![1; 1024]).unwrap();
    put(&mut store, &"two".to_string(), vec![2; 512]).unwrap();
    let freed = store.kv.kv_set[0].1 .0.clone();
    assert_eq!(freed, vec![0, 1]);
    del(&mut store, &"one".to_string());
    put(&mut store, &"three".to_string(), vec![3; 800]).unwrap();
    // first fit hands the freed low blocks out again
    let reused = &store.kv.kv_set[1].1 .0;
    assert_eq!(*reused, vec![0, 1]);
    assert_eq!(get(&store, &"two".to_string()).unwrap(), vec![2; 512]);
    assert_eq!(get(&store, &"three".to_string()).unwrap(), vec![3; 800]);
}

#[test]
fn exhaustion_and_recovery() {
    // one reserved page, one page of blocks: 128 blocks in all
    let mut store = Store::new(MAX_PAGE_BYTE * 2, 1);
    let big = (KV_BLOCK_SIZE * 128) as usize;
    put(&mut store, &"big".to_string(), vec![9; big]).unwrap();
    let r = put(&mut store, &"more".to_string(), vec![1; 1]);
    assert!(matches!(r, Err(KvError::Other(_))));
    del(&mut store, &"big".to_string());
    put(&mut store, &"more".to_string(), vec![1; big]).unwrap();
    assert_eq!(get(&store, &"more".to_string()).unwrap(), vec![1; big]);
}

#[test]
fn snapshot_restore_fidelity() {
    let mut store = small_store();
    put(&mut store, &"a".to_string(), vec![0x11; 700]).unwrap();
    put(&mut store, &"b".to_string(), vec![0x22; 40]).unwrap();
    assert!(check_upgrade(&store));
    pre_upgrade(&mut store);
    let saved_bit_map = get_bit_map(&store);
    let saved_keys = get_keys(&store);
    // disturb the in-heap state; the header must bring it back whole
    del(&mut store, &"a".to_string());
    del(&mut store, &"b".to_string());
    post_upgrade(&mut store).unwrap();
    assert_eq!(get_bit_map(&store), saved_bit_map);
    assert_eq!(get_keys(&store), saved_keys);
    assert_eq!(get(&store, &"a".to_string()).unwrap(), vec![0x11; 700]);
    assert_eq!(get(&store, &"b".to_string()).unwrap(), vec![0x22; 40]);
}

#[test]
fn restore_rejects_garbage() {
    let mut store = small_store();
    // nothing was ever snapshot into the header: all zeroes decode to
    // an empty payload, which is not a snapshot
    let r = post_upgrade(&mut store);
    assert!(matches!(r, Err(KvError::Other(_))));
    // the store is untouched and stays usable
    put(&mut store, &"k".to_string(), vec![5; 5]).unwrap();
    assert_eq!(get(&store, &"k".to_string()).unwrap(), vec![5; 5]);
}

#[test]
fn index_space_grows() {
    let mut store = small_store();
    let empty_space = get_index_space(&store);
    put(&mut store, &"some-key".to_string(), vec![1; 600]).unwrap();
    let used_space = get_index_space(&store);
    assert!(used_space > empty_space);
    assert!(check_upgrade(&store));
}

#[test]
fn available_space_shrinks() {
    let mut store = small_store();
    let before = get_available_space_size(&store);
    put(&mut store, &"k".to_string(), vec![1; 1024]).unwrap();
    let after = get_available_space_size(&store);
    assert!(after < before);
}

#[test]
fn keys_in_insertion_order() {
    let mut store = small_store();
    put(&mut store, &"first".to_string(), vec![1; 1]).unwrap();
    put(&mut store, &"second".to_string(), vec![2; 2]).unwrap();
    assert_eq!(
        get_keys(&store),
        vec!["first".to_string(), "second".to_string()]
    );
}
