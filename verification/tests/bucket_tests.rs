use stable_kv::bucket::{Bucket, Error};
use stable_kv::stable::MAX_PAGE_BYTE;

#[test]
fn layout_bit_test() {
    let byte = 2u8;
    if byte & 1 << 2 == 0 {
        println!("{}", 1)
    }
}

fn small_bucket() -> (Bucket, stable_kv::stable::StableMemory) {
    Bucket::new(MAX_PAGE_BYTE * 8, 1)
}

#[test]
fn bucket_put_and_get() {
    let (mut bucket, mut memory) = small_bucket();
    let key = "asset".to_string();
    bucket.put(&mut memory, &key, vec![3; 100]).unwrap();
    bucket.put(&mut memory, &key, vec![4; 50]).unwrap();
    let segments = bucket.get(&memory, &key).unwrap();
    assert_eq!(segments.len(), 2);
    assert_eq!(segments[0], vec![3; 100]);
    assert_eq!(segments[1], vec![4; 50]);
}

#[test]
fn bucket_set_replaces() {
    let (mut bucket, mut memory) = small_bucket();
    let key = "asset".to_string();
    bucket.put(&mut memory, &key, vec![1; 10]).unwrap();
    bucket.set(&mut memory, &key, vec![2; 20]).unwrap();
    let segments = bucket.get(&memory, &key).unwrap();
    assert_eq!(segments.len(), 1);
    assert_eq!(segments[0], vec![2; 20]);
}

#[test]
fn bucket_get_unknown() {
    let (bucket, memory) = small_bucket();
    let r = bucket.get(&memory, &"missing".to_string());
    assert!(matches!(r, Err(Error::InvalidKey)));
}

#[test]
fn bucket_del_key() {
    let (mut bucket, mut memory) = small_bucket();
    bucket.put(&mut memory, &"a".to_string(), vec![1; 10]).unwrap();
    bucket.put(&mut memory, &"b".to_string(), vec![2; 10]).unwrap();
    bucket.del_key(&memory, &"a".to_string());
    assert_eq!(bucket.get_keys(), vec!["b".to_string()]);
    // deleting an absent key is a no-op
    bucket.del_key(&memory, &"a".to_string());
    assert_eq!(bucket.get_keys(), vec!["b".to_string()]);
}

#[test]
fn bucket_upgradable_halves_room() {
    let (mut bucket, mut memory) = small_bucket();
    // with the upgrade reservation on, only half the ceiling is usable
    let half = (MAX_PAGE_BYTE * 4) as usize;
    let reserved = MAX_PAGE_BYTE as usize;
    let fits = half - reserved;
    let r = bucket.put(&mut memory, &"big".to_string(), vec![0; fits + 1]);
    assert!(matches!(r, Err(Error::InsufficientMemory)));
    bucket.put(&mut memory, &"big".to_string(), vec![0; fits]).unwrap();
    // the rejected call changed nothing, the accepted one everything
    let segments = bucket.get(&memory, &"big".to_string()).unwrap();
    assert_eq!(segments.len(), 1);
    assert_eq!(segments[0].len(), fits);
}

#[test]
fn bucket_init_flag() {
    let (mut bucket, mut memory) = small_bucket();
    bucket.init(false);
    // without the reservation nearly the whole ceiling is usable
    let room = (MAX_PAGE_BYTE * 7) as usize;
    bucket.put(&mut memory, &"big".to_string(), vec![0; room]).unwrap();
    let segments = bucket.get(&memory, &"big".to_string()).unwrap();
    assert_eq!(segments[0].len(), room);
}

#[test]
fn bucket_insert_test_marker() {
    let (mut bucket, memory) = small_bucket();
    bucket.insert_test(&"marker".to_string());
    let segments = bucket.get(&memory, &"marker".to_string()).unwrap();
    assert_eq!(segments.len(), 1);
    assert_eq!(segments[0].len(), 0);
}

#[test]
fn bucket_get_bucket_copies_index() {
    let (mut bucket, mut memory) = small_bucket();
    bucket.put(&mut memory, &"a".to_string(), vec![9; 30]).unwrap();
    let copy = bucket.get_bucket();
    assert_eq!(copy.offset, bucket.offset);
    assert_eq!(copy.get_keys(), bucket.get_keys());
    assert_eq!(copy.assets[0].1, bucket.assets[0].1);
}

#[test]
fn bucket_snapshot_restore() {
    let (mut bucket, mut memory) = small_bucket();
    bucket.put(&mut memory, &"a".to_string(), vec![1; 100]).unwrap();
    bucket.put(&mut memory, &"b".to_string(), vec![2; 50]).unwrap();
    assert!(bucket.check_self_bytes_len());
    bucket.update_self_to_stable(&mut memory);
    let saved_offset = bucket.offset;
    let saved_assets = bucket.assets.clone();
    // disturb the in-heap state; the header must bring it back whole
    bucket.del_key(&memory, &"a".to_string());
    assert!(Bucket::check_stable_data(&memory));
    bucket.update_self_from_stable(&memory);
    assert_eq!(bucket.offset, saved_offset);
    assert_eq!(bucket.assets, saved_assets);
    let segments = bucket.get(&memory, &"a".to_string()).unwrap();
    assert_eq!(segments[0], vec![1; 100]);
}

#[test]
fn bucket_upgrade_boundary() {
    let (mut bucket, mut memory) = small_bucket();
    bucket
        .put(&mut memory, &"asset".to_string(), vec![9; 64])
        .unwrap();
    bucket.pre_upgrade(&mut memory, vec![7; 200]).unwrap();
    // a restart: a fresh index over the same memory
    let mut rebooted = Bucket::default();
    assert!(Bucket::check_stable_data(&memory));
    let buf = rebooted.post_upgrade(&memory).unwrap();
    assert_eq!(buf, vec![7; 200]);
    assert_eq!(rebooted.get_keys(), vec!["asset".to_string()]);
    let segments = rebooted.get(&memory, &"asset".to_string()).unwrap();
    assert_eq!(segments[0], vec![9; 64]);
}

#[test]
fn bucket_restore_rejects_garbage() {
    // nothing was ever snapshot into the header: the all-zero header
    // decodes to an empty payload, which is no snapshot
    let (_bucket, memory) = small_bucket();
    assert!(!Bucket::check_stable_data(&memory));
}

#[test]
fn bucket_available_memory() {
    let (mut bucket, mut memory) = small_bucket();
    let before = bucket.get_available_memory_size();
    assert_eq!(before, MAX_PAGE_BYTE * 4 - MAX_PAGE_BYTE);
    bucket.put(&mut memory, &"a".to_string(), vec![1; 100]).unwrap();
    assert_eq!(bucket.get_available_memory_size(), before - 100);
}
