use toyredis::dict::Dict;
use toyredis::hashtable::{HashTable, KeyHasher, MIN_EXP};
use toyredis::sds::SDS;

#[test]
fn test_basis() {
    let mut dict = Dict::new();
    dict.insert(SDS::new("key".as_bytes()), "value".to_string());
    let key = SDS::new("key".as_bytes());
    assert_eq!(*dict.get(&key).unwrap(), "value".to_string());
    assert_eq!(dict.remove(&key).unwrap(), "value".to_string());
    assert!(dict.get(&key).is_none());
}

#[test]
fn test_expand_with_default_hasher() {
    let mut dict = Dict::new();
    assert_eq!(dict.main_table().slot_cnt_exp(), 2);
    assert_eq!(dict.main_table().slots_cnt(), 1 << 2);
    assert_eq!(dict.main_table().count(), 0);
    assert_eq!(dict.value_cnt(), 0);
    assert!(dict.back_table().is_none());
    assert!(!dict.is_rehashing());
    for idx in 0..3 {
        dict.insert(SDS::new(&[idx]), idx);
    }
    assert_eq!(dict.main_table().slot_cnt_exp(), 2);
    assert_eq!(dict.main_table().slots_cnt(), 1 << 2);
    assert_eq!(dict.main_table().count(), 3);
    assert_eq!(dict.value_cnt(), 3);
    assert!(dict.back_table().is_none());
    assert!(!dict.is_rehashing());
    dict.insert(SDS::new(&[4]), 4);
    assert_eq!(dict.main_table().slot_cnt_exp(), 2);
    assert_eq!(dict.main_table().slots_cnt(), 1 << 2);
    assert_eq!(dict.main_table().count(), 4);
    assert_eq!(dict.value_cnt(), 4);
    assert!(dict.back_table().is_some());
    assert!(dict.is_rehashing());
    dict.insert(SDS::new(&[5]), 5);
    assert_eq!(dict.main_table().slot_cnt_exp(), 2);
    assert_eq!(dict.main_table().slots_cnt(), 1 << 2);
    assert_eq!(dict.back_table().unwrap().slot_cnt_exp(), 3);
    assert_eq!(dict.back_table().unwrap().slots_cnt(), 1 << 3);
    assert_eq!(dict.value_cnt(), 5);
    assert!(dict.is_rehashing());
    assert!(dict.back_table().is_some());
    assert!(dict.back_table().unwrap().count() >= 1);
    let key = SDS::new(&[5]);

    assert!(dict.back_table().unwrap().get(&key).is_some());
    assert!(dict.main_table().get(&key).is_none());
}

#[test]
fn test_custom_hasher() {
    let mut dict = Dict::new_with_hasher(KeyHasher::FirstByte);
    dict.insert(SDS::new(&[0]), 0);
    dict.insert(SDS::new(&[4]), 4);
    assert_eq!(dict.value_cnt(), 2);
    for idx in 1..4 {
        assert!(dict.main_table().slot_is_empty(idx));
    }
    dict.insert(SDS::new(&[2]), 2);
    dict.insert(SDS::new(&[6]), 6);
    assert!(dict.main_table().slot_is_empty(1));
    assert!(dict.main_table().slot_is_empty(3));
    assert!(dict.is_rehashing());
    dict.insert(SDS::new(&[7]), 7);
    assert!(dict.is_rehashing());
    assert_eq!(dict.value_cnt(), 5);
    assert_eq!(dict.main_table().count(), 2);
    assert!(dict.main_table().slot_is_empty(0));
    assert_eq!(dict.back_table().unwrap().count(), 3);
    assert!(!dict.back_table().unwrap().slot_is_empty(0));
    assert!(!dict.back_table().unwrap().slot_is_empty(4));
    assert!(!dict.back_table().unwrap().slot_is_empty(7));
    let key = SDS::new(&[7]);
    dict.get(&key);
    assert!(!dict.is_rehashing());
    assert!(!dict.main_table().slot_is_empty(0));
    assert!(!dict.main_table().slot_is_empty(2));
    assert!(!dict.main_table().slot_is_empty(4));
    assert!(!dict.main_table().slot_is_empty(6));
    assert!(!dict.main_table().slot_is_empty(7));
}

#[test]
fn basis_copy_key() {
    let mut table = HashTable::with_capacity(4);
    assert_eq!(table.count(), 0);
    assert_eq!(table.slot_cnt_exp(), MIN_EXP);
    table.insert(SDS::new(b"first"), 1);
    let val = table.get(&SDS::new(b"first"));
    assert!(val.is_some());
    assert_eq!(*val.unwrap(), 1);
    let second = SDS::new(b"second");
    table.insert(second, 2);
    assert_eq!(table.count(), 2);
    let val = table.get(&SDS::new(b"second"));
    assert_eq!(*val.unwrap(), 2);

    assert!(table.remove(&SDS::new(b"third")).is_none());
    assert_eq!(table.count(), 2);

    assert_eq!(table.remove(&SDS::new(b"second")).unwrap(), 2);
    assert_eq!(table.count(), 1);
}

#[test]
fn value_cnt_counts_distinct_keys_through_rehash() {
    let mut dict = Dict::new();
    for i in 0..200u32 {
        let k = format!("k{}", i % 150);
        dict.insert(SDS::new(k.as_bytes()), i);
        assert_eq!(dict.value_cnt(), std::cmp::min(i + 1, 150) as u64);
    }
    for i in 0..50u32 {
        let k = format!("k{}", i * 2);
        assert!(dict.remove(&SDS::new(k.as_bytes())).is_some());
        assert!(dict.remove(&SDS::new(k.as_bytes())).is_none());
    }
    assert_eq!(dict.value_cnt(), 100);
}

#[test]
fn rehash_finishes_within_slot_count_operations() {
    let mut dict = Dict::new_with_hasher(KeyHasher::Seeded(7));
    let mut i: u32 = 0;
    while !dict.is_rehashing() {
        dict.insert(SDS::new(format!("key{}", i).as_bytes()), i);
        i += 1;
    }
    let slots = dict.main_slots();
    let mut ops = 0u64;
    let probe = SDS::new(b"absent");
    while dict.is_rehashing() && dict.main_slots() == slots {
        dict.get(&probe);
        ops += 1;
        assert!(ops <= slots + 1);
    }
    assert_eq!(dict.main_slots(), 2 * slots);
    for k in 0..i {
        assert_eq!(*dict.get(&SDS::new(format!("key{}", k).as_bytes())).unwrap(), k);
    }
}

#[test]
fn get_after_insert_while_rehashing() {
    let mut dict = Dict::new_with_hasher(KeyHasher::FirstByte);
    for b in 0..4u8 {
        dict.insert(SDS::new(&[b, 1]), b as u32);
    }
    assert!(dict.is_rehashing());
    dict.insert(SDS::new(&[3, 1]), 30);
    assert_eq!(*dict.get(&SDS::new(&[3, 1])).unwrap(), 30);
    assert_eq!(*dict.get(&SDS::new(&[2, 1])).unwrap(), 2);
    assert_eq!(dict.insert(SDS::new(&[2, 1]), 20), Some(2));
    assert_eq!(*dict.get(&SDS::new(&[2, 1])).unwrap(), 20);
    assert_eq!(dict.value_cnt(), 4);
}
