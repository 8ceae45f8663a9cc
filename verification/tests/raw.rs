use cachemap3::hash::hash_key;
use cachemap3::raw::{RawCacheMapShard, RawCacheMapShardInner};
use hashbrown::hash_map::DefaultHashBuilder;

#[test]
fn test() {
    let mut cache =
        RawCacheMapShard::<usize, usize, DefaultHashBuilder>::new(DefaultHashBuilder::default());

    let cache_0 = *cache.get_or_insert(&0, || 0);
    let cache_1 = *cache.get_or_insert(&0, || 1);

    assert_eq!(cache_0, (0, 0));
    assert_eq!(cache_1, (0, 0));
}

#[test]
fn an_empty_shard_has_no_entry() {
    let shard = RawCacheMapShardInner::<u64, u64>::new();
    assert_eq!(shard.len(), 0);
    assert_eq!(shard.get(1, &1), None);
    assert_eq!(shard.find(1, &1), None);
    assert!(shard.is_full());
    let shard = RawCacheMapShardInner::<u64, u64>::default();
    assert_eq!(shard.len(), 0);
}

#[test]
fn entries_are_found_under_their_hash() {
    let hasher = DefaultHashBuilder::default();
    let mut shard = RawCacheMapShardInner::<u64, &str>::new();
    assert_eq!(*shard.get_or_insert(10, &1, || "one", &hasher), (1, "one"));
    assert_eq!(*shard.get_or_insert(20, &2, || "two", &hasher), (2, "two"));
    // One hash for two keys.
    assert_eq!(*shard.get_or_insert(10, &3, || "three", &hasher), (3, "three"));
    assert_eq!(shard.len(), 3);
    assert_eq!(shard.get(10, &1), Some(&(1, "one")));
    assert_eq!(shard.get(20, &2), Some(&(2, "two")));
    assert_eq!(shard.get(10, &3), Some(&(3, "three")));
    assert_eq!(shard.get(10, &4), None);
    assert_eq!(*shard.entry(0), (1, "one"));
    assert_eq!(*shard.entry(1), (2, "two"));
    assert_eq!(*shard.entry(2), (3, "three"));
}

#[test]
fn the_first_value_stays_and_no_other_is_computed() {
    let hasher = DefaultHashBuilder::default();
    let mut shard = RawCacheMapShardInner::<u64, String>::new();
    assert_eq!(shard.get_or_insert(5, &7, || String::from("first"), &hasher).1, "first");
    let entry = shard.get_or_insert(5, &7, || panic!("computed twice"), &hasher);
    assert_eq!(entry.1, "first");
    assert_eq!(shard.len(), 1);
}

#[test]
fn entries_outlive_growth() {
    let hasher = DefaultHashBuilder::default();
    let mut shard = RawCacheMapShardInner::<u64, String>::new();
    let mut grew = 0;
    for i in 0..1000u64 {
        if shard.is_full() {
            grew += 1;
        }
        let slot = shard.find_or_insert(hash_key(&hasher, &i), &i, || format!("{i}"), &hasher);
        assert_eq!(slot, i as usize);
    }
    // 0, 3, 7, 14, 28, 56, 112, 224, 448 and 896 entries fill a table.
    assert_eq!(grew, 10);
    assert_eq!(shard.len(), 1000);
    for i in 0..1000u64 {
        let found = shard.get(hash_key(&hasher, &i), &i);
        assert_eq!(found, Some(&(i, format!("{i}"))));
    }
    assert_eq!(shard.get(0, &1000), None);
}

#[test]
fn a_grown_copy_holds_the_same_entries_and_has_room() {
    let hasher = DefaultHashBuilder::default();
    let mut shard = RawCacheMapShardInner::<u64, u64>::new();
    for i in 0..3 {
        assert_eq!(shard.insert(hash_key(&hasher, &i), i, i * 100, &hasher), i as usize);
    }
    assert!(shard.is_full());
    let mut copy = shard.grown(&hasher);
    assert!(!copy.is_full());
    assert_eq!(copy.len(), 3);
    for i in 0..3 {
        assert_eq!(copy.get(hash_key(&hasher, &i), &i), Some(&(i, i * 100)));
    }
    assert_eq!(copy.insert(9, 9, 900, &hasher), 3);
    assert_eq!(copy.get(9, &9), Some(&(9, 900)));
    assert_eq!(shard.get(9, &9), None);
}

#[test]
fn a_shard_that_grows_files_its_entries_anew() {
    let hasher = DefaultHashBuilder::default();
    let mut shard = RawCacheMapShardInner::<u64, u64>::new();
    for i in 0..3 {
        assert_eq!(*shard.get_or_insert(7, &i, || i * 100, &hasher), (i, i * 100));
        assert_eq!(shard.get(7, &i), Some(&(i, i * 100)));
    }
    assert!(shard.is_full());
    assert_eq!(*shard.get_or_insert(7, &3, || 300, &hasher), (3, 300));
    for i in 0..3 {
        assert_eq!(shard.get(hash_key(&hasher, &i), &i), Some(&(i, i * 100)));
    }
    assert_eq!(shard.get(7, &3), Some(&(3, 300)));
}

#[test]
fn hashes_of_one_key_agree() {
    let hasher = DefaultHashBuilder::default();
    assert_eq!(hash_key(&hasher, &42u64), hash_key(&hasher, &42u64));
    assert_ne!(hash_key(&hasher, &42u64), hash_key(&hasher, &43u64));
    assert_ne!(hash_key(&hasher, &42u64), 42);
}

#[test]
fn a_shard_keeps_many_keys_apart() {
    let mut cache =
        RawCacheMapShard::<u32, u32, DefaultHashBuilder>::new(DefaultHashBuilder::default());
    for i in 0..500 {
        assert_eq!(*cache.get_or_insert(&i, || i + 1), (i, i + 1));
    }
    for i in 0..500 {
        assert_eq!(*cache.get_or_insert(&i, || 0), (i, i + 1));
    }
}

#[test]
fn a_shard_computes_a_value_once_for_each_key() {
    let mut cache =
        RawCacheMapShard::<u32, usize, DefaultHashBuilder>::new(DefaultHashBuilder::default());
    let keys = [3, 1, 3, 2, 1, 1, 3, 4, 2, 4];
    let mut computed = Vec::new();
    for (i, key) in keys.iter().enumerate() {
        let first = keys.iter().position(|other| other == key).unwrap();
        let entry = *cache.get_or_insert(key, || {
            computed.push(i);
            i
        });
        assert_eq!(entry, (*key, first));
    }
    assert_eq!(computed, vec![0, 1, 3, 7]);
}

#[test]
fn lookups_of_different_keys_commute() {
    let hasher = DefaultHashBuilder::default();
    for order in [[(1u8, "one"), (2, "two")], [(2, "two"), (1, "one")]] {
        let mut cache = RawCacheMapShard::<u8, &str, DefaultHashBuilder>::new(hasher.clone());
        for (key, value) in order {
            assert_eq!(*cache.get_or_insert(&key, || value), (key, value));
        }
        assert_eq!(*cache.get_or_insert(&1, || panic!("computed twice")), (1, "one"));
        assert_eq!(*cache.get_or_insert(&2, || panic!("computed twice")), (2, "two"));
    }
}
