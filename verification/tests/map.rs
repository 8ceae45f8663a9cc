use cachemap3::raw::RawCacheMapShard;
use cachemap3::sharding::{default_shard_amount, shard_index, shard_shift};
use cachemap3::{CacheMap, CacheMapShard};
use hashbrown::hash_map::DefaultHashBuilder;

#[test]
fn there_are_four_shards_for_each_thread_rounded_up() {
    assert_eq!(default_shard_amount(1), 4);
    assert_eq!(default_shard_amount(2), 8);
    assert_eq!(default_shard_amount(3), 16);
    assert_eq!(default_shard_amount(4), 16);
    assert_eq!(default_shard_amount(5), 32);
    assert_eq!(default_shard_amount(96), 512);
    assert_eq!(default_shard_amount(usize::MAX / 8 + 1), usize::MAX / 2 + 1);
}

#[test]
fn the_shift_leaves_as_many_numbers_as_there_are_shards() {
    assert_eq!(shard_shift(1), usize::BITS);
    assert_eq!(shard_shift(4), usize::BITS - 2);
    assert_eq!(shard_shift(512), usize::BITS - 9);
    assert_eq!(shard_shift(usize::MAX / 2 + 1), 1);
}

#[test]
fn the_shard_is_read_off_behind_the_seven_topmost_bits() {
    let shift = shard_shift(16);
    assert_eq!(shard_index(0, shift), 0);
    assert_eq!(shard_index(u64::MAX, shift), 15);
    // The seven topmost bits and the low bits do not count.
    let top = (usize::BITS - 7) as u64;
    assert_eq!(shard_index(0x7f << top, shift), 0);
    assert_eq!(shard_index(1, shift), 0);
    for i in 0..16u64 {
        assert_eq!(shard_index((i << (top - 4)) | (0x55 << top) | 3, shift), i as usize);
    }
}

#[test]
fn the_map_keeps_what_was_cached_first() {
    let mut map = CacheMap::<u64, String>::with_hasher(DefaultHashBuilder::default(), 2);
    for i in 0..300u64 {
        assert_eq!(*map.get_or_insert(&i, || format!("{i}")), (i, format!("{i}")));
    }
    for i in 0..300u64 {
        assert_eq!(*map.get_or_insert(&i, || panic!("computed twice")), (i, format!("{i}")));
    }
}

#[test]
fn a_key_is_looked_up_in_the_shard_of_its_hash() {
    let mut map = CacheMap::<u64, u64>::with_hasher(DefaultHashBuilder::default(), 1);
    let top = (usize::BITS - 7) as u64;
    // Four shards: two keys of the same name under hashes of different shards.
    assert_eq!(*map.get_or_insert_hashed(0, &1, || 10), (1, 10));
    assert_eq!(*map.get_or_insert_hashed(1 << (top - 2), &1, || 20), (1, 20));
    assert_eq!(*map.get_or_insert_hashed(0, &1, || 30), (1, 10));
    assert_eq!(*map.get_or_insert_hashed(1 << (top - 2), &1, || 30), (1, 20));
}

#[test]
fn a_shard_of_its_own_has_the_same_hasher() {
    let mut shard = CacheMapShard::<u8, u8>::new(DefaultHashBuilder::default());
    assert_eq!(*shard.get_or_insert(&1, || 2), (1, 2));
    assert_eq!(*shard.get_or_insert(&1, || 3), (1, 2));
}

#[test]
fn a_map_answers_as_one_shard() {
    let hasher = DefaultHashBuilder::default();
    let mut map = CacheMap::<u64, usize>::with_hasher(hasher.clone(), 3);
    let mut shard = RawCacheMapShard::<u64, usize, DefaultHashBuilder>::new(hasher);
    for i in 0..400usize {
        let key = (i as u64 * 37) % 101;
        let (mut in_map, mut in_shard) = (false, false);
        let one = *map.get_or_insert(&key, || {
            in_map = true;
            i
        });
        let other = *shard.get_or_insert(&key, || {
            in_shard = true;
            i
        });
        assert_eq!(one, other);
        assert_eq!(in_map, in_shard);
        assert_eq!(in_map, i < 101);
    }
}

#[test]
fn every_shard_is_the_shard_of_some_hash() {
    let shift = shard_shift(512);
    for i in 0..512u64 {
        assert_eq!(shard_index(i << (shift - 7), shift), i as usize);
    }
}
