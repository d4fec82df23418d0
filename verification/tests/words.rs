use std::collections::hash_map::DefaultHasher;
use std::hash::Hasher;
use word_table::hasher::{hash, PassthroughHasher, StdHasher};
use word_table::layout::{
    chunk_size_of, entry_size, is_power_of_2, next_capacity, occupation_limit, CHUNK_HEADER_SIZE,
};
use word_table::value::{
    inv_bit_mask, val_bit_mask, ParsedValue, Value, EMPTY_KEY, SENTINEL_VALUE,
};

#[test]
fn value_words_are_told_apart() {
    let top = !(usize::MAX >> 1);
    assert_eq!(Value::new(0), Value { raw: 0, parsed: ParsedValue::Empty });
    assert_eq!(Value::new(1), Value { raw: 1, parsed: ParsedValue::Sentinel });
    assert_eq!(Value::new(2), Value { raw: 2, parsed: ParsedValue::Val(2) });
    assert_eq!(
        Value::new(usize::MAX >> 1),
        Value { raw: usize::MAX >> 1, parsed: ParsedValue::Val(usize::MAX >> 1) }
    );
    assert_eq!(Value::new(top | 9), Value { raw: top | 9, parsed: ParsedValue::Prime(9) });
    assert_eq!(Value::new(top), Value { raw: top, parsed: ParsedValue::Prime(0) });
    assert_eq!(Value::new(top | 1), Value { raw: top | 1, parsed: ParsedValue::Prime(1) });
    assert_eq!(ParsedValue::Val(7).unwrap(), 7);
}

#[test]
fn the_masks_part_the_word() {
    assert_eq!(val_bit_mask(), usize::MAX >> 1);
    assert_eq!(inv_bit_mask(), !(usize::MAX >> 1));
    assert_eq!(val_bit_mask() | inv_bit_mask(), usize::MAX);
    assert_eq!(val_bit_mask() & inv_bit_mask(), 0);
    assert_eq!(EMPTY_KEY, 0);
    assert_eq!(SENTINEL_VALUE, 1);
}

#[test]
fn powers_of_two_are_known() {
    assert!(!is_power_of_2(0));
    assert!(is_power_of_2(1));
    assert!(is_power_of_2(2));
    assert!(!is_power_of_2(3));
    assert!(is_power_of_2(65536));
    assert!(!is_power_of_2(65537));
    assert!(is_power_of_2(!(usize::MAX >> 1)));
    assert!(!is_power_of_2(usize::MAX));
}

#[test]
fn the_limit_is_seven_tenths() {
    assert_eq!(occupation_limit(1), 0);
    assert_eq!(occupation_limit(2), 1);
    assert_eq!(occupation_limit(16), 11);
    assert_eq!(occupation_limit(64), 44);
    assert_eq!(occupation_limit(256), 179);
    assert_eq!(occupation_limit(2048), 1433);
    assert_eq!(occupation_limit(65536), 45875);
}

#[test]
fn chunks_grow_sixteenfold_then_twofold() {
    assert_eq!(next_capacity(1), 16);
    assert_eq!(next_capacity(16), 256);
    assert_eq!(next_capacity(1024), 16384);
    assert_eq!(next_capacity(2048), 4096);
    assert_eq!(next_capacity(4096), 8192);
}

#[test]
fn entries_are_two_words() {
    assert_eq!(entry_size(), 2 * std::mem::size_of::<usize>());
    assert_eq!(chunk_size_of(16), 32 * std::mem::size_of::<usize>());
    assert_eq!(chunk_size_of(0), 0);
    assert_eq!(CHUNK_HEADER_SIZE, 64);
}

#[test]
fn the_passthrough_hasher_gives_the_key() {
    assert_eq!(hash::<PassthroughHasher>(0), 0);
    assert_eq!(hash::<PassthroughHasher>(42), 42);
    assert_eq!(hash::<PassthroughHasher>(usize::MAX), usize::MAX);
    let mut hasher = PassthroughHasher::default();
    assert_eq!(hasher.finish(), 0);
    hasher.write_usize(9);
    assert_eq!(hasher.finish(), 9);
}

#[test]
fn the_std_hasher_hashes_the_eight_bytes_of_the_key() {
    for key in [0usize, 1, 5, 42, 1 << 20, usize::MAX] {
        let mut hasher = DefaultHasher::new();
        hasher.write(&(key as u64).to_le_bytes());
        assert_eq!(hash::<StdHasher>(key), hasher.finish() as usize);
        assert_eq!(hash::<StdHasher>(key), hash::<StdHasher>(key));
    }
    assert_ne!(hash::<StdHasher>(42), 42);
}
