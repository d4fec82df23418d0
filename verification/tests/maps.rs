use word_table::hasher::{PassthroughHasher, StdHasher};
use word_table::maps::{KeyMap, ObjectMap, WordMap};

#[test]
fn will_not_overflow() {
    let mut table = WordMap::<StdHasher>::with_capacity(16);
    for i in 50..60 {
        assert_eq!(table.insert(i, i), None);
    }
    for i in 50..60 {
        assert_eq!(table.get(i), Some(i));
    }
    for i in 50..60 {
        assert_eq!(table.remove(i), Some(i));
    }
}

#[test]
fn resize() {
    let mut map = WordMap::<StdHasher>::with_capacity(16);
    for i in 5..2048 {
        map.insert(i, i * 2);
    }
    for i in 5..2048 {
        match map.get(i) {
            Some(r) => assert_eq!(r, i * 2),
            None => panic!("{}", i),
        }
    }
}

#[test]
fn obj_map() {
    #[derive(Copy, Clone)]
    struct Obj {
        a: usize,
        b: usize,
        c: usize,
        d: usize,
    }
    impl Obj {
        fn new(num: usize) -> Self {
            Obj {
                a: num,
                b: num + 1,
                c: num + 2,
                d: num + 3,
            }
        }
        fn validate(&self, num: usize) {
            assert_eq!(self.a, num);
            assert_eq!(self.b, num + 1);
            assert_eq!(self.c, num + 2);
            assert_eq!(self.d, num + 3);
        }
    }
    let mut map = ObjectMap::<Obj, StdHasher>::with_capacity(16);
    for i in 5..2048 {
        map.insert(i, Obj::new(i));
    }
    for i in 5..2048 {
        match map.get(i) {
            Some(r) => r.validate(i),
            None => panic!("{}", i),
        }
    }
}

#[test]
fn removed_keys_are_absent() {
    let mut table = WordMap::<StdHasher>::with_capacity(16);
    for i in 50..60 {
        assert_eq!(table.insert(i, i), None);
    }
    for i in 50..60 {
        assert_eq!(table.remove(i), Some(i));
    }
    assert_eq!(table.get(50), None);
    assert!(!table.contains(50));
    assert_eq!(table.remove(50), None);
}

#[test]
fn growth_reaches_the_capacity_for_the_load() {
    let mut map = WordMap::<StdHasher>::with_capacity(16);
    for i in 5..2048 {
        map.insert(i, i * 2);
    }
    assert_eq!(map.table.capacity(), 4096);
    assert!(map.table.occupation() <= map.table.capacity());
    assert_eq!(map.entries().len(), 2043);
}

#[test]
fn insert_over_a_key_tells_that_it_was_there() {
    let mut map = WordMap::<PassthroughHasher>::with_capacity(16);
    assert_eq!(map.insert(7, 70), None);
    assert_eq!(map.insert(7, 71), Some(()));
    assert_eq!(map.get(7), Some(71));
    assert_eq!(map.entries(), vec![(7, 71)]);
}

#[test]
fn the_top_bit_of_a_value_is_cut_off() {
    let mut map = WordMap::<PassthroughHasher>::with_capacity(16);
    let top = !(!0usize >> 1);
    assert_eq!(map.insert(3, top | 9), None);
    assert_eq!(map.get(3), Some(9));
}

#[test]
fn a_zero_value_leaves_the_key_absent() {
    let mut map = WordMap::<PassthroughHasher>::with_capacity(16);
    assert_eq!(map.insert(3, 9), None);
    assert_eq!(map.insert(3, 0), Some(()));
    assert_eq!(map.get(3), None);
    assert!(!map.contains(3));
}

#[test]
fn writers_in_turn_without_growth() {
    let mut map = WordMap::<StdHasher>::with_capacity(65536);
    for i in 5..99 {
        map.insert(i, i * 10);
    }
    for i in 100..300 {
        for j in 5..60 {
            map.insert(i * 100 + j, i * j);
        }
    }
    for i in 5..9 {
        for j in 1..10 {
            map.remove(i * j);
        }
    }
    for i in 100..300 {
        for j in 5..60 {
            assert_eq!(map.get(i * 100 + j), Some(i * j))
        }
    }
    for i in 5..9 {
        for j in 1..10 {
            assert!(map.get(i * j).is_none())
        }
    }
}

#[test]
fn writers_in_turn_with_growth() {
    let mut map = WordMap::<StdHasher>::with_capacity(32);
    for i in 5..24 {
        for j in 5..1000 {
            map.insert(i + j * 100, i * j);
        }
    }
    for i in 5..24 {
        for j in 5..1000 {
            let k = i + j * 100;
            match map.get(k) {
                Some(v) => assert_eq!(v, i * j),
                None => panic!("Value should not be None for key: {}", k),
            }
        }
    }
}

#[test]
fn writers_and_removers_in_turn() {
    let mut map = WordMap::<StdHasher>::with_capacity(32);
    for i in 5..128 {
        map.insert(i, i * 10);
    }
    for i in 256..265 {
        for j in 5..60 {
            map.insert(i * 10 + j, 10);
        }
    }
    for i in 5..8 {
        for j in 5..8 {
            map.remove(i * j);
        }
    }
    for i in 256..265 {
        for j in 5..60 {
            assert_eq!(map.get(i * 10 + j), Some(10))
        }
    }
    for i in 5..128 {
        let removed = (5..8).any(|a| (5..8).any(|b| a * b == i));
        assert_eq!(map.get(i), if removed { None } else { Some(i * 10) });
    }
}

#[test]
fn object_map_gives_back_and_removes() {
    let mut map = ObjectMap::<(u64, u64), PassthroughHasher>::with_capacity(16);
    assert_eq!(map.insert(1, (10, 11)), None);
    assert_eq!(map.insert(2, (20, 21)), None);
    assert_eq!(map.insert(1, (12, 13)), Some(()));
    assert_eq!(map.get(1), Some((12, 13)));
    assert!(map.contains(2));
    assert_eq!(map.remove(2), Some((20, 21)));
    assert!(!map.contains(2));
    assert_eq!(map.entries(), vec![(1, (12, 13))]);
}

#[test]
fn the_maps_tell_what_they_can_take() {
    assert!(WordMap::<StdHasher>::can_hold(16));
    assert!(!WordMap::<StdHasher>::can_hold(17));
    assert!(!WordMap::<StdHasher>::can_hold(0));
    assert!(!WordMap::<StdHasher>::can_hold(!(usize::MAX >> 1)));
    assert!(ObjectMap::<[u64; 4], StdHasher>::can_hold(1 << 20));
    assert!(!ObjectMap::<[u64; 4], StdHasher>::can_hold(!(usize::MAX >> 4)));
    assert!(WordMap::<StdHasher>::takes_key(&(usize::MAX - 5)));
    assert!(!WordMap::<StdHasher>::takes_key(&(usize::MAX - 4)));
    let map = WordMap::<StdHasher>::with_capacity(16);
    assert!(map.takes(&3, &9));
    assert!(map.takes(&3, &0));
    assert!(!map.takes(&3, &1));
    assert!(!map.takes(&3, &(!(usize::MAX >> 1) | 1)));
    assert!(map.table.can_grow());
    assert!(!map.table.is_overloaded());
}
