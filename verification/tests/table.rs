use word_table::attachment::{ObjectAttachment, WordAttachment};
use word_table::hasher::{PassthroughHasher, StdHasher};
use word_table::table::{ResizeResult, Table};

type WordTable = Table<(), WordAttachment, PassthroughHasher>;

#[test]
fn a_new_table_has_sixty_four_entries() {
    let table = WordTable::new();
    assert_eq!(table.capacity(), 64);
    assert_eq!(table.occupation(), 0);
    assert_eq!(table.get(5, false), None);
    assert!(table.entries().is_empty());
}

#[test]
fn insert_gives_back_the_payload_that_was_there() {
    let mut table = WordTable::with_capacity(16);
    assert_eq!(table.insert(5, 50, ()), None);
    assert_eq!(table.insert(5, 51, ()), Some(50));
    assert_eq!(table.get(5, false), Some((51, None)));
    assert_eq!(table.get(5, true), Some((51, Some(()))));
    assert_eq!(table.occupation(), 2);
    assert_eq!(table.capacity(), 16);
}

#[test]
fn remove_gives_back_payload_and_attachment() {
    let mut table =
        Table::<[usize; 4], ObjectAttachment<[usize; 4]>, StdHasher>::with_capacity(16);
    assert_eq!(table.insert(5, 50, [1, 2, 3, 4]), None);
    assert_eq!(table.insert(6, 60, [5, 6, 7, 8]), None);
    assert_eq!(table.get(6, true), Some((60, Some([5, 6, 7, 8]))));
    assert_eq!(table.get(6, false), Some((60, None)));
    assert_eq!(table.remove(5), Some((50, [1, 2, 3, 4])));
    assert_eq!(table.remove(5), None);
    assert_eq!(table.get(5, true), None);
    assert_eq!(table.remove(0), None);
    assert_eq!(table.occupation(), 2);
    assert_eq!(table.entries(), vec![(6, 60, [5, 6, 7, 8])]);
}

#[test]
fn the_resize_check_replaces_an_overloaded_chunk() {
    let mut table = WordTable::with_capacity(16);
    for key in 1..=12 {
        assert_eq!(table.check_resize(), ResizeResult::NoNeed);
        assert_eq!(table.insert(key, key * 3, ()), None);
    }
    assert_eq!(table.capacity(), 16);
    assert_eq!(table.occupation(), 12);
    table.remove(4);
    assert_eq!(table.check_resize(), ResizeResult::Done);
    assert_eq!(table.capacity(), 256);
    assert_eq!(table.occupation(), 11);
    assert_eq!(table.check_resize(), ResizeResult::NoNeed);
    for key in 1..=12 {
        assert_eq!(table.get(key, false), if key == 4 { None } else { Some((key * 3, None)) });
    }
    assert_eq!(table.entries().len(), 11);
}

#[test]
fn overwriting_counts_as_claiming() {
    let mut table = WordTable::with_capacity(16);
    for round in 0..40 {
        table.insert(7, 100 + round, ());
        assert!(table.occupation() <= table.capacity());
    }
    assert_eq!(table.get(7, false), Some((139, None)));
    assert_eq!(table.entries(), vec![(7, 139, ())]);
    assert_eq!(table.capacity(), 256);
}

#[test]
fn a_copy_goes_its_own_way() {
    let mut table = WordTable::with_capacity(16);
    table.insert(5, 50, ());
    let mut copy = table.clone();
    copy.insert(6, 60, ());
    table.remove(5);
    assert_eq!(copy.get(5, false), Some((50, None)));
    assert_eq!(copy.get(6, false), Some((60, None)));
    assert_eq!(table.get(5, false), None);
    assert_eq!(table.get(6, false), None);
}
