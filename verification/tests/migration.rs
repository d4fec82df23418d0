use word_table::attachment::{ObjectAttachment, WordAttachment};
use word_table::chunk::{Chunk, EntryTemplate, ModOp};
use word_table::hasher::PassthroughHasher;
use word_table::migration::Migration;
use word_table::table::Table;

type WordTable = Table<(), WordAttachment, PassthroughHasher>;
type WordChunk = Chunk<(), WordAttachment, PassthroughHasher>;

fn overloaded(cap: usize, keys: std::ops::Range<usize>) -> WordTable {
    let mut table = WordTable::with_capacity(cap);
    for key in keys {
        table.insert(key, key * 10, ());
    }
    table
}

fn begun(table: WordTable) -> Migration<(), WordAttachment, PassthroughHasher> {
    match table.begin_migration() {
        Ok(migration) => migration,
        Err(_) => panic!("the table is not overloaded"),
    }
}

#[test]
fn a_table_with_room_does_not_migrate() {
    let table = overloaded(16, 1..12);
    match table.begin_migration() {
        Ok(_) => panic!("the table is not overloaded"),
        Err(table) => {
            assert_eq!(table.capacity(), 16);
            assert_eq!(table.occupation(), 11);
            assert_eq!(table.get(3, false), Some((30, None)));
        }
    }
}

#[test]
fn a_migration_hands_over_slot_by_slot() {
    let mut migration = begun(overloaded(16, 1..13));
    assert_eq!(migration.chunk.capacity, 16);
    assert_eq!(migration.new_chunk.capacity, 256);
    assert_eq!(migration.cursor, 0);
    assert!(migration.has_room());
    assert!(!migration.is_complete());
    // slot 0 is unclaimed, slot 1 holds the key 1
    assert!(!migration.step());
    assert!(migration.step());
    assert_eq!(migration.cursor, 2);
    assert_eq!(migration.effective_copy, 1);
    assert_eq!(migration.chunk.entries[1], EntryTemplate(1, 1));
    assert_eq!(migration.new_chunk.entries[1], EntryTemplate(1, 10));
    for key in 1..13 {
        assert_eq!(migration.get(key, false), Some((key * 10, None)));
    }
    let mut moved = 1;
    while !migration.is_complete() {
        if migration.step() {
            moved += 1;
        }
    }
    assert_eq!(moved, 12);
    assert_eq!(migration.entries().len(), 12);
    let table = migration.finish();
    assert_eq!(table.capacity(), 256);
    assert_eq!(table.occupation(), 12);
    for key in 1..13 {
        assert_eq!(table.get(key, false), Some((key * 10, None)));
    }
}

#[test]
fn writes_during_a_migration_go_to_the_new_chunk() {
    let mut migration = begun(overloaded(16, 1..13));
    migration.step();
    migration.step();
    // over a key that has been handed over, over one that has not, and a new one
    assert_eq!(migration.insert(1, 11, ()), Some(10));
    assert_eq!(migration.insert(5, 51, ()), None);
    assert_eq!(migration.insert(14, 140, ()), None);
    assert_eq!(migration.chunk.entries[5], EntryTemplate(5, 1));
    assert_eq!(migration.chunk.entries[14], EntryTemplate(14, 1));
    assert_eq!(migration.new_chunk.occupation, 3);
    assert_eq!(migration.get(1, false), Some((11, None)));
    assert_eq!(migration.get(5, false), Some((51, None)));
    assert_eq!(migration.get(14, true), Some((140, Some(()))));
    assert_eq!(migration.cursor, 2);
    while !migration.is_complete() {
        migration.step();
    }
    assert_eq!(migration.effective_copy, 11);
    let table = migration.finish();
    assert_eq!(table.occupation(), 14);
    assert_eq!(table.get(1, false), Some((11, None)));
    assert_eq!(table.get(5, false), Some((51, None)));
    assert_eq!(table.get(14, false), Some((140, None)));
    assert_eq!(table.get(12, false), Some((120, None)));
    assert_eq!(table.entries().len(), 13);
}

#[test]
fn removal_during_a_migration_looks_in_the_new_chunk() {
    let mut migration = begun(overloaded(16, 1..13));
    migration.step();
    migration.step();
    // the key 1 has been handed over, the key 7 has not
    assert_eq!(migration.remove(1), Some((10, ())));
    assert_eq!(migration.get(1, false), None);
    assert_eq!(migration.remove(7), None);
    assert_eq!(migration.get(7, false), Some((70, None)));
    assert_eq!(migration.remove(99), None);
    while !migration.is_complete() {
        migration.step();
    }
    let table = migration.finish();
    assert_eq!(table.get(1, false), None);
    assert_eq!(table.get(7, false), Some((70, None)));
    assert_eq!(table.entries().len(), 11);
}

#[test]
fn a_key_without_a_sentinel_is_hidden_until_the_end() {
    // both slots of the old chunk are claimed: no sentinel can be put for a new key
    let mut migration = begun(overloaded(2, 1..3));
    assert_eq!(migration.chunk.capacity, 2);
    assert_eq!(migration.new_chunk.capacity, 32);
    assert_eq!(migration.insert(9, 90, ()), None);
    assert_eq!(migration.get(9, false), None);
    assert_eq!(migration.get(1, false), Some((10, None)));
    assert_eq!(migration.insert(1, 12, ()), None);
    assert_eq!(migration.get(1, false), Some((12, None)));
    migration.step();
    migration.step();
    assert!(migration.is_complete());
    let table = migration.finish();
    assert_eq!(table.get(9, false), Some((90, None)));
    assert_eq!(table.get(1, false), Some((12, None)));
    assert_eq!(table.get(2, false), Some((20, None)));
}

#[test]
fn a_full_new_chunk_sends_the_removal_to_the_old_one() {
    let mut old_chunk = WordChunk::alloc_chunk(4);
    old_chunk.modify_entry(3, ModOp::Insert(30, ()));
    let mut new_chunk = WordChunk::alloc_chunk(2);
    new_chunk.modify_entry(5, ModOp::Insert(50, ()));
    new_chunk.modify_entry(6, ModOp::Insert(60, ()));
    let mut migration = Migration {
        chunk: old_chunk,
        new_chunk,
        cursor: 0,
        effective_copy: 0,
        val_bit_mask: usize::MAX >> 1,
        inv_bit_mask: !(usize::MAX >> 1),
    };
    migration.new_chunk.occupation = 2;
    assert!(!migration.has_room());
    assert_eq!(migration.remove(3), Some((30, ())));
    assert_eq!(migration.chunk.entries[3], EntryTemplate(3, 0));
    assert_eq!(migration.get(3, false), None);
    assert_eq!(migration.remove(5), Some((50, ())));
}

#[test]
fn an_entry_whose_key_is_in_the_new_chunk_stays_behind() {
    let mut old_chunk = WordChunk::alloc_chunk(4);
    old_chunk.modify_entry(3, ModOp::Insert(30, ()));
    old_chunk.modify_entry(2, ModOp::Insert(20, ()));
    let mut new_chunk = WordChunk::alloc_chunk(8);
    new_chunk.modify_entry(3, ModOp::Insert(31, ()));
    assert_eq!(old_chunk.migrate_entry(&mut new_chunk, 3), None);
    assert_eq!(old_chunk.entries[3], EntryTemplate(3, 30));
    assert_eq!(new_chunk.entries[3], EntryTemplate(3, 31));
    assert_eq!(old_chunk.migrate_entry(&mut new_chunk, 2), Some(2));
    assert_eq!(old_chunk.entries[2], EntryTemplate(2, 1));
    assert_eq!(new_chunk.entries[2], EntryTemplate(2, 20));
    assert_eq!(old_chunk.migrate_entry(&mut new_chunk, 2), None);
    assert_eq!(old_chunk.migrate_entry(&mut new_chunk, 0), None);
}

#[test]
fn objects_move_with_their_entries() {
    let mut table =
        Table::<(u32, u32), ObjectAttachment<(u32, u32)>, PassthroughHasher>::with_capacity(2);
    table.insert(1, 10, (1, 1));
    table.insert(2, 20, (2, 2));
    let mut migration = match table.begin_migration() {
        Ok(migration) => migration,
        Err(_) => panic!("the table is not overloaded"),
    };
    assert_eq!(migration.get(2, true), Some((20, Some((2, 2)))));
    migration.step();
    migration.step();
    assert_eq!(migration.get(2, true), Some((20, Some((2, 2)))));
    assert_eq!(migration.insert(1, 11, (3, 3)), Some(10));
    assert_eq!(migration.remove(2), Some((20, (2, 2))));
    let table = migration.finish();
    assert_eq!(table.entries(), vec![(1, 11, (3, 3))]);
}

#[test]
fn a_copy_of_a_migration_goes_its_own_way() {
    let mut migration = begun(overloaded(16, 1..13));
    migration.step();
    migration.step();
    let mut copy = migration.clone();
    copy.insert(3, 33, ());
    while !migration.is_complete() {
        migration.step();
    }
    assert_eq!(copy.cursor, 2);
    assert_eq!(copy.get(3, false), Some((33, None)));
    let table = migration.finish();
    assert_eq!(table.get(3, false), Some((30, None)));
}
