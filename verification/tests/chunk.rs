use word_table::attachment::{Attachment, ObjectAttachment, WordAttachment};
use word_table::chunk::{Chunk, EntryTemplate, ModOp, ModOutput, ModResult};
use word_table::hasher::PassthroughHasher;
use word_table::value::{ParsedValue, Value};

type WordChunk = Chunk<(), WordAttachment, PassthroughHasher>;

fn addr(index: usize) -> usize {
    64 + index * 2 * std::mem::size_of::<usize>()
}

#[test]
fn a_new_chunk_is_empty_and_laid_out() {
    let chunk = WordChunk::alloc_chunk(16);
    assert_eq!(chunk.capacity, 16);
    assert_eq!(chunk.occupation, 0);
    assert_eq!(chunk.occu_limit, 11);
    assert_eq!(chunk.base, 64);
    assert_eq!(chunk.total_size, 64 + 16 * 2 * std::mem::size_of::<usize>());
    assert_eq!(chunk.cap_mask(), 15);
    assert!(chunk.entries.iter().all(|e| *e == EntryTemplate(0, 0)));
    assert_eq!(chunk.get_from_chunk(7), (Value::new(0), 0));
    assert!(chunk.all_from_chunk().is_empty());
}

#[test]
fn a_chunk_of_objects_counts_their_bytes() {
    let chunk = Chunk::<[u64; 4], ObjectAttachment<[u64; 4]>, PassthroughHasher>::alloc_chunk(8);
    assert_eq!(chunk.total_size, 64 + 8 * 2 * std::mem::size_of::<usize>() + 8 * 32);
    assert_eq!(chunk.attachment.obj_chunk, 64 + 8 * 2 * std::mem::size_of::<usize>());
    assert_eq!(chunk.attachment.addr_by_index(3), chunk.attachment.obj_chunk + 96);
    assert_eq!(ObjectAttachment::<[u64; 4]>::heap_size_of(8), 256);
    assert_eq!(WordAttachment::heap_size_of(8), 0);
}

#[test]
fn insert_claims_the_first_free_slot_of_the_probe() {
    let mut chunk = WordChunk::alloc_chunk(4);
    assert_eq!(
        chunk.modify_entry(1, ModOp::Insert(10, ())),
        ModOutput::new(ModResult::Done(addr(1)), 1)
    );
    assert_eq!(
        chunk.modify_entry(5, ModOp::Insert(50, ())),
        ModOutput::new(ModResult::Done(addr(2)), 2)
    );
    assert_eq!(chunk.get_key(1), 1);
    assert_eq!(chunk.get_key(2), 5);
    assert_eq!(chunk.get_value(2), Value { raw: 50, parsed: ParsedValue::Val(50) });
    assert_eq!(chunk.get_from_chunk(5), (Value::new(50), 2));
    assert_eq!(chunk.get_from_chunk(9), (Value::new(0), 0));
    assert_eq!(chunk.all_from_chunk(), vec![(1, 10, ()), (5, 50, ())]);
    assert_eq!(chunk.entry_addr(2), addr(2));
}

#[test]
fn insert_over_a_value_leaves_a_tombstone_and_takes_a_new_slot() {
    let mut chunk = WordChunk::alloc_chunk(4);
    chunk.modify_entry(1, ModOp::Insert(10, ()));
    assert_eq!(
        chunk.modify_entry(1, ModOp::Insert(11, ())),
        ModOutput::new(ModResult::Replaced(10), 2)
    );
    assert_eq!(chunk.entries[1], EntryTemplate(1, 0));
    assert_eq!(chunk.entries[2], EntryTemplate(1, 11));
    assert_eq!(chunk.get_from_chunk(1), (Value::new(11), 2));
}

#[test]
fn attempt_insert_does_not_overwrite() {
    let mut chunk = WordChunk::alloc_chunk(4);
    chunk.modify_entry(1, ModOp::Insert(10, ()));
    assert_eq!(
        chunk.modify_entry(1, ModOp::AttemptInsert(11, ())),
        ModOutput::new(ModResult::Fail(10), 1)
    );
    assert_eq!(chunk.get_from_chunk(1), (Value::new(10), 1));
    assert_eq!(
        chunk.modify_entry(2, ModOp::AttemptInsert(20, ())),
        ModOutput::new(ModResult::Done(addr(2)), 2)
    );
}

#[test]
fn empty_removes_or_fails() {
    let mut chunk = WordChunk::alloc_chunk(4);
    chunk.modify_entry(1, ModOp::Insert(10, ()));
    assert_eq!(chunk.modify_entry(9, ModOp::Empty), ModOutput::new(ModResult::Fail(0), 2));
    assert_eq!(chunk.modify_entry(1, ModOp::Empty), ModOutput::new(ModResult::Replaced(10), 1));
    assert_eq!(chunk.entries[1], EntryTemplate(1, 0));
    assert_eq!(chunk.get_from_chunk(1), (Value::new(0), 0));
    assert_eq!(chunk.modify_entry(1, ModOp::Empty), ModOutput::new(ModResult::Fail(0), 2));
}

#[test]
fn sentinel_marks_and_stops_writers() {
    let mut chunk = WordChunk::alloc_chunk(4);
    chunk.modify_entry(1, ModOp::Insert(10, ()));
    assert_eq!(
        chunk.modify_entry(1, ModOp::Sentinel),
        ModOutput::new(ModResult::Done(addr(1)), 1)
    );
    assert_eq!(chunk.get_from_chunk(1), (Value { raw: 1, parsed: ParsedValue::Sentinel }, 1));
    assert_eq!(
        chunk.modify_entry(1, ModOp::Insert(12, ())),
        ModOutput::new(ModResult::Sentinel, 1)
    );
    assert_eq!(chunk.modify_entry(1, ModOp::Empty), ModOutput::new(ModResult::Sentinel, 1));
    assert_eq!(
        chunk.modify_entry(1, ModOp::AttemptInsert(12, ())),
        ModOutput::new(ModResult::Sentinel, 1)
    );
    assert_eq!(
        chunk.modify_entry(2, ModOp::Sentinel),
        ModOutput::new(ModResult::Done(addr(2)), 2)
    );
    assert_eq!(chunk.entries[2], EntryTemplate(2, 1));
    assert!(chunk.all_from_chunk().is_empty());
}

#[test]
fn a_full_chunk_takes_no_new_key() {
    let mut chunk = WordChunk::alloc_chunk(2);
    chunk.modify_entry(1, ModOp::Insert(10, ()));
    chunk.modify_entry(2, ModOp::Insert(20, ()));
    assert_eq!(
        chunk.modify_entry(3, ModOp::Insert(30, ())),
        ModOutput::new(ModResult::TableFull, 0)
    );
    assert_eq!(
        chunk.modify_entry(3, ModOp::AttemptInsert(30, ())),
        ModOutput::new(ModResult::TableFull, 0)
    );
    assert_eq!(chunk.modify_entry(3, ModOp::Empty), ModOutput::new(ModResult::NotFound, 0));
    assert_eq!(chunk.modify_entry(3, ModOp::Sentinel), ModOutput::new(ModResult::NotFound, 0));
    assert_eq!(
        chunk.modify_entry(1, ModOp::Insert(11, ())),
        ModOutput::new(ModResult::TableFull, 0)
    );
    assert_eq!(chunk.get_from_chunk(1), (Value::new(0), 0));
    assert_eq!(chunk.get_from_chunk(2), (Value::new(20), 0));
}

#[test]
fn the_key_zero_is_never_found_nor_put() {
    let mut chunk = WordChunk::alloc_chunk(4);
    assert_eq!(chunk.get_from_chunk(0), (Value::new(0), 0));
    assert_eq!(
        chunk.modify_entry(0, ModOp::Insert(10, ())),
        ModOutput::new(ModResult::TableFull, 0)
    );
    assert_eq!(chunk.modify_entry(0, ModOp::Empty), ModOutput::new(ModResult::NotFound, 0));
    assert!(chunk.entries.iter().all(|e| *e == EntryTemplate(0, 0)));
}

#[test]
fn the_slot_primitives_write_one_word() {
    let mut chunk = WordChunk::alloc_chunk(4);
    assert!(chunk.cas_value(3, 0, 7));
    assert!(!chunk.cas_value(3, 0, 8));
    chunk.set_key(3, 3);
    assert_eq!(chunk.entries[3], EntryTemplate(3, 7));
    assert!(!chunk.set_tombstone(3, 6));
    chunk.set_sentinel(3);
    assert_eq!(chunk.entries[3], EntryTemplate(3, 1));
    assert!(chunk.set_tombstone(3, 1));
    assert_eq!(chunk.entries[3], EntryTemplate(3, 0));
    assert_eq!(
        chunk.put_in_empty(0, 4, 40, Some(()), Some(9), 64),
        (ModResult::Replaced(9), None)
    );
    assert_eq!(chunk.put_in_empty(0, 8, 80, Some(()), None, 64), (ModResult::Fail(0), Some(())));
    assert_eq!(chunk.put_in_empty(1, 5, 50, None, None, 80), (ModResult::Done(80), None));
}

#[test]
fn objects_stay_with_their_slots() {
    let mut chunk = Chunk::<(u8, u8), ObjectAttachment<(u8, u8)>, PassthroughHasher>::alloc_chunk(4);
    chunk.modify_entry(1, ModOp::Insert(10, (1, 2)));
    chunk.modify_entry(5, ModOp::Insert(50, (5, 6)));
    chunk.modify_entry(1, ModOp::Insert(11, (3, 4)));
    assert_eq!(chunk.all_from_chunk(), vec![(5, 50, (5, 6)), (1, 11, (3, 4))]);
    let copy = chunk.clone();
    chunk.modify_entry(5, ModOp::Empty);
    assert_eq!(copy.all_from_chunk(), vec![(5, 50, (5, 6)), (1, 11, (3, 4))]);
    assert_eq!(chunk.all_from_chunk(), vec![(1, 11, (3, 4))]);
    assert_eq!(chunk.attachment.get(2, 5), (5, 6));
    chunk.gc();
}
