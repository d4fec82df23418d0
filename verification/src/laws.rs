use crate::attachment::Attachment;
use crate::hasher::WordHasher;
use crate::layout::spec_occupation_limit;
use crate::lookup::{claimed_upto, lemma_claimed_bound, live_count, live_upto};
use crate::maps::KeyMap;
use crate::migration::Migration;
use crate::chunk::{
    find_slot, has_free, holds, modify_post, raw_of, Chunk, EntryTemplate, ModKind, ModOutput,
};
use crate::table::{spec_get, spec_insert, spec_remove, Table};
use crate::value::{spec_parse, spec_val_bit_mask, ParsedValue, EMPTY_KEY, SENTINEL_VALUE};
use vstd::prelude::*;

verus! {

/// The word `value` can be a payload: its top bit is clear and it is neither of the two
/// reserved words.
pub open spec fn is_payload(value: usize) -> bool {
    &&& value & spec_val_bit_mask() == value
    &&& value != 0
    &&& value != SENTINEL_VALUE
}

/// What a table that holds `m` holds after the insertions `ops` have been made, one
/// after the other. Each is a key, a value and what is attached.
pub open spec fn spec_insert_all<V>(
    m: Map<usize, (usize, V)>,
    ops: Seq<(usize, usize, V)>,
) -> Map<usize, (usize, V)>
    decreases ops.len(),
{
    if ops.len() == 0 {
        m
    } else {
        spec_insert(
            spec_insert_all(m, ops.drop_last()),
            ops.last().0,
            ops.last().1,
            ops.last().2,
        )
    }
}

/// After a payload has been put under a key, a reader of that key gets the payload and
/// what was attached.
pub proof fn law_insert_then_get<V>(
    m: Map<usize, (usize, V)>,
    key: usize,
    value: usize,
    attached_val: V,
)
    requires
        is_payload(value),
    ensures
        spec_get(spec_insert(m, key, value, attached_val), key, true) == Some(
            (value, Some(attached_val)),
        ),
        spec_get(spec_insert(m, key, value, attached_val), key, false) == Some(
            (value, None::<V>),
        ),
{
}

/// An insertion changes what a reader gets for no other key.
pub proof fn law_insert_keeps_others<V>(
    m: Map<usize, (usize, V)>,
    key: usize,
    value: usize,
    attached_val: V,
    other: usize,
    read_attachment: bool,
)
    requires
        other != key,
    ensures
        spec_get(spec_insert(m, key, value, attached_val), other, read_attachment) == spec_get(
            m,
            other,
            read_attachment,
        ),
{
}

/// After a run of insertions, a reader of a key gets what the last insertion under that
/// key put there, however many chunks the table has gone through meanwhile.
pub proof fn law_inserts_retrievable<V>(
    m: Map<usize, (usize, V)>,
    ops: Seq<(usize, usize, V)>,
    i: int,
)
    requires
        0 <= i < ops.len(),
        is_payload(ops[i].1),
        forall|j: int| i < j < ops.len() ==> ops[j].0 != ops[i].0,
    ensures
        spec_get(spec_insert_all(m, ops), ops[i].0, true) == Some((ops[i].1, Some(ops[i].2))),
    decreases ops.len(),
{
    let last = ops.len() - 1;
    if i < last {
        let front = ops.drop_last();
        assert(front[i] == ops[i]);
        assert forall|j: int| i < j < front.len() implies front[j].0 != front[i].0 by {
            assert(front[j] == ops[j]);
        }
        law_inserts_retrievable(m, front, i);
        assert(ops[last].0 != ops[i].0);
    }
}

/// After a key has been removed, a reader of that key gets nothing.
pub proof fn law_remove_then_get<V>(m: Map<usize, (usize, V)>, key: usize, read_attachment: bool)
    ensures
        spec_get(spec_remove(m, key), key, read_attachment) is None,
{
}

/// A removal changes what a reader gets for no other key.
pub proof fn law_remove_keeps_others<V>(
    m: Map<usize, (usize, V)>,
    key: usize,
    other: usize,
    read_attachment: bool,
)
    requires
        other != key,
    ensures
        spec_get(spec_remove(m, key), other, read_attachment) == spec_get(
            m,
            other,
            read_attachment,
        ),
{
}

/// A slot that carries a payload has been claimed.
pub proof fn lemma_live_is_claimed(s: Seq<EntryTemplate>, n: nat)
    requires
        n <= s.len(),
        forall|i: int| 0 <= i < s.len() && (#[trigger] s[i]).0 == EMPTY_KEY ==> s[i].1 == 0,
    ensures
        live_upto(s, n) <= claimed_upto(s, n),
    decreases n,
{
    if n > 0 {
        lemma_live_is_claimed(s, (n - 1) as nat);
        assert(spec_parse(0) == ParsedValue::Empty);
    }
}

/// The number of claimed slots of a table never exceeds its capacity, and the keys that
/// a reader finds never outnumber the claimed slots.
pub proof fn law_occupancy_bound<V, A: Attachment<V>, H: WordHasher>(table: Table<V, A, H>)
    requires
        table.wf(),
    ensures
        0 <= table.spec_occupation() <= table.spec_capacity(),
        live_count(table.chunk.slots()) <= table.spec_occupation(),
{
    let s = table.chunk.slots();
    lemma_claimed_bound(s, s.len());
    lemma_live_is_claimed(s, s.len());
}

/// A table that is not overloaded holds at most seven tenths of its capacity in keys;
/// and no table is overloaded after the check of its load.
pub proof fn law_capacity_follows_load<V, A: Attachment<V>, H: WordHasher>(table: Table<V, A, H>)
    requires
        table.wf(),
        !table.overloaded(),
    ensures
        live_count(table.chunk.slots()) <= spec_occupation_limit(table.spec_capacity()),
{
    law_occupancy_bound(table);
}

/// Whatever a map of this kind stores for a value, a reader gets exactly that after the
/// value has been put under a key: an object comes back field by field.
pub proof fn law_map_round_trip<K, V, M: KeyMap<K, V>>(before: M, after: M, key: K, value: V)
    requires
        after.contents() == (match M::stored(value) {
            Some(v) => before.contents().insert(key, v),
            None => before.contents().remove(key),
        }),
    ensures
        after.contents().get(key) == M::stored(value),
{
}

/// After a key has been removed from a map of this kind, the map does not hold it.
pub proof fn law_map_remove<K, V, M: KeyMap<K, V>>(before: M, after: M, key: K)
    requires
        after.contents() == before.contents().remove(key),
    ensures
        !after.contents().contains_key(key),
        after.contents().get(key) is None,
{
}

/// A change never takes a key out of a slot, nor puts another key into a slot that
/// has one: a slot is claimed once, and for good.
pub proof fn law_keys_stay<V, A: Attachment<V>, H: WordHasher>(
    pre: Chunk<V, A, H>,
    post: Chunk<V, A, H>,
    key: usize,
    kind: ModKind,
    attach_val: Option<V>,
    out: ModOutput,
)
    requires
        pre.wf(),
        modify_post(pre, post, key, kind, attach_val, out),
    ensures
        post.slots().len() == pre.slots().len(),
        forall|i: int|
            0 <= i < pre.slots().len() && (#[trigger] pre.slots()[i]).0 != EMPTY_KEY
                ==> post.slots()[i].0 == pre.slots()[i].0,
{
    let s = pre.slots();
    match find_slot(s, key) {
        Some(i) => {
            assert(holds(s, i, key));
        },
        None => {},
    }
}

/// While a table is on its way from one chunk to the next, a reader gets the payload
/// that was put under a key, provided that the old chunk knows the key or has a slot
/// left in which to mark it.
pub proof fn law_migrating_insert_then_get<V, A: Attachment<V>, H: WordHasher>(
    before: Migration<V, A, H>,
    after: Migration<V, A, H>,
    key: usize,
    value: usize,
    attached_val: V,
)
    requires
        is_payload(value),
        raw_of(before.chunk.slots(), key) != 0 || has_free(before.chunk.slots()),
        after@ == spec_insert(before@, key, value, attached_val),
        after.hidden(key) == (value & spec_val_bit_mask() != 0 && raw_of(
            before.chunk.slots(),
            key,
        ) == 0 && !has_free(before.chunk.slots())),
    ensures
        after.spec_get(key, true) == Some((value, Some(attached_val))),
{
}

/// While a table is on its way from one chunk to the next, a reader gets nothing for
/// a key that has been removed, provided that the entry of the key had been handed over
/// or the new chunk was full.
pub proof fn law_migrating_remove_then_get<V, A: Attachment<V>, H: WordHasher>(
    before: Migration<V, A, H>,
    after: Migration<V, A, H>,
    key: usize,
    read_attachment: bool,
)
    requires
        !(before.unmigrated(key) && has_free(before.new_chunk.slots())),
        after@ == spec_remove(before@, key),
        !after.hidden(key),
    ensures
        after.spec_get(key, read_attachment) is None,
{
}

/// While a table is on its way from one chunk to the next, neither chunk has counted
/// more claimed slots than it has.
pub proof fn law_migrating_occupancy_bound<V, A: Attachment<V>, H: WordHasher>(
    migration: Migration<V, A, H>,
)
    requires
        migration.wf(),
    ensures
        0 <= migration.chunk.occupation <= migration.chunk.capacity,
        0 <= migration.new_chunk.occupation <= migration.new_chunk.capacity,
{
    let n = migration.new_chunk.slots();
    lemma_claimed_bound(n, n.len());
}

} // verus!
