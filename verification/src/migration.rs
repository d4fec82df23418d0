use crate::attachment::Attachment;
use crate::chunk::{
    find_slot, has_free, holds, lemma_found, raw_of, Chunk, EntryTemplate, ModKind, ModOp,
    ModResult,
};
use crate::hasher::WordHasher;
use crate::layout::next_capacity;
use crate::lookup::{
    claimed, claims, lemma_claimed_bound, lemma_claimed_none, lemma_claimed_room,
    lemma_entries_upto, lemma_handed_over, lemma_modify_key, lemma_others_kept, lookup_upto,
    others_kept, quiet,
};
use crate::table::{
    lemma_quiet_after_erase, lemma_quiet_after_insert, lemma_quiet_lookup, spec_get, spec_insert,
    spec_remove, Table,
};
use crate::value::{
    lemma_masked, lemma_sentinel_word, spec_inv_bit_mask, spec_parse, spec_val_bit_mask,
    ParsedValue, EMPTY_KEY, SENTINEL_VALUE,
};
use vstd::prelude::*;

verus! {

/// No value word is primed.
pub open spec fn unprimed(s: Seq<EntryTemplate>) -> bool {
    forall|i: int| 0 <= i < s.len() ==> !(spec_parse((#[trigger] s[i]).1) is Prime)
}

/// A table on its way from one chunk to the next. The entries of the old chunk are
/// handed over slot by slot; between any two of these steps the table can be read and
/// written, and what is written goes into the new chunk.
pub struct Migration<V, A: Attachment<V>, H: WordHasher> {
    /// The chunk that gives its entries away.
    pub chunk: Chunk<V, A, H>,
    /// The chunk that takes over.
    pub new_chunk: Chunk<V, A, H>,
    /// The slot of the old chunk that is handed over next.
    pub cursor: usize,
    /// The number of entries handed over so far.
    pub effective_copy: usize,
    /// The bits of a payload.
    pub val_bit_mask: usize,
    /// The bit that marks a primed value.
    pub inv_bit_mask: usize,
}

impl<V, A: Attachment<V>, H: WordHasher> View for Migration<V, A, H> {
    type V = Map<usize, (usize, V)>;

    /// The keys that the table holds, each with its payload and with what is attached.
    open spec fn view(&self) -> Map<usize, (usize, V)> {
        Map::new(|k: usize| self.held(k) is Some, |k: usize| self.held(k).unwrap())
    }
}

impl<V, A: Attachment<V>, H: WordHasher> Migration<V, A, H> {
    /// The key has an ordinary value in the old chunk: its entry has not been handed
    /// over, and nothing has been written under it since the migration began.
    pub open spec fn unmigrated(&self, key: usize) -> bool {
        spec_parse(raw_of(self.chunk.slots(), key)) is Val
    }

    /// The key has a value in the new chunk to which nothing in the old chunk points:
    /// a reader, who begins in the old chunk, does not get there.
    pub open spec fn hidden(&self, key: usize) -> bool {
        raw_of(self.chunk.slots(), key) == 0 && raw_of(self.new_chunk.slots(), key) != 0
    }

    /// What the table holds for `key`: what the old chunk has for it while its entry
    /// has not been handed over, and what the new chunk has for it otherwise.
    pub open spec fn held(&self, key: usize) -> Option<(usize, V)> {
        if self.unmigrated(key) {
            self.chunk.lookup(key)
        } else {
            self.new_chunk.lookup(key)
        }
    }

    /// The number of slots claimed in the new chunk.
    pub open spec fn new_claimed(&self) -> nat {
        claimed(self.new_chunk.slots())
    }

    /// What holds of a migration between steps: both chunks are in order; the old one
    /// holds no primed value, and no ordinary one below the cursor; the new one holds
    /// ordinary values only, and none for a key that still has one in the old chunk;
    /// the new chunk has counted every claimed slot but those of the entries handed
    /// over; and the old chunk has not counted more slots than it has.
    pub open spec fn wf(&self) -> bool {
        &&& self.chunk.wf()
        &&& self.new_chunk.wf()
        &&& unprimed(self.chunk.slots())
        &&& quiet(self.new_chunk.slots())
        &&& self.cursor <= self.chunk.capacity
        &&& forall|i: int|
            0 <= i < self.cursor ==> !(spec_parse((#[trigger] self.chunk.slots()[i]).1) is Val)
        &&& forall|k: usize| #[trigger]
            raw_of(self.new_chunk.slots(), k) != 0 ==> !self.unmigrated(k)
        &&& claimed(self.new_chunk.slots()) == self.new_chunk.occupation + self.effective_copy
        &&& self.chunk.occupation <= self.chunk.capacity
        &&& self.val_bit_mask == spec_val_bit_mask()
        &&& self.inv_bit_mask == spec_inv_bit_mask()
    }

    /// The payload that the table holds for `key`.
    pub open spec fn payload_of(&self, key: usize) -> Option<usize> {
        match self@.get(key) {
            Some(found) => Some(found.0),
            None => None,
        }
    }

    /// What a reader gets for `key`: what the table holds for it, but nothing for a
    /// hidden key.
    pub open spec fn spec_get(&self, key: usize, read_attachment: bool) -> Option<
        (usize, Option<V>),
    > {
        if self.hidden(key) {
            None
        } else {
            spec_get(self@, key, read_attachment)
        }
    }

    /// The payload of `key`, and what is attached to it where `read_attachment` asks
    /// for it. The reader begins in the old chunk and goes on to the new one where it
    /// meets a sentinel; so it gets what the table holds, but for a hidden key.
    pub fn get(&self, key: usize, read_attachment: bool) -> (found: Option<(usize, Option<V>)>)
        requires
            self.wf(),
        ensures
            found == self.spec_get(key, read_attachment),
    {
        proof {
            lemma_sentinel_word();
            lemma_quiet_lookup(self.new_chunk, key);
            assert(spec_parse(0) == ParsedValue::Empty);
            match find_slot(self.chunk.slots(), key) {
                Some(i) => {
                    assert(holds(self.chunk.slots(), i, key));
                },
                None => {},
            }
        }
        let (val, idx) = self.chunk.get_from_chunk(key);
        match val.parsed {
            ParsedValue::Prime(val) | ParsedValue::Val(val) => {
                return Some(
                    (
                        val,
                        if read_attachment {
                            Some(self.chunk.attachment.get(idx, key))
                        } else {
                            None
                        },
                    ),
                )
            },
            ParsedValue::Sentinel => {
                let (val, idx) = self.new_chunk.get_from_chunk(key);
                match val.parsed {
                    ParsedValue::Prime(val) | ParsedValue::Val(val) => {
                        return Some(
                            (
                                val,
                                if read_attachment {
                                    Some(self.new_chunk.attachment.get(idx, key))
                                } else {
                                    None
                                },
                            ),
                        )
                    },
                    _ => return None,
                }
            },
            ParsedValue::Empty => return None,
        }
    }

    /// Puts the payload of `value` and `attached_val` under `key` in the new chunk,
    /// marks the key in the old chunk with a sentinel, and gives back the payload that
    /// the key had in the new chunk. Where the old chunk has nothing for the key and no
    /// slot left for the sentinel, the key stays hidden from readers until the
    /// migration ends.
    pub fn insert(&mut self, key: usize, value: usize, attached_val: V) -> (prior: Option<usize>)
        requires
            old(self).wf(),
            key != EMPTY_KEY,
            value & spec_val_bit_mask() != SENTINEL_VALUE,
            old(self).new_claimed() < old(self).new_chunk.capacity,
        ensures
            final(self).wf(),
            final(self)@ == spec_insert(old(self)@, key, value, attached_val),
            prior == (if old(self).unmigrated(key) {
                None
            } else {
                old(self).payload_of(key)
            }),
            final(self).cursor == old(self).cursor,
            final(self).effective_copy == old(self).effective_copy,
            final(self).new_claimed() == old(self).new_claimed() + 1,
            final(self).chunk.capacity == old(self).chunk.capacity,
            final(self).new_chunk.capacity == old(self).new_chunk.capacity,
            final(self).hidden(key) == (value & spec_val_bit_mask() != 0 && raw_of(
                old(self).chunk.slots(),
                key,
            ) == 0 && !has_free(old(self).chunk.slots())),
            forall|k: usize| k != key ==> final(self).hidden(k) == old(self).hidden(k),
            !final(self).unmigrated(key),
            forall|k: usize| k != key ==> final(self).unmigrated(k) == old(self).unmigrated(k),
    {
        let ghost old0 = self.chunk;
        let ghost new0 = self.new_chunk;
        let ghost att = attached_val;
        let payload = value & self.val_bit_mask;
        let ghost kind = ModKind::Insert(payload);
        proof {
            lemma_masked(value);
            lemma_sentinel_word();
            assert(spec_parse(0) == ParsedValue::Empty);
            lemma_quiet_lookup(new0, key);
            lemma_claimed_bound(new0.slots(), new0.slots().len());
            lemma_claimed_room(new0.slots(), new0.slots().len());
        }
        let value_insertion = self.new_chunk.modify_entry(
            key,
            ModOp::Insert(payload, attached_val),
        );
        let ghost new1 = self.new_chunk;
        proof {
            lemma_modify_key(new0, new1, key, kind, Some(att), value_insertion);
            assert(claims(new0.slots(), key, kind));
            lemma_quiet_after_insert(new0, new1, key, payload, value_insertion.index as int);
            lemma_others_kept(new0, new1, key, kind, Some(att), value_insertion);
            assert(new1.lookup(key) == (if payload == 0 {
                None
            } else {
                Some((payload, att))
            }));
        }
        let mut result = None;
        match value_insertion.result {
            ModResult::Done(_) => {},
            ModResult::Replaced(v) | ModResult::Fail(v) => result = Some(v),
            // A sentinel in the new chunk would send the writer on once more.
            ModResult::Sentinel => return None,
            // The new chunk has room for the entry.
            ModResult::TableFull | ModResult::NotFound => vstd::pervasive::unreached(),
        }
        // Readers of the old chunk learn to follow.
        let marking = self.chunk.modify_entry(key, ModOp::Sentinel);
        self.new_chunk.occupation = self.new_chunk.occupation + 1;
        proof {
            let old1 = self.chunk;
            let new2 = self.new_chunk;
            lemma_modify_key(old0, old1, key, ModKind::Sentinel, None, marking);
            lemma_others_kept(old0, old1, key, ModKind::Sentinel, None, marking);
            lemma_sentinel_marks(old0, old1, key);
            assert forall|k: usize| #[trigger] new2.lookup(k) == new1.lookup(k) by {}
            assert(others_kept(new0, new2, key));
            assert forall|k: usize| self.held(k) == (if k != key {
                old(self).held(k)
            } else if payload == 0 {
                None
            } else {
                Some((payload, att))
            }) by {}
            if payload == 0 {
                assert(self@ =~= old(self)@.remove(key));
            } else {
                assert(self@ =~= old(self)@.insert(key, (payload, att)));
            }
            assert forall|k: usize| #[trigger]
                raw_of(self.new_chunk.slots(), k) != 0 implies !self.unmigrated(k) by {
                if k != key {
                    assert(raw_of(new0.slots(), k) != 0);
                    assert(raw_of(old1.slots(), k) == raw_of(old0.slots(), k));
                }
            }
            assert forall|k: usize| k != key implies self.hidden(k) == old(self).hidden(k)
                && self.unmigrated(k) == old(self).unmigrated(k) by {
                assert(raw_of(old1.slots(), k) == raw_of(old0.slots(), k));
                assert(raw_of(new2.slots(), k) == raw_of(new0.slots(), k));
            }
        }
        result
    }

    /// Takes the entry of `key` away and gives back what it held. The entry is looked
    /// for in the new chunk; only where that chunk is full and has nothing for the key,
    /// it is looked for in the old one. So an entry that has not been handed over stays
    /// where the new chunk has room.
    pub fn remove(&mut self, key: usize) -> (removed: Option<(usize, V)>)
        requires
            old(self).wf(),
        ensures
            final(self).wf(),
            old(self).unmigrated(key) && has_free(old(self).new_chunk.slots()) ==> {
                &&& removed is None
                &&& final(self)@ == old(self)@
            },
            !(old(self).unmigrated(key) && has_free(old(self).new_chunk.slots())) ==> {
                &&& removed == old(self)@.get(key)
                &&& final(self)@ == spec_remove(old(self)@, key)
            },
            final(self).cursor == old(self).cursor,
            final(self).effective_copy == old(self).effective_copy,
            final(self).new_claimed() == old(self).new_claimed(),
            final(self).chunk.capacity == old(self).chunk.capacity,
            final(self).new_chunk.capacity == old(self).new_chunk.capacity,
            !final(self).hidden(key),
            forall|k: usize| k != key ==> final(self).hidden(k) == old(self).hidden(k),
            final(self).unmigrated(key) == (old(self).unmigrated(key) && has_free(
                old(self).new_chunk.slots(),
            )),
            forall|k: usize| k != key ==> final(self).unmigrated(k) == old(self).unmigrated(k),
    {
        let ghost old0 = self.chunk;
        let ghost new0 = self.new_chunk;
        proof {
            lemma_sentinel_word();
            assert(spec_parse(0) == ParsedValue::Empty);
            lemma_quiet_lookup(new0, key);
        }
        let res = self.new_chunk.modify_entry(key, ModOp::Empty);
        let ghost new1 = self.new_chunk;
        let mut retr = None;
        proof {
            lemma_modify_key(new0, new1, key, ModKind::Empty, None, res);
            lemma_quiet_after_erase(new0, new1, key);
            lemma_others_kept(new0, new1, key, ModKind::Empty, None, res);
            assert(others_kept(old0, self.chunk, key));
        }
        match res.result {
            ModResult::Done(v) | ModResult::Replaced(v) => {
                retr = Some((v, self.new_chunk.attachment.get(res.index, key)));
                // Readers of the old chunk learn to follow.
                let marking = self.chunk.modify_entry(key, ModOp::Sentinel);
                proof {
                    let old1 = self.chunk;
                    lemma_modify_key(old0, old1, key, ModKind::Sentinel, None, marking);
                    lemma_others_kept(old0, old1, key, ModKind::Sentinel, None, marking);
                    lemma_sentinel_marks(old0, old1, key);
                }
            },
            ModResult::NotFound => {
                // The new chunk is full and has nothing for the key: the entry may not
                // have been handed over yet.
                let remove_from_old = self.chunk.modify_entry(key, ModOp::Empty);
                proof {
                    let old1 = self.chunk;
                    lemma_modify_key(old0, old1, key, ModKind::Empty, None, remove_from_old);
                    lemma_others_kept(old0, old1, key, ModKind::Empty, None, remove_from_old);
                    lemma_tombstone_marks(old0, old1, key);
                    match find_slot(old0.slots(), key) {
                        Some(i) => {
                            assert(holds(old0.slots(), i, key));
                        },
                        None => {},
                    }
                }
                match remove_from_old.result {
                    ModResult::Done(v) | ModResult::Replaced(v) => {
                        retr = Some((v, self.chunk.attachment.get(remove_from_old.index, key)));
                    },
                    _ => {},
                }
            },
            _ => {},
        };
        proof {
            let stays = old(self).unmigrated(key) && has_free(new0.slots());
            assert forall|k: usize| self.held(k) == (if k != key || stays {
                old(self).held(k)
            } else {
                None
            }) by {}
            if stays {
                assert(self@ =~= old(self)@);
            } else {
                assert(self@ =~= old(self)@.remove(key));
            }
            let old1 = self.chunk;
            assert(others_kept(old0, old1, key));
            assert forall|k: usize| #[trigger]
                raw_of(self.new_chunk.slots(), k) != 0 implies !self.unmigrated(k) by {
                if k != key {
                    assert(raw_of(new0.slots(), k) != 0);
                    assert(raw_of(old1.slots(), k) == raw_of(old0.slots(), k));
                }
            }
            assert forall|k: usize| k != key implies self.hidden(k) == old(self).hidden(k)
                && self.unmigrated(k) == old(self).unmigrated(k) by {
                assert(raw_of(old1.slots(), k) == raw_of(old0.slots(), k));
                assert(raw_of(new1.slots(), k) == raw_of(new0.slots(), k));
            }
        }
        retr
    }

    /// The keys of both chunks that have a payload, each with its payload and with what
    /// is attached to it: those of the old chunk first, then those of the new one, each
    /// in the order of their slots.
    pub fn entries(&self) -> (res: Vec<(usize, usize, V)>)
        requires
            self.wf(),
        ensures
            res@ == self.chunk.entries_upto(self.chunk.capacity as nat)
                + self.new_chunk.entries_upto(self.new_chunk.capacity as nat),
            forall|j: int|
                0 <= j < res@.len() ==> self@.get((#[trigger] res@[j]).0) == Some(
                    (res@[j].1, res@[j].2),
                ),
            forall|k: usize| #[trigger]
                self@.contains_key(k) ==> exists|j: int|
                    0 <= j < res@.len() && (#[trigger] res@[j]).0 == k,
            forall|j1: int, j2: int|
                0 <= j1 < j2 < res@.len() ==> (#[trigger] res@[j1]).0 != (#[trigger] res@[j2]).0,
    {
        let mut res = self.chunk.all_from_chunk();
        let mut rest = self.new_chunk.all_from_chunk();
        proof {
            let first = res@;
            let second = rest@;
            let all = first + second;
            lemma_sentinel_word();
            assert(spec_parse(0) == ParsedValue::Empty);
            lemma_entries_upto(self.chunk, self.chunk.capacity as nat);
            lemma_entries_upto(self.new_chunk, self.new_chunk.capacity as nat);
            // what the old chunk lists has an ordinary value there
            assert forall|j: int| 0 <= j < first.len() implies self.unmigrated(
                (#[trigger] first[j]).0,
            ) && self.chunk.lookup(first[j].0) == Some((first[j].1, first[j].2)) by {
                let k = first[j].0;
                assert(lookup_upto(self.chunk, self.chunk.capacity as int, k) is Some);
                let i = find_slot(self.chunk.slots(), k).unwrap();
                assert(holds(self.chunk.slots(), i, k));
            }
            // what the new chunk lists has no ordinary value in the old one
            assert forall|j: int| 0 <= j < second.len() implies !self.unmigrated(
                (#[trigger] second[j]).0,
            ) && self.new_chunk.lookup(second[j].0) == Some((second[j].1, second[j].2)) by {
                let k = second[j].0;
                assert(lookup_upto(self.new_chunk, self.new_chunk.capacity as int, k) is Some);
                let i = find_slot(self.new_chunk.slots(), k).unwrap();
                assert(holds(self.new_chunk.slots(), i, k));
                assert(raw_of(self.new_chunk.slots(), k) != 0);
            }
            assert forall|j: int| 0 <= j < all.len() implies self@.get((#[trigger] all[j]).0)
                == Some((all[j].1, all[j].2)) by {
                if j < first.len() {
                    assert(all[j] == first[j]);
                } else {
                    assert(all[j] == second[j - first.len()]);
                }
            }
            assert forall|k: usize| #[trigger] self@.contains_key(k) implies exists|j: int|
                0 <= j < all.len() && (#[trigger] all[j]).0 == k by {
                if self.unmigrated(k) {
                    let i = find_slot(self.chunk.slots(), k).unwrap();
                    assert(holds(self.chunk.slots(), i, k));
                    assert(lookup_upto(self.chunk, self.chunk.capacity as int, k) is Some);
                    let j = choose|j: int| 0 <= j < first.len() && (#[trigger] first[j]).0 == k;
                    assert(all[j] == first[j]);
                } else {
                    let i = find_slot(self.new_chunk.slots(), k).unwrap();
                    assert(holds(self.new_chunk.slots(), i, k));
                    assert(lookup_upto(self.new_chunk, self.new_chunk.capacity as int, k) is Some);
                    let j = choose|j: int| 0 <= j < second.len() && (#[trigger] second[j]).0 == k;
                    assert(all[first.len() + j] == second[j]);
                }
            }
            assert forall|j1: int, j2: int| 0 <= j1 < j2 < all.len() implies (
            #[trigger] all[j1]).0 != (#[trigger] all[j2]).0 by {
                if j2 < first.len() {
                    assert(all[j1] == first[j1] && all[j2] == first[j2]);
                } else if j1 >= first.len() {
                    assert(all[j1] == second[j1 - first.len()]);
                    assert(all[j2] == second[j2 - first.len()]);
                } else {
                    assert(all[j1] == first[j1]);
                    assert(all[j2] == second[j2 - first.len()]);
                }
            }
        }
        res.append(&mut rest);
        res
    }

    /// Every slot of the old chunk has been looked at.
    pub fn is_complete(&self) -> (done: bool)
        ensures
            done == (self.cursor >= self.chunk.capacity),
    {
        self.cursor >= self.chunk.capacity
    }

    /// The new chunk has an unclaimed slot left.
    pub fn has_room(&self) -> (room: bool)
        requires
            self.wf(),
        ensures
            room == (self.new_claimed() < self.new_chunk.capacity),
            room ==> has_free(self.new_chunk.slots()),
    {
        proof {
            lemma_claimed_bound(self.new_chunk.slots(), self.new_chunk.slots().len());
            if self.new_claimed() < self.new_chunk.capacity {
                lemma_claimed_room(self.new_chunk.slots(), self.new_chunk.slots().len());
            }
        }
        self.new_chunk.occupation < self.new_chunk.capacity - self.effective_copy
    }

    /// Hands the entry under the cursor over to the new chunk, if there is one with a
    /// value, and moves the cursor on. Tells whether an entry went over.
    pub fn step(&mut self) -> (moved: bool)
        requires
            old(self).wf(),
            old(self).cursor < old(self).chunk.capacity,
            old(self).new_claimed() < old(self).new_chunk.capacity,
        ensures
            final(self).wf(),
            final(self)@ == old(self)@,
            final(self).cursor == old(self).cursor + 1,
            final(self).effective_copy == old(self).effective_copy + if moved {
                1int
            } else {
                0int
            },
            final(self).new_claimed() == old(self).new_claimed() + if moved {
                1int
            } else {
                0int
            },
            moved == (spec_parse(old(self).chunk.slots()[old(self).cursor as int].1) is Val),
            final(self).chunk.capacity == old(self).chunk.capacity,
            final(self).new_chunk.capacity == old(self).new_chunk.capacity,
            forall|k: usize| final(self).hidden(k) == old(self).hidden(k),
            forall|k: usize|
                final(self).unmigrated(k) == (old(self).unmigrated(k) && !(moved && k == old(
                    self,
                ).chunk.slots()[old(self).cursor as int].0)),
    {
        let ghost old0 = self.chunk;
        let ghost new0 = self.new_chunk;
        let ghost s = self.chunk.slots();
        let idx = self.cursor;
        proof {
            lemma_sentinel_word();
            lemma_claimed_bound(new0.slots(), new0.slots().len());
            lemma_claimed_room(new0.slots(), new0.slots().len());
            assert(spec_parse(0) == ParsedValue::Empty);
            if spec_parse(s[idx as int].1) is Val {
                assert(holds(s, idx as int, s[idx as int].0));
                lemma_found::<H>(s, s[idx as int].0, idx as int);
                lemma_quiet_lookup(new0, s[idx as int].0);
            }
        }
        let moved_to = self.chunk.migrate_entry(&mut self.new_chunk, idx);
        if moved_to.is_some() {
            self.effective_copy = self.effective_copy + 1;
        }
        self.cursor = self.cursor + 1;
        proof {
            lemma_handed_over(old0, new0, self.chunk, self.new_chunk, idx as int, moved_to);
            let key = s[idx as int].0;
            assert forall|k: usize| self.held(k) == old(self).held(k) by {
                if moved_to is Some && k != key {
                    assert(self.chunk.lookup(k) == old0.lookup(k));
                    assert(self.new_chunk.lookup(k) == new0.lookup(k));
                }
            }
            assert(self@ =~= old(self)@);
            assert forall|k: usize| self.hidden(k) == old(self).hidden(k) by {
                if moved_to is Some && k != key {
                    assert(self.chunk.lookup(k) == old0.lookup(k));
                    assert(self.new_chunk.lookup(k) == new0.lookup(k));
                }
            }
            assert forall|k: usize|
                self.unmigrated(k) == (old(self).unmigrated(k) && !(moved_to is Some && k
                    == key)) by {
                if moved_to is Some && k != key {
                    assert(self.chunk.lookup(k) == old0.lookup(k));
                }
            }
            if moved_to is Some {
                assert forall|i: int| 0 <= i < self.chunk.slots().len() implies !(spec_parse(
                    (#[trigger] self.chunk.slots()[i]).1,
                ) is Prime) by {
                    if i != idx {
                        assert(self.chunk.slots()[i] == s[i]);
                    }
                }
                assert forall|i: int| 0 <= i < self.cursor implies !(spec_parse(
                    (#[trigger] self.chunk.slots()[i]).1,
                ) is Val) by {
                    if i != idx {
                        assert(self.chunk.slots()[i] == s[i]);
                    }
                }
                assert forall|k: usize| #[trigger]
                    raw_of(self.new_chunk.slots(), k) != 0 implies !self.unmigrated(k) by {
                    if k != key {
                        assert(self.chunk.lookup(k) == old0.lookup(k));
                        assert(self.new_chunk.lookup(k) == new0.lookup(k));
                        assert(raw_of(new0.slots(), k) != 0);
                    }
                }
            }
        }
        moved_to.is_some()
    }

    /// Ends the migration: the new chunk counts the entries that were handed over and
    /// becomes the chunk of a table at rest; the old chunk is given up.
    pub fn finish(self) -> (table: Table<V, A, H>)
        requires
            self.wf(),
            self.cursor == self.chunk.capacity,
        ensures
            table.wf(),
            table@ == self@,
            table.spec_capacity() == self.new_chunk.capacity,
            table.spec_occupation() == self.new_claimed(),
    {
        let mut new_chunk = self.new_chunk;
        let ghost copied = new_chunk;
        proof {
            lemma_claimed_bound(copied.slots(), copied.slots().len());
        }
        new_chunk.occupation = new_chunk.occupation + self.effective_copy;
        let table = Table {
            chunk: new_chunk,
            val_bit_mask: self.val_bit_mask,
            inv_bit_mask: self.inv_bit_mask,
        };
        proof {
            assert forall|k: usize| table.chunk.lookup(k) == self.held(k) by {
                assert(table.chunk.lookup(k) == copied.lookup(k));
                match find_slot(self.chunk.slots(), k) {
                    Some(i) => {
                        assert(holds(self.chunk.slots(), i, k));
                    },
                    None => {
                        assert(spec_parse(0) == ParsedValue::Empty);
                    },
                }
            }
            assert(table@ =~= self@);
        }
        self.chunk.gc();
        table
    }
}

impl<V, A: Attachment<V>, H: WordHasher> Table<V, A, H> {
    /// Begins the move into a larger chunk, where the chunk is overloaded: the new
    /// chunk is made, and no entry has been handed over yet. A table that is not
    /// overloaded comes back as it is.
    pub fn begin_migration(self) -> (res: Result<Migration<V, A, H>, Self>)
        requires
            self.wf(),
            self.overloaded() ==> Self::growth_fits(self.spec_capacity()),
        ensures
            res is Ok <==> self.overloaded(),
            res matches Err(table) ==> table == self,
            res matches Ok(migration) ==> {
                &&& migration.wf()
                &&& migration@ == self@
                &&& migration.chunk == self.chunk
                &&& migration.cursor == 0
                &&& migration.effective_copy == 0
                &&& migration.new_claimed() == 0
                &&& migration.new_chunk.capacity == crate::layout::spec_next_capacity(
                    self.spec_capacity(),
                )
                &&& forall|k: usize| !migration.hidden(k)
            },
    {
        if self.chunk.occupation <= self.chunk.occu_limit {
            return Err(self);
        }
        let new_cap = next_capacity(self.chunk.capacity);
        let new_chunk = Chunk::<V, A, H>::alloc_chunk(new_cap);
        let migration = Migration {
            chunk: self.chunk,
            new_chunk,
            cursor: 0,
            effective_copy: 0,
            val_bit_mask: self.val_bit_mask,
            inv_bit_mask: self.inv_bit_mask,
        };
        proof {
            let n = migration.new_chunk.slots();
            let s = migration.chunk.slots();
            assert(spec_parse(0) == ParsedValue::Empty);
            lemma_claimed_none(n, n.len());
            lemma_claimed_bound(s, s.len());
            assert forall|k: usize| raw_of(n, k) == 0 by {
                if exists|i: int| holds(n, i, k) {
                    let i = choose|i: int| holds(n, i, k);
                    assert(n[i] == EntryTemplate(0, 0));
                }
            }
            assert forall|k: usize| migration.held(k) == self.chunk.lookup(k) by {
                lemma_quiet_lookup(self.chunk, k);
            }
            assert(migration@ =~= self@);
        }
        Ok(migration)
    }
}

/// Marking a key with a sentinel keeps the order that a migration needs in the old
/// chunk: nothing gets primed, no slot gets an ordinary value, and the key has none.
pub proof fn lemma_sentinel_marks<V, A: Attachment<V>, H: WordHasher>(
    pre: Chunk<V, A, H>,
    post: Chunk<V, A, H>,
    key: usize,
)
    requires
        pre.wf(),
        post.wf(),
        exists|out: crate::chunk::ModOutput|
            crate::chunk::modify_post(pre, post, key, ModKind::Sentinel, None, out),
    ensures
        unprimed(pre.slots()) ==> unprimed(post.slots()),
        forall|i: int|
            0 <= i < pre.slots().len() && !(spec_parse((#[trigger] pre.slots()[i]).1) is Val)
                ==> !(spec_parse(post.slots()[i].1) is Val),
        !(spec_parse(raw_of(post.slots(), key)) is Val),
        raw_of(post.slots(), key) == 0 <==> raw_of(pre.slots(), key) == 0 && (key == EMPTY_KEY
            || !has_free(pre.slots())),
        post.slots().len() == pre.slots().len(),
{
    let out = choose|out: crate::chunk::ModOutput|
        crate::chunk::modify_post(pre, post, key, ModKind::Sentinel, None, out);
    lemma_sentinel_word();
    assert(spec_parse(0) == ParsedValue::Empty);
    lemma_modify_key(pre, post, key, ModKind::Sentinel, None, out);
    let s = pre.slots();
    let n = post.slots();
    if n != s {
        let j = if find_slot(s, key) is Some {
            find_slot(s, key).unwrap()
        } else {
            out.index as int
        };
        assert(n == s.update(j, EntryTemplate(key, SENTINEL_VALUE)));
        assert forall|i: int| 0 <= i < n.len() implies ((spec_parse((#[trigger] s[i]).1) is Prime
            || !(spec_parse(n[i].1) is Prime)) && (spec_parse(s[i].1) is Val || !(spec_parse(
            n[i].1,
        ) is Val))) by {
            if i != j {
                assert(n[i] == s[i]);
            }
        }
    }
    match find_slot(s, key) {
        Some(i) => {
            assert(holds(s, i, key));
        },
        None => {},
    }
}

/// Taking the value of a key away keeps the order that a migration needs in the old
/// chunk: nothing gets primed, no slot gets an ordinary value, and the key has none.
pub proof fn lemma_tombstone_marks<V, A: Attachment<V>, H: WordHasher>(
    pre: Chunk<V, A, H>,
    post: Chunk<V, A, H>,
    key: usize,
)
    requires
        pre.wf(),
        post.wf(),
        exists|out: crate::chunk::ModOutput|
            crate::chunk::modify_post(pre, post, key, ModKind::Empty, None, out),
    ensures
        unprimed(pre.slots()) ==> unprimed(post.slots()),
        forall|i: int|
            0 <= i < pre.slots().len() && !(spec_parse((#[trigger] pre.slots()[i]).1) is Val)
                ==> !(spec_parse(post.slots()[i].1) is Val),
        !(spec_parse(raw_of(post.slots(), key)) is Val),
        post.slots().len() == pre.slots().len(),
{
    let out = choose|out: crate::chunk::ModOutput|
        crate::chunk::modify_post(pre, post, key, ModKind::Empty, None, out);
    lemma_sentinel_word();
    assert(spec_parse(0) == ParsedValue::Empty);
    lemma_modify_key(pre, post, key, ModKind::Empty, None, out);
    let s = pre.slots();
    let n = post.slots();
    if n != s {
        let j = find_slot(s, key).unwrap();
        assert(n == s.update(j, EntryTemplate(key, 0)));
        assert forall|i: int| 0 <= i < n.len() implies ((spec_parse((#[trigger] s[i]).1) is Prime
            || !(spec_parse(n[i].1) is Prime)) && (spec_parse(s[i].1) is Val || !(spec_parse(
            n[i].1,
        ) is Val))) by {
            if i != j {
                assert(n[i] == s[i]);
            }
        }
    }
    match find_slot(s, key) {
        Some(i) => {
            assert(holds(s, i, key));
        },
        None => {},
    }
}

impl<V, A: Attachment<V>, H: WordHasher> Clone for Migration<V, A, H> {
    /// A second migration that holds what this one holds and has got as far, in chunks
    /// of its own.
    fn clone(&self) -> (copy: Self)
        ensures
            copy@ == self@,
            copy.cursor == self.cursor,
            copy.effective_copy == self.effective_copy,
            copy.new_claimed() == self.new_claimed(),
            forall|k: usize| copy.hidden(k) == self.hidden(k),
            forall|k: usize| copy.unmigrated(k) == self.unmigrated(k),
            self.wf() ==> copy.wf(),
    {
        let copy = Self {
            chunk: self.chunk.clone(),
            new_chunk: self.new_chunk.clone(),
            cursor: self.cursor,
            effective_copy: self.effective_copy,
            val_bit_mask: self.val_bit_mask,
            inv_bit_mask: self.inv_bit_mask,
        };
        proof {
            assert forall|k: usize| copy.held(k) == self.held(k) by {}
            assert(copy@ =~= self@);
        }
        copy
    }
}

} // verus!
