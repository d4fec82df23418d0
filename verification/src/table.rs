use crate::attachment::Attachment;
use crate::chunk::{
    find_slot, holds, lemma_found, raw_of, same_attachments, Chunk, EntryTemplate, ModKind, ModOp,
    ModResult,
};
use crate::hasher::WordHasher;
use crate::layout::{next_capacity, spec_is_power_of_2, spec_next_capacity};
use crate::lookup::{
    claimed, claims, lemma_claimed_bound, lemma_claimed_none, lemma_claimed_room,
    lemma_entries_upto, lemma_handed_over, lemma_modify_key, lemma_modify_others, live_count,
    live_upto, lookup_upto, quiet,
};
use crate::value::{
    inv_bit_mask, lemma_masked, lemma_sentinel_word, spec_inv_bit_mask, spec_parse,
    spec_val_bit_mask, val_bit_mask, ParsedValue, EMPTY_KEY, SENTINEL_VALUE,
};
use vstd::prelude::*;

verus! {

/// How a look at the chunk's load ended.
#[derive(Debug, Clone, Copy, PartialEq, Eq)]
pub enum ResizeResult {
    /// The chunk has room: nothing was done.
    NoNeed,
    /// The entries have moved into a larger chunk, which has taken the place of the old.
    Done,
}

/// A hash table from keys that are not zero to payloads of one bit less than a word,
/// each with something attached.
pub struct Table<V, A: Attachment<V>, H: WordHasher> {
    pub chunk: Chunk<V, A, H>,
    /// The bits of a payload.
    pub val_bit_mask: usize,
    /// The bit that marks a primed value.
    pub inv_bit_mask: usize,
}

/// The entries `s` after the first `n` slots have been handed over: where such a slot
/// had a value, it has a sentinel now.
pub open spec fn forwarded(s: Seq<EntryTemplate>, n: int) -> Seq<EntryTemplate> {
    Seq::new(
        s.len(),
        |j: int|
            if j < n && s[j].1 != 0 {
                EntryTemplate(s[j].0, SENTINEL_VALUE)
            } else {
                s[j]
            },
    )
}

/// What a table that holds `m` holds after `value` has been put under `key` with
/// `attached_val`: the key has the payload of `value`, or nothing where that is zero.
pub open spec fn spec_insert<V>(
    m: Map<usize, (usize, V)>,
    key: usize,
    value: usize,
    attached_val: V,
) -> Map<usize, (usize, V)> {
    if value & spec_val_bit_mask() == 0 {
        m.remove(key)
    } else {
        m.insert(key, (value & spec_val_bit_mask(), attached_val))
    }
}

/// What a table that holds `m` holds after `key` has been removed.
pub open spec fn spec_remove<V>(m: Map<usize, (usize, V)>, key: usize) -> Map<usize, (usize, V)> {
    m.remove(key)
}

/// What a reader gets for `key` from a table that holds `m`.
pub open spec fn spec_get<V>(m: Map<usize, (usize, V)>, key: usize, read_attachment: bool) -> Option<
    (usize, Option<V>),
> {
    match m.get(key) {
        Some(entry) => Some(
            (
                entry.0,
                if read_attachment {
                    Some(entry.1)
                } else {
                    None
                },
            ),
        ),
        None => None,
    }
}

/// In a quiet chunk a key is found by a reader exactly where it has a value word, and
/// that word is the payload.
pub proof fn lemma_quiet_lookup<V, A: Attachment<V>, H: WordHasher>(c: Chunk<V, A, H>, key: usize)
    requires
        c.wf(),
        quiet(c.slots()),
    ensures
        c.lookup(key) is Some <==> raw_of(c.slots(), key) != 0,
        c.lookup(key) is Some ==> c.lookup(key).unwrap().0 == raw_of(c.slots(), key)
            && spec_parse(raw_of(c.slots(), key)) == ParsedValue::Val(raw_of(c.slots(), key))
            && find_slot(c.slots(), key) is Some && c.attachment.value_at(
            find_slot(c.slots(), key).unwrap(),
        ) == Some(c.lookup(key).unwrap().1),
{
    match find_slot(c.slots(), key) {
        Some(i) => {
            assert(holds(c.slots(), i, key));
            assert(spec_parse(c.slots()[i].1) is Val);
        },
        None => {},
    }
}

impl<V, A: Attachment<V>, H: WordHasher> View for Table<V, A, H> {
    type V = Map<usize, (usize, V)>;

    /// The keys that a reader finds, each with its payload and with what is attached.
    open spec fn view(&self) -> Map<usize, (usize, V)> {
        Map::new(|k: usize| self.chunk.lookup(k) is Some, |k: usize| self.chunk.lookup(k).unwrap())
    }
}

impl<V, A: Attachment<V>, H: WordHasher> Table<V, A, H> {
    /// What holds of a table between calls: its chunk is in order, holds no primed value
    /// and no sentinel, and has counted every slot that was claimed.
    pub open spec fn wf(&self) -> bool {
        &&& self.chunk.wf()
        &&& quiet(self.chunk.slots())
        &&& claimed(self.chunk.slots()) == self.chunk.occupation
        &&& self.val_bit_mask == spec_val_bit_mask()
        &&& self.inv_bit_mask == spec_inv_bit_mask()
    }

    /// The number of entries of the chunk.
    pub open spec fn spec_capacity(&self) -> usize {
        self.chunk.capacity
    }

    /// The number of slots claimed in the chunk.
    pub open spec fn spec_occupation(&self) -> usize {
        self.chunk.occupation
    }

    /// The chunk holds more claimed slots than it should and is to be replaced.
    pub open spec fn overloaded(&self) -> bool {
        self.chunk.occupation > self.chunk.occu_limit
    }

    /// A chunk that takes over from one of `cap` entries has a size that fits a word.
    pub open spec fn growth_fits(cap: usize) -> bool {
        &&& spec_next_capacity(cap) <= usize::MAX
        &&& Chunk::<V, A, H>::layout_fits(spec_next_capacity(cap) as usize)
    }

    /// The payload that a reader finds for `key`.
    pub open spec fn payload_of(&self, key: usize) -> Option<usize> {
        match self@.get(key) {
            Some(found) => Some(found.0),
            None => None,
        }
    }

    /// Whether the chunk holds more claimed slots than it should.
    pub fn is_overloaded(&self) -> (over: bool)
        ensures
            over == self.overloaded(),
    {
        self.chunk.occupation > self.chunk.occu_limit
    }

    /// Whether a chunk that takes over from the chunk of this table has a size that
    /// fits a word.
    pub fn can_grow(&self) -> (fits: bool)
        ensures
            fits == Self::growth_fits(self.spec_capacity()),
    {
        let cap = self.chunk.capacity;
        let factor: usize = if cap < 2048 {
            16
        } else {
            2
        };
        match cap.checked_mul(factor) {
            Some(next) => Chunk::<V, A, H>::fits(next),
            None => false,
        }
    }

    /// A table with an empty chunk of `cap` entries.
    pub fn with_capacity(cap: usize) -> (table: Self)
        requires
            spec_is_power_of_2(cap),
            Chunk::<V, A, H>::layout_fits(cap),
        ensures
            table.wf(),
            table@ == Map::<usize, (usize, V)>::empty(),
            table.spec_capacity() == cap,
            table.spec_occupation() == 0,
    {
        // Each entry is a pair of words; the most significant bit of the value word
        // tells a primed value from an ordinary one.
        let val_bit_mask = val_bit_mask();
        let chunk = Chunk::alloc_chunk(cap);
        let table = Self { chunk, val_bit_mask, inv_bit_mask: inv_bit_mask() };
        proof {
            let s = table.chunk.slots();
            assert(spec_parse(0) == ParsedValue::Empty);
            lemma_claimed_none(s, s.len());
            assert forall|k: usize| table.chunk.lookup(k) is None by {
                if exists|i: int| holds(s, i, k) {
                    let i = choose|i: int| holds(s, i, k);
                    assert(s[i] == EntryTemplate(0, 0));
                }
            }
            assert(table@ =~= Map::<usize, (usize, V)>::empty());
        }
        table
    }

    /// A table with an empty chunk of 64 entries.
    pub fn new() -> (table: Self)
        requires
            Chunk::<V, A, H>::layout_fits(64),
        ensures
            table.wf(),
            table@ == Map::<usize, (usize, V)>::empty(),
            table.spec_capacity() == 64,
            table.spec_occupation() == 0,
    {
        assert(spec_is_power_of_2(64)) by {
            assert(64usize & ((64 - 1) as usize) == 0) by (bit_vector);
        }
        Self::with_capacity(64)
    }

    /// Looks at the load of the chunk. Where more slots are claimed than the chunk's
    /// limit allows, every entry moves into a new, larger chunk: the value goes there
    /// primed, the old slot gets a sentinel, and then the prime is taken off. The new
    /// chunk takes the place of the old, which is given up.
    pub fn check_resize(&mut self) -> (res: ResizeResult)
        requires
            old(self).wf(),
            old(self).overloaded() ==> Self::growth_fits(old(self).spec_capacity()),
        ensures
            final(self).wf(),
            final(self)@ == old(self)@,
            !final(self).overloaded(),
            !old(self).overloaded() ==> res is NoNeed && *final(self) == *old(self),
            old(self).overloaded() ==> {
                &&& res is Done
                &&& final(self).spec_capacity() == spec_next_capacity(old(self).spec_capacity())
                &&& final(self).spec_occupation() == live_count(old(self).chunk.slots())
            },
    {
        let occupation = self.chunk.occupation;
        let occu_limit = self.chunk.occu_limit;
        if occupation <= occu_limit {
            return ResizeResult::NoNeed;
        }
        let old_cap = self.chunk.capacity;
        let new_cap = next_capacity(old_cap);
        let mut new_chunk = Chunk::<V, A, H>::alloc_chunk(new_cap);
        let ghost orig = self.chunk;
        let mut effective_copy: usize = 0;
        let mut idx: usize = 0;
        proof {
            let s = new_chunk.slots();
            assert(spec_parse(0) == ParsedValue::Empty);
            lemma_claimed_none(s, s.len());
            assert forall|k: usize| new_chunk.lookup(k) is None by {
                if exists|i: int| holds(s, i, k) {
                    let i = choose|i: int| holds(s, i, k);
                    assert(s[i] == EntryTemplate(0, 0));
                }
            }
            assert(self.chunk.slots() =~= forwarded(orig.slots(), 0));
        }
        while idx < old_cap
            invariant
                orig == old(self).chunk,
                orig.wf(),
                quiet(orig.slots()),
                old_cap == orig.capacity,
                self.val_bit_mask == spec_val_bit_mask(),
                self.inv_bit_mask == spec_inv_bit_mask(),
                self.chunk.wf(),
                self.chunk.same_header(&orig),
                same_attachments(orig.attachment, self.chunk.attachment),
                self.chunk.slots() == forwarded(orig.slots(), idx as int),
                new_chunk.wf(),
                new_chunk.capacity == new_cap,
                new_cap == spec_next_capacity(old_cap),
                new_chunk.occupation == 0,
                quiet(new_chunk.slots()),
                claimed(new_chunk.slots()) == effective_copy,
                effective_copy == live_upto(orig.slots(), idx as nat),
                idx <= old_cap,
                forall|k: usize| new_chunk.lookup(k) == lookup_upto(orig, idx as int, k),
            decreases old_cap - idx,
        {
            let ghost s = orig.slots();
            let ghost old0 = self.chunk;
            let ghost new0 = new_chunk;
            proof {
                lemma_sentinel_word();
                lemma_claimed_bound(s, idx as nat);
                assert(self.chunk.slots()[idx as int] == s[idx as int]);
                assert(spec_parse(0) == ParsedValue::Empty);
                assert(spec_parse(s[idx as int].1) is Val || s[idx as int].1 == 0);
                if s[idx as int].1 != 0 {
                    lemma_found::<H>(s, s[idx as int].0, idx as int);
                    lemma_quiet_lookup(new0, s[idx as int].0);
                    lemma_claimed_room(new0.slots(), new0.slots().len());
                }
            }
            let moved_to = self.chunk.migrate_entry(&mut new_chunk, idx);
            if moved_to.is_some() {
                effective_copy += 1;
            }
            proof {
                lemma_handed_over(old0, new0, self.chunk, new_chunk, idx as int, moved_to);
                if moved_to is Some {
                    let key = s[idx as int].0;
                    assert(self.chunk.slots() =~= forwarded(s, idx + 1));
                    assert(old0.lookup(key) == orig.lookup(key));
                    assert forall|k: usize| new_chunk.lookup(k) == lookup_upto(
                        orig,
                        idx + 1,
                        k,
                    ) by {
                        if k != key {
                            if find_slot(s, k) == Some(idx as int) {
                                assert(holds(s, idx as int, k));
                            }
                        }
                    }
                } else {
                    lemma_slot_without_value(orig, idx as int);
                }
            }
            idx += 1;
        }
        // The copy is complete: the new chunk counts what it took and takes over.
        let ghost copied = new_chunk;
        new_chunk.occupation = new_chunk.occupation + effective_copy;
        proof {
            lemma_claimed_bound(orig.slots(), old_cap as nat);
            assert forall|k: usize| new_chunk.lookup(k) == orig.lookup(k) by {
                assert(copied.lookup(k) == lookup_upto(orig, old_cap as int, k));
                assert(new_chunk.lookup(k) == copied.lookup(k));
                match find_slot(orig.slots(), k) {
                    Some(i) => {
                        assert(holds(orig.slots(), i, k));
                    },
                    None => {},
                }
            }
        }
        core::mem::swap(&mut self.chunk, &mut new_chunk);
        new_chunk.gc();
        assert(self@ =~= old(self)@);
        ResizeResult::Done
    }

    /// The payload of `key`, and what is attached to it where `read_attachment` asks
    /// for it.
    pub fn get(&self, key: usize, read_attachment: bool) -> (found: Option<(usize, Option<V>)>)
        requires
            self.wf(),
        ensures
            found == spec_get(self@, key, read_attachment),
    {
        proof {
            lemma_quiet_lookup(self.chunk, key);
        }
        let (val, idx) = self.chunk.get_from_chunk(key);
        match val.parsed {
            ParsedValue::Prime(val) | ParsedValue::Val(val) => {
                return Some(
                    (
                        val,
                        if read_attachment {
                            Some(self.chunk.attachment.get(idx, key))
                        } else {
                            None
                        },
                    ),
                )
            },
            // A sentinel sends the reader on to the chunk that takes over, and none does.
            ParsedValue::Sentinel => return None,
            ParsedValue::Empty => return None,
        }
    }

    /// Puts the payload of `value` and `attached_val` under `key`, and gives back the
    /// payload that the key had before. A chunk that is overloaded is replaced first.
    pub fn insert(&mut self, key: usize, value: usize, attached_val: V) -> (prior: Option<usize>)
        requires
            old(self).wf(),
            key != EMPTY_KEY,
            value & spec_val_bit_mask() != SENTINEL_VALUE,
            old(self).overloaded() ==> Self::growth_fits(old(self).spec_capacity()),
        ensures
            final(self).wf(),
            prior == old(self).payload_of(key),
            final(self)@ == spec_insert(old(self)@, key, value, attached_val),
            final(self).spec_capacity() == (if old(self).overloaded() {
                spec_next_capacity(old(self).spec_capacity())
            } else {
                old(self).spec_capacity() as int
            }),
            final(self).spec_occupation() == 1 + (if old(self).overloaded() {
                live_count(old(self).chunk.slots())
            } else {
                old(self).spec_occupation() as nat
            }),
            final(self).spec_occupation() <= final(self).chunk.occu_limit + 1,
    {
        match self.check_resize() {
            ResizeResult::Done => {
                // The chunk has been replaced: the entry goes into the new one.
            },
            ResizeResult::NoNeed => {},
        }
        let ghost pre = self.chunk;
        let ghost att = attached_val;
        let payload = value & self.val_bit_mask;
        let ghost kind = ModKind::Insert(payload);
        proof {
            lemma_masked(value);
            lemma_sentinel_word();
            lemma_quiet_lookup(pre, key);
            lemma_claimed_room(pre.slots(), pre.slots().len());
        }
        let value_insertion = self.chunk.modify_entry(key, ModOp::Insert(payload, attached_val));
        proof {
            lemma_modify_key(pre, self.chunk, key, kind, Some(att), value_insertion);
            assert(claims(pre.slots(), key, kind));
            lemma_quiet_after_insert(pre, self.chunk, key, payload, value_insertion.index as int);
            assert forall|k: usize| self.chunk.lookup(k) == (if k != key {
                pre.lookup(k)
            } else if payload == 0 {
                None
            } else {
                Some((payload, att))
            }) by {
                if k != key {
                    lemma_modify_others(pre, self.chunk, key, kind, Some(att), value_insertion, k);
                }
            }
        }
        let mut result = None;
        match value_insertion.result {
            ModResult::Done(_) => {},
            ModResult::Replaced(v) | ModResult::Fail(v) => result = Some(v),
            // A sentinel would send the writer on to a chunk that takes over.
            ModResult::Sentinel => return None,
            // The chunk has room for the entry: the load was looked at just now.
            ModResult::TableFull | ModResult::NotFound => vstd::pervasive::unreached(),
        }
        let ghost mid = self.chunk;
        self.chunk.occupation = self.chunk.occupation + 1;
        proof {
            let post = self.chunk;
            assert forall|k: usize| post.lookup(k) == (if k != key {
                pre.lookup(k)
            } else if payload == 0 {
                None
            } else {
                Some((payload, att))
            }) by {
                assert(post.lookup(k) == mid.lookup(k));
            }
            if payload == 0 {
                assert(self@ =~= old(self)@.remove(key));
            } else {
                assert(self@ =~= old(self)@.insert(key, (payload, att)));
            }
        }
        result
    }

    /// Takes the entry of `key` away and gives back what it held.
    pub fn remove(&mut self, key: usize) -> (removed: Option<(usize, V)>)
        requires
            old(self).wf(),
        ensures
            final(self).wf(),
            removed == old(self)@.get(key),
            final(self)@ == spec_remove(old(self)@, key),
            final(self).spec_capacity() == old(self).spec_capacity(),
            final(self).spec_occupation() == old(self).spec_occupation(),
    {
        let ghost pre = self.chunk;
        let res = self.chunk.modify_entry(key, ModOp::Empty);
        let mut retr = None;
        proof {
            let kind = ModOp::<V>::Empty.spec_kind();
            lemma_quiet_lookup(pre, key);
            lemma_modify_key(pre, self.chunk, key, kind, None, res);
            assert(!claims(pre.slots(), key, kind));
            lemma_quiet_after_erase(pre, self.chunk, key);
            assert forall|k: usize| self.chunk.lookup(k) == (if k == key {
                None
            } else {
                pre.lookup(k)
            }) by {
                if k != key {
                    lemma_modify_others(pre, self.chunk, key, kind, None, res, k);
                }
            }
            assert(self@ =~= old(self)@.remove(key));
        }
        match res.result {
            ModResult::Done(v) | ModResult::Replaced(v) => {
                retr = Some((v, self.chunk.attachment.get(res.index, key)));
            },
            _ => {},
        };
        retr
    }

    /// The keys of the table, each once, with its payload and with what is attached to
    /// it, in the order of their slots.
    pub fn entries(&self) -> (res: Vec<(usize, usize, V)>)
        requires
            self.wf(),
        ensures
            res@ == self.chunk.entries_upto(self.chunk.capacity as nat),
            res@.len() == live_count(self.chunk.slots()),
            forall|j: int|
                0 <= j < res@.len() ==> self@.get((#[trigger] res@[j]).0) == Some(
                    (res@[j].1, res@[j].2),
                ),
            forall|k: usize| #[trigger]
                self@.contains_key(k) ==> exists|j: int|
                    0 <= j < res@.len() && (#[trigger] res@[j]).0 == k,
            forall|j1: int, j2: int|
                0 <= j1 < j2 < res@.len() ==> (#[trigger] res@[j1]).0 != (#[trigger] res@[j2]).0,
    {
        proof {
            let n = self.chunk.capacity as nat;
            lemma_entries_upto(self.chunk, n);
            let all = self.chunk.entries_upto(n);
            assert forall|k: usize| lookup_upto(self.chunk, n as int, k) == self.chunk.lookup(
                k,
            ) by {
                match find_slot(self.chunk.slots(), k) {
                    Some(i) => {
                        assert(holds(self.chunk.slots(), i, k));
                    },
                    None => {},
                }
            }
            assert forall|j: int| 0 <= j < all.len() implies self@.get((#[trigger] all[j]).0)
                == Some((all[j].1, all[j].2)) by {
                assert(lookup_upto(self.chunk, n as int, all[j].0) is Some);
            }
            assert forall|k: usize| #[trigger] self@.contains_key(k) implies exists|j: int|
                0 <= j < all.len() && (#[trigger] all[j]).0 == k by {
                assert(lookup_upto(self.chunk, n as int, k) is Some);
            }
        }
        self.chunk.all_from_chunk()
    }

    /// The number of entries of the chunk.
    pub fn capacity(&self) -> (cap: usize)
        ensures
            cap == self.spec_capacity(),
    {
        self.chunk.capacity
    }

    /// The number of slots claimed in the chunk. It never exceeds the capacity.
    pub fn occupation(&self) -> (n: usize)
        requires
            self.wf(),
        ensures
            n == self.spec_occupation(),
            n <= self.spec_capacity(),
    {
        proof {
            lemma_claimed_bound(self.chunk.slots(), self.chunk.slots().len());
        }
        self.chunk.occupation
    }
}

/// Taking the value of a key away leaves a quiet chunk quiet.
pub proof fn lemma_quiet_after_erase<V, A: Attachment<V>, H: WordHasher>(
    pre: Chunk<V, A, H>,
    post: Chunk<V, A, H>,
    key: usize,
)
    requires
        quiet(pre.slots()),
        post.slots() == pre.slots() || exists|i: int|
            0 <= i < pre.slots().len() && post.slots() == pre.slots().update(
                i,
                EntryTemplate(key, 0),
            ),
    ensures
        quiet(post.slots()),
{
    let s = pre.slots();
    let n = post.slots();
    if n != s {
        let i = choose|i: int| 0 <= i < s.len() && n == s.update(i, EntryTemplate(key, 0));
        assert forall|j: int| 0 <= j < n.len() implies (spec_parse((#[trigger] n[j]).1) is Val
            || n[j].1 == 0) by {
            if j != i {
                assert(n[j] == s[j]);
            }
        }
    }
}

/// A slot without a value gives a reader nothing, and handing it over changes nothing.
pub proof fn lemma_slot_without_value<V, A: Attachment<V>, H: WordHasher>(
    c: Chunk<V, A, H>,
    i: int,
)
    requires
        0 <= i < c.slots().len(),
        c.slots()[i].1 == 0,
    ensures
        forwarded(c.slots(), i + 1) == forwarded(c.slots(), i),
        live_upto(c.slots(), (i + 1) as nat) == live_upto(c.slots(), i as nat),
        forall|k: usize| lookup_upto(c, i + 1, k) == lookup_upto(c, i, k),
{
    assert(forwarded(c.slots(), i + 1) =~= forwarded(c.slots(), i));
    assert(spec_parse(0) == ParsedValue::Empty);
    assert forall|k: usize| lookup_upto(c, i + 1, k) == lookup_upto(c, i, k) by {
        if find_slot(c.slots(), k) == Some(i) {
            assert(holds(c.slots(), i, k));
        }
    }
}

/// Putting a payload that is not the sentinel word under a key leaves a quiet chunk
/// quiet.
pub proof fn lemma_quiet_after_insert<V, A: Attachment<V>, H: WordHasher>(
    pre: Chunk<V, A, H>,
    post: Chunk<V, A, H>,
    key: usize,
    payload: usize,
    f: int,
)
    requires
        quiet(pre.slots()),
        payload == 0 || spec_parse(payload) is Val,
        0 <= f < pre.slots().len(),
        post.slots() == pre.slots().update(f, EntryTemplate(key, payload)) || exists|i: int|
            0 <= i < pre.slots().len() && post.slots() == pre.slots().update(
                i,
                EntryTemplate(key, 0),
            ).update(f, EntryTemplate(key, payload)),
    ensures
        quiet(post.slots()),
{
    let s = pre.slots();
    let n = post.slots();
    if n == s.update(f, EntryTemplate(key, payload)) {
        assert forall|j: int| 0 <= j < n.len() implies (spec_parse((#[trigger] n[j]).1) is Val
            || n[j].1 == 0) by {
            if j != f {
                assert(n[j] == s[j]);
            }
        }
    } else {
        let i = choose|i: int|
            0 <= i < s.len() && n == s.update(i, EntryTemplate(key, 0)).update(
                f,
                EntryTemplate(key, payload),
            );
        assert forall|j: int| 0 <= j < n.len() implies (spec_parse((#[trigger] n[j]).1) is Val
            || n[j].1 == 0) by {
            if j != f && j != i {
                assert(n[j] == s[j]);
            }
        }
    }
}

impl<V, A: Attachment<V>, H: WordHasher> Clone for Table<V, A, H> {
    /// A second table that holds what this one holds, in a chunk of its own.
    fn clone(&self) -> (copy: Self)
        ensures
            copy@ == self@,
            copy.spec_capacity() == self.spec_capacity(),
            copy.spec_occupation() == self.spec_occupation(),
            self.wf() ==> copy.wf(),
    {
        let copy = Self {
            chunk: self.chunk.clone(),
            val_bit_mask: self.val_bit_mask,
            inv_bit_mask: self.inv_bit_mask,
        };
        proof {
            assert forall|k: usize| copy.chunk.lookup(k) == self.chunk.lookup(k) by {}
            assert(copy@ =~= self@);
        }
        copy
    }
}

} // verus!
