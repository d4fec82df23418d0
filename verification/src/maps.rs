use crate::attachment::{ObjectAttachment, WordAttachment};
use crate::chunk::Chunk;
use crate::hasher::{StdHasher, WordHasher};
use crate::layout::{is_power_of_2, spec_is_power_of_2};
use crate::table::Table;
use crate::value::{spec_val_bit_mask, val_bit_mask, SENTINEL_VALUE};
use vstd::prelude::*;

verus! {

/// What the maps add to every key before it goes into the table, so that no key of a
/// caller is the word that marks an unclaimed slot.
pub const NUM_KEY_FIX: usize = 5;

/// A map over a table, for callers that do not want to know of reserved words.
pub trait KeyMap<K, V>: Sized {
    /// What holds of the map between calls.
    spec fn wf(&self) -> bool;

    /// The keys of the map, each with what a reader gets for it.
    spec fn contents(&self) -> Map<K, V>;

    /// A map can be made with this capacity.
    spec fn admits_capacity(cap: usize) -> bool;

    /// The map can take this key.
    spec fn admits_key(key: K) -> bool;

    /// The map, as it is, can take this value under this key.
    spec fn admits_insert(&self, key: K, value: V) -> bool;

    /// What a reader gets for a key under which `value` was put, if the key is found at
    /// all.
    spec fn stored(value: V) -> Option<V>;

    /// Whether a map can be made with this capacity.
    fn can_hold(cap: usize) -> (fits: bool)
        ensures
            fits == Self::admits_capacity(cap),
    ;

    /// Whether the map can take this key.
    fn takes_key(key: &K) -> (fits: bool)
        ensures
            fits == Self::admits_key(*key),
    ;

    /// Whether the map, as it is, can take this value under this key.
    fn takes(&self, key: &K, value: &V) -> (fits: bool)
        ensures
            fits == self.admits_insert(*key, *value),
    ;

    /// An empty map over a table of `cap` entries.
    fn with_capacity(cap: usize) -> (map: Self)
        requires
            Self::admits_capacity(cap),
        ensures
            map.wf(),
            map.contents() == Map::<K, V>::empty(),
    ;

    /// What the map holds for `key`.
    fn get(&self, key: K) -> (found: Option<V>)
        requires
            self.wf(),
            Self::admits_key(key),
        ensures
            found == self.contents().get(key),
    ;

    /// Puts `value` under `key`, and tells whether the key held something before.
    fn insert(&mut self, key: K, value: V) -> (prior: Option<()>)
        requires
            old(self).wf(),
            Self::admits_key(key),
            old(self).admits_insert(key, value),
        ensures
            final(self).wf(),
            prior is Some <==> old(self).contents().contains_key(key),
            final(self).contents() == (match Self::stored(value) {
                Some(v) => old(self).contents().insert(key, v),
                None => old(self).contents().remove(key),
            }),
    ;

    /// Takes `key` out of the map and gives back what it held.
    fn remove(&mut self, key: K) -> (removed: Option<V>)
        requires
            old(self).wf(),
            Self::admits_key(key),
        ensures
            final(self).wf(),
            removed == old(self).contents().get(key),
            final(self).contents() == old(self).contents().remove(key),
    ;

    /// The keys of the map with what they hold.
    fn entries(&self) -> (res: Vec<(usize, V)>)
        requires
            self.wf(),
    ;

    /// Whether the map holds `key`.
    fn contains(&self, key: K) -> (found: bool)
        requires
            self.wf(),
            Self::admits_key(key),
        ensures
            found == self.contents().contains_key(key),
    ;
}

/// A map from words to objects: the objects are attached to the entries, and every
/// entry carries the same payload.
pub struct ObjectMap<V: Copy, H: WordHasher = StdHasher> {
    pub table: Table<V, ObjectAttachment<V>, H>,
}

/// The payload of every entry of a map of objects: all bits that a payload may use.
pub proof fn lemma_object_payload()
    ensures
        !0usize & spec_val_bit_mask() == spec_val_bit_mask(),
        spec_val_bit_mask() != 0,
        spec_val_bit_mask() != SENTINEL_VALUE,
{
    assert(!0usize & (!0usize >> 1) == !0usize >> 1) by (bit_vector);
    assert((!0usize >> 1) != 0) by (bit_vector);
    assert((!0usize >> 1) != 1) by (bit_vector);
}

impl<V: Copy, H: WordHasher> KeyMap<usize, V> for ObjectMap<V, H> {
    open spec fn wf(&self) -> bool {
        &&& self.table.wf()
        &&& forall|k: usize| #[trigger] self.table@.contains_key(k) ==> k >= NUM_KEY_FIX
    }

    open spec fn contents(&self) -> Map<usize, V> {
        Map::new(
            |k: usize| k <= usize::MAX - NUM_KEY_FIX && self.table@.contains_key((k + NUM_KEY_FIX) as usize),
            |k: usize| self.table@[(k + NUM_KEY_FIX) as usize].1,
        )
    }

    open spec fn admits_capacity(cap: usize) -> bool {
        &&& spec_is_power_of_2(cap)
        &&& Chunk::<V, ObjectAttachment<V>, H>::layout_fits(cap)
    }

    open spec fn admits_key(key: usize) -> bool {
        key <= usize::MAX - NUM_KEY_FIX
    }

    open spec fn admits_insert(&self, key: usize, value: V) -> bool {
        self.table.overloaded() ==> Table::<V, ObjectAttachment<V>, H>::growth_fits(
            self.table.spec_capacity(),
        )
    }

    open spec fn stored(value: V) -> Option<V> {
        Some(value)
    }

    fn can_hold(cap: usize) -> (fits: bool) {
        is_power_of_2(cap) && Chunk::<V, ObjectAttachment<V>, H>::fits(cap)
    }

    fn takes_key(key: &usize) -> (fits: bool) {
        *key <= usize::MAX - NUM_KEY_FIX
    }

    fn takes(&self, key: &usize, value: &V) -> (fits: bool) {
        !self.table.is_overloaded() || self.table.can_grow()
    }

    fn with_capacity(cap: usize) -> (map: Self) {
        let map = Self { table: Table::with_capacity(cap) };
        assert(map.contents() =~= Map::<usize, V>::empty());
        map
    }

    #[inline(always)]
    fn get(&self, key: usize) -> (found: Option<V>) {
        match self.table.get(key + NUM_KEY_FIX, true) {
            Some(v) => v.1,
            None => None,
        }
    }

    #[inline(always)]
    fn insert(&mut self, key: usize, value: V) -> (prior: Option<()>) {
        proof {
            lemma_object_payload();
        }
        let prior = match self.table.insert(key + NUM_KEY_FIX, !0, value) {
            Some(_) => Some(()),
            None => None,
        };
        assert(self.contents() =~= old(self).contents().insert(key, value));
        prior
    }

    #[inline(always)]
    fn remove(&mut self, key: usize) -> (removed: Option<V>) {
        let removed = match self.table.remove(key + NUM_KEY_FIX) {
            Some((_, v)) => Some(v),
            None => None,
        };
        assert(self.contents() =~= old(self).contents().remove(key));
        removed
    }

    /// The keys of the map, each once, with its object.
    #[inline(always)]
    fn entries(&self) -> (res: Vec<(usize, V)>)
        ensures
            forall|j: int|
                0 <= j < res@.len() ==> self.contents().get((#[trigger] res@[j]).0) == Some(
                    res@[j].1,
                ),
            forall|k: usize| #[trigger]
                self.contents().contains_key(k) ==> exists|j: int|
                    0 <= j < res@.len() && (#[trigger] res@[j]).0 == k,
            forall|j1: int, j2: int|
                0 <= j1 < j2 < res@.len() ==> (#[trigger] res@[j1]).0 != (#[trigger] res@[j2]).0,
    {
        let all = self.table.entries();
        let mut res: Vec<(usize, V)> = Vec::new();
        let mut i: usize = 0;
        while i < all.len()
            invariant
                self.wf(),
                i <= all.len(),
                res@.len() == i,
                forall|j: int|
                    0 <= j < all@.len() ==> self.table@.get((#[trigger] all@[j]).0) == Some(
                        (all@[j].1, all@[j].2),
                    ),
                forall|j: int|
                    0 <= j < i ==> (#[trigger] res@[j]).0 + NUM_KEY_FIX == all@[j].0 && res@[j].1
                        == all@[j].2,
            decreases all.len() - i,
        {
            let (k, _, v) = all[i];
            assert(self.table@.contains_key(all@[i as int].0));
            res.push((k - NUM_KEY_FIX, v));
            i += 1;
        }
        proof {
            assert forall|j: int| 0 <= j < res@.len() implies self.contents().get(
                (#[trigger] res@[j]).0,
            ) == Some(res@[j].1) by {
                assert(self.table@.contains_key(all@[j].0));
            }
            assert forall|k: usize| #[trigger] self.contents().contains_key(k) implies exists|
                j: int,
            |
                0 <= j < res@.len() && (#[trigger] res@[j]).0 == k by {
                let kk = (k + NUM_KEY_FIX) as usize;
                assert(self.table@.contains_key(kk));
                let j = choose|j: int| 0 <= j < all@.len() && (#[trigger] all@[j]).0 == kk;
                assert(res@[j].0 == k);
            }
            assert forall|j1: int, j2: int| 0 <= j1 < j2 < res@.len() implies (
            #[trigger] res@[j1]).0 != (#[trigger] res@[j2]).0 by {
                assert(all@[j1].0 != all@[j2].0);
            }
        }
        res
    }

    #[inline(always)]
    fn contains(&self, key: usize) -> (found: bool) {
        self.table.get(key + NUM_KEY_FIX, false).is_some()
    }
}

/// A table whose entries have nothing attached.
pub type WordTable<H> = Table<(), WordAttachment, H>;

/// A map from words to words: the value is the payload of the entry.
pub struct WordMap<H: WordHasher = StdHasher> {
    pub table: WordTable<H>,
}

impl<H: WordHasher> KeyMap<usize, usize> for WordMap<H> {
    open spec fn wf(&self) -> bool {
        &&& self.table.wf()
        &&& forall|k: usize| #[trigger] self.table@.contains_key(k) ==> k >= NUM_KEY_FIX
    }

    open spec fn contents(&self) -> Map<usize, usize> {
        Map::new(
            |k: usize| k <= usize::MAX - NUM_KEY_FIX && self.table@.contains_key((k + NUM_KEY_FIX) as usize),
            |k: usize| self.table@[(k + NUM_KEY_FIX) as usize].0,
        )
    }

    open spec fn admits_capacity(cap: usize) -> bool {
        &&& spec_is_power_of_2(cap)
        &&& Chunk::<(), WordAttachment, H>::layout_fits(cap)
    }

    open spec fn admits_key(key: usize) -> bool {
        key <= usize::MAX - NUM_KEY_FIX
    }

    open spec fn admits_insert(&self, key: usize, value: usize) -> bool {
        &&& value & spec_val_bit_mask() != SENTINEL_VALUE
        &&& self.table.overloaded() ==> Table::<(), WordAttachment, H>::growth_fits(
            self.table.spec_capacity(),
        )
    }

    open spec fn stored(value: usize) -> Option<usize> {
        if value & spec_val_bit_mask() == 0 {
            None
        } else {
            Some(value & spec_val_bit_mask())
        }
    }

    fn can_hold(cap: usize) -> (fits: bool) {
        is_power_of_2(cap) && Chunk::<(), WordAttachment, H>::fits(cap)
    }

    fn takes_key(key: &usize) -> (fits: bool) {
        *key <= usize::MAX - NUM_KEY_FIX
    }

    fn takes(&self, key: &usize, value: &usize) -> (fits: bool) {
        *value & val_bit_mask() != SENTINEL_VALUE && (!self.table.is_overloaded()
            || self.table.can_grow())
    }

    fn with_capacity(cap: usize) -> (map: Self) {
        let map = Self { table: Table::with_capacity(cap) };
        assert(map.contents() =~= Map::<usize, usize>::empty());
        map
    }

    #[inline(always)]
    fn get(&self, key: usize) -> (found: Option<usize>) {
        match self.table.get(key + NUM_KEY_FIX, false) {
            Some(v) => Some(v.0),
            None => None,
        }
    }

    #[inline(always)]
    fn insert(&mut self, key: usize, value: usize) -> (prior: Option<()>) {
        let prior = match self.table.insert(key + NUM_KEY_FIX, value, ()) {
            Some(_) => Some(()),
            None => None,
        };
        proof {
            let p = value & spec_val_bit_mask();
            if p == 0 {
                assert(self.contents() =~= old(self).contents().remove(key));
            } else {
                assert(self.contents() =~= old(self).contents().insert(key, p));
            }
        }
        prior
    }

    #[inline(always)]
    fn remove(&mut self, key: usize) -> (removed: Option<usize>) {
        let removed = match self.table.remove(key + NUM_KEY_FIX) {
            Some((v, _)) => Some(v),
            None => None,
        };
        assert(self.contents() =~= old(self).contents().remove(key));
        removed
    }

    /// The keys of the map, each once, with its value.
    fn entries(&self) -> (res: Vec<(usize, usize)>)
        ensures
            forall|j: int|
                0 <= j < res@.len() ==> self.contents().get((#[trigger] res@[j]).0) == Some(
                    res@[j].1,
                ),
            forall|k: usize| #[trigger]
                self.contents().contains_key(k) ==> exists|j: int|
                    0 <= j < res@.len() && (#[trigger] res@[j]).0 == k,
            forall|j1: int, j2: int|
                0 <= j1 < j2 < res@.len() ==> (#[trigger] res@[j1]).0 != (#[trigger] res@[j2]).0,
    {
        let all = self.table.entries();
        let mut res: Vec<(usize, usize)> = Vec::new();
        let mut i: usize = 0;
        while i < all.len()
            invariant
                self.wf(),
                i <= all.len(),
                res@.len() == i,
                forall|j: int|
                    0 <= j < all@.len() ==> self.table@.get((#[trigger] all@[j]).0) == Some(
                        (all@[j].1, all@[j].2),
                    ),
                forall|j: int|
                    0 <= j < i ==> (#[trigger] res@[j]).0 + NUM_KEY_FIX == all@[j].0 && res@[j].1
                        == all@[j].1,
            decreases all.len() - i,
        {
            let (k, v, _) = all[i];
            assert(self.table@.contains_key(all@[i as int].0));
            res.push((k - NUM_KEY_FIX, v));
            i += 1;
        }
        proof {
            assert forall|j: int| 0 <= j < res@.len() implies self.contents().get(
                (#[trigger] res@[j]).0,
            ) == Some(res@[j].1) by {
                assert(self.table@.contains_key(all@[j].0));
            }
            assert forall|k: usize| #[trigger] self.contents().contains_key(k) implies exists|
                j: int,
            |
                0 <= j < res@.len() && (#[trigger] res@[j]).0 == k by {
                let kk = (k + NUM_KEY_FIX) as usize;
                assert(self.table@.contains_key(kk));
                let j = choose|j: int| 0 <= j < all@.len() && (#[trigger] all@[j]).0 == kk;
                assert(res@[j].0 == k);
            }
            assert forall|j1: int, j2: int| 0 <= j1 < j2 < res@.len() implies (
            #[trigger] res@[j1]).0 != (#[trigger] res@[j2]).0 by {
                assert(all@[j1].0 != all@[j2].0);
            }
        }
        res
    }

    #[inline(always)]
    fn contains(&self, key: usize) -> (found: bool) {
        self.get(key).is_some()
    }
}

impl<V: Copy, H: WordHasher> Clone for ObjectMap<V, H> {
    /// A second map that holds what this one holds.
    fn clone(&self) -> (copy: Self)
        ensures
            copy.contents() == self.contents(),
            self.wf() ==> copy.wf(),
    {
        let copy = Self { table: self.table.clone() };
        assert(copy.contents() =~= self.contents());
        copy
    }
}

impl<H: WordHasher> Clone for WordMap<H> {
    /// A second map that holds what this one holds.
    fn clone(&self) -> (copy: Self)
        ensures
            copy.contents() == self.contents(),
            self.wf() ==> copy.wf(),
    {
        let copy = Self { table: self.table.clone() };
        assert(copy.contents() =~= self.contents());
        copy
    }
}

} // verus!
