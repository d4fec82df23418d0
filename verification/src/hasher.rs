use core::hash::Hasher;
use std::collections::hash_map::DefaultHasher;
use vstd::prelude::*;
use vstd::std_specs::hash::DefaultHasherAdditionalSpecFns;

verus! {

/// A way to scatter keys over a chunk: a fixed function from words to words.
pub trait WordHasher {
    /// The hash of `num`.
    spec fn spec_hash(num: usize) -> usize;

    /// Computes the hash of `num`.
    fn hash_word(num: usize) -> (h: usize)
        ensures
            h == Self::spec_hash(num),
    ;
}

/// The hash of `num` under the hasher `H`.
pub fn hash<H: WordHasher>(num: usize) -> (h: usize)
    ensures
        h == H::spec_hash(num),
{
    H::hash_word(num)
}

/// A hasher for keys that are spread well already: every key is its own hash.
pub struct PassthroughHasher {
    pub num: u64,
}

impl PassthroughHasher {
    /// The hash of what was written: the word itself.
    pub fn finish(&self) -> (r: u64)
        ensures
            r == self.num,
    {
        self.num
    }

    /// Takes the word `i` in place of what was written before.
    pub fn write_usize(&mut self, i: usize)
        ensures
            final(self).num == i as u64,
    {
        self.num = i as u64
    }
}

impl Default for PassthroughHasher {
    /// A hasher into which nothing has been written.
    fn default() -> (r: Self)
        ensures
            r.num == 0,
    {
        Self { num: 0 }
    }
}

impl WordHasher for PassthroughHasher {
    open spec fn spec_hash(num: usize) -> usize {
        num
    }

    fn hash_word(num: usize) -> (h: usize) {
        let mut hasher = PassthroughHasher { num: 0 };
        hasher.write_usize(num);
        hasher.finish() as usize
    }
}

/// The standard library's default hasher, fed the eight bytes of the key, lowest first.
pub struct StdHasher;

impl WordHasher for StdHasher {
    open spec fn spec_hash(num: usize) -> usize {
        DefaultHasher::spec_finish(seq![vstd::bytes::spec_u64_to_le_bytes(num as u64)]) as usize
    }

    fn hash_word(num: usize) -> (h: usize) {
        let mut hasher = DefaultHasher::new();
        let bytes = vstd::bytes::u64_to_le_bytes(num as u64);
        hasher.write(bytes.as_slice());
        assert(hasher@ =~= seq![vstd::bytes::spec_u64_to_le_bytes(num as u64)]);
        hasher.finish() as usize
    }
}

} // verus!
