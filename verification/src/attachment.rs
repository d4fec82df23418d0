use vstd::layout::size_of;
use vstd::prelude::*;

verus! {

/// A side array that runs parallel to a chunk's entry array and keeps, for each slot,
/// something that does not fit into the value word.
///
/// A chunk sets a slot only after it has claimed the entry of the same index, erases it
/// only after it has put a tombstone or a sentinel there, and reads it only where it
/// has seen a value for the slot's key.
pub trait Attachment<V>: Sized {
    /// The number of slots.
    spec fn slot_count(&self) -> nat;

    /// What the slot `index` gives to a reader, if it can be read.
    spec fn value_at(&self, index: int) -> Option<V>;

    /// What holds of every attachment between calls.
    spec fn inv(&self) -> bool;

    /// The bytes that the slots of a chunk of `cap` entries take up.
    spec fn spec_heap_size_of(cap: usize) -> nat;

    /// Whether the bytes that the slots of a chunk of `cap` entries take up fit a word.
    fn heap_fits(cap: usize) -> (fits: bool)
        ensures
            fits == (Self::spec_heap_size_of(cap) <= usize::MAX),
    ;

    /// The bytes that the slots of a chunk of `cap` entries take up.
    fn heap_size_of(cap: usize) -> (size: usize)
        requires
            Self::spec_heap_size_of(cap) <= usize::MAX,
        ensures
            size == Self::spec_heap_size_of(cap),
    ;

    /// An attachment of `cap` slots, whose bytes are to lie at `heap_ptr` and to take up
    /// `heap_size` of them.
    fn new(cap: usize, heap_ptr: usize, heap_size: usize) -> (att: Self)
        requires
            heap_size == Self::spec_heap_size_of(cap),
            heap_ptr + heap_size <= usize::MAX,
        ensures
            att.inv(),
            att.slot_count() == cap,
    ;

    /// What the slot `index`, which belongs to `key`, gives to a reader.
    fn get(&self, index: usize, key: usize) -> (att_value: V)
        requires
            self.inv(),
            index < self.slot_count(),
            self.value_at(index as int) is Some,
        ensures
            self.value_at(index as int) == Some(att_value),
    ;

    /// Puts `att_value` into the slot `index`, which belongs to `key`.
    fn set(&mut self, index: usize, key: usize, att_value: V)
        requires
            old(self).inv(),
            index < old(self).slot_count(),
        ensures
            final(self).inv(),
            final(self).slot_count() == old(self).slot_count(),
            final(self).value_at(index as int) == Some(att_value),
            forall|i: int| i != index ==> final(self).value_at(i) == old(self).value_at(i),
    ;

    /// Tells the attachment that the entry of this slot is gone. What the slot gave to
    /// a reader before, it still gives, until the slot is set again.
    fn erase(&mut self, index: usize, key: usize)
        requires
            old(self).inv(),
            index < old(self).slot_count(),
        ensures
            final(self).inv(),
            final(self).slot_count() == old(self).slot_count(),
            forall|i: int| final(self).value_at(i) == old(self).value_at(i),
    ;

    /// Tells the attachment that its chunk is given up.
    fn dealloc(&mut self)
        requires
            old(self).inv(),
        ensures
            final(self).inv(),
            final(self).slot_count() == old(self).slot_count(),
            forall|i: int| final(self).value_at(i) == old(self).value_at(i),
    ;

    /// A second attachment that gives every reader what this one gives.
    fn duplicate(&self) -> (copy: Self)
        ensures
            self.inv() ==> copy.inv(),
            copy.slot_count() == self.slot_count(),
            forall|i: int| copy.value_at(i) == self.value_at(i),
    ;
}

/// The attachment of a map from words to words: it keeps nothing and takes no room.
pub struct WordAttachment {
    pub cap: usize,
}

impl Attachment<()> for WordAttachment {
    open spec fn slot_count(&self) -> nat {
        self.cap as nat
    }

    open spec fn value_at(&self, index: int) -> Option<()> {
        Some(())
    }

    open spec fn inv(&self) -> bool {
        true
    }

    open spec fn spec_heap_size_of(cap: usize) -> nat {
        0
    }

    fn heap_fits(cap: usize) -> (fits: bool) {
        true
    }

    fn heap_size_of(cap: usize) -> (size: usize) {
        0
    }

    fn new(cap: usize, heap_ptr: usize, heap_size: usize) -> (att: Self) {
        Self { cap }
    }

    #[inline(always)]
    fn get(&self, index: usize, key: usize) -> (att_value: ()) {
    }

    #[inline(always)]
    fn set(&mut self, index: usize, key: usize, att_value: ()) {
    }

    #[inline(always)]
    fn erase(&mut self, index: usize, key: usize) {
    }

    #[inline(always)]
    fn dealloc(&mut self) {
    }

    fn duplicate(&self) -> (copy: Self) {
        Self { cap: self.cap }
    }
}

/// An attachment that keeps one object of type `T` for each slot.
pub struct ObjectAttachment<T: Copy> {
    /// Where the objects begin, counted in bytes from the start of the chunk.
    pub obj_chunk: usize,
    /// The bytes that the objects take up.
    pub size: usize,
    /// The bytes of one object.
    pub obj_size: usize,
    pub objects: Vec<Option<T>>,
}

impl<T: Copy> ObjectAttachment<T> {
    /// Where the object of slot `index` lies, counted in bytes from the start of the chunk.
    pub fn addr_by_index(&self, index: usize) -> (addr: usize)
        requires
            self.inv(),
            index < self.slot_count(),
        ensures
            addr == self.obj_chunk + index * self.obj_size,
            addr + self.obj_size <= self.obj_chunk + self.size,
    {
        proof {
            let n = self.objects.len() as int;
            let i = index as int;
            let s = self.obj_size as int;
            assert(i * s + s <= n * s) by (nonlinear_arith)
                requires
                    0 <= i < n,
                    0 <= s,
            ;
            assert(0 <= i * s) by (nonlinear_arith)
                requires
                    0 <= i,
                    0 <= s,
            ;
        }
        self.obj_chunk + index * self.obj_size
    }
}

impl<T: Copy> Attachment<T> for ObjectAttachment<T> {
    open spec fn slot_count(&self) -> nat {
        self.objects.len() as nat
    }

    open spec fn value_at(&self, index: int) -> Option<T> {
        if 0 <= index < self.objects.len() {
            self.objects[index]
        } else {
            None
        }
    }

    open spec fn inv(&self) -> bool {
        &&& self.obj_size == size_of::<T>()
        &&& self.size == self.objects.len() * self.obj_size
        &&& self.obj_chunk + self.size <= usize::MAX
    }

    open spec fn spec_heap_size_of(cap: usize) -> nat {
        cap as nat * size_of::<T>()
    }

    fn heap_fits(cap: usize) -> (fits: bool) {
        let obj_size = core::mem::size_of::<T>();
        assert(cap * obj_size == cap as nat * size_of::<T>());
        cap.checked_mul(obj_size).is_some()
    }

    fn heap_size_of(cap: usize) -> (size: usize) {
        let obj_size = core::mem::size_of::<T>();
        assert(cap * obj_size == cap as nat * size_of::<T>());
        cap * obj_size
    }

    /// An attachment of `cap` slots with nothing in them; the objects are to lie at
    /// `heap_ptr` and take up `heap_size` bytes.
    fn new(cap: usize, heap_ptr: usize, heap_size: usize) -> (att: Self)
        ensures
            att.obj_chunk == heap_ptr,
            att.size == heap_size,
            forall|i: int| att.value_at(i) is None,
    {
        let mut objects: Vec<Option<T>> = Vec::new();
        let mut i: usize = 0;
        while i < cap
            invariant
                i <= cap,
                objects.len() == i,
                forall|j: int| 0 <= j < i ==> objects@[j] is None,
            decreases cap - i,
        {
            objects.push(None);
            i += 1;
        }
        Self { obj_chunk: heap_ptr, size: heap_size, obj_size: core::mem::size_of::<T>(), objects }
    }

    #[inline(always)]
    fn get(&self, index: usize, key: usize) -> (att_value: T) {
        match self.objects[index] {
            Some(v) => v,
            None => vstd::pervasive::unreached(),
        }
    }

    #[inline(always)]
    fn set(&mut self, index: usize, key: usize, att_value: T) {
        self.objects.set(index, Some(att_value));
    }

    #[inline(always)]
    fn erase(&mut self, index: usize, key: usize) {
    }

    #[inline(always)]
    fn dealloc(&mut self) {
    }

    fn duplicate(&self) -> (copy: Self) {
        let mut objects: Vec<Option<T>> = Vec::new();
        let mut i: usize = 0;
        while i < self.objects.len()
            invariant
                i <= self.objects.len(),
                objects.len() == i,
                forall|j: int| 0 <= j < i ==> objects@[j] == self.objects@[j],
            decreases self.objects.len() - i,
        {
            objects.push(self.objects[i]);
            i += 1;
        }
        Self { obj_chunk: self.obj_chunk, size: self.size, obj_size: self.obj_size, objects }
    }
}

} // verus!
