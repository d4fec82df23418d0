use crate::attachment::Attachment;
use crate::hasher::{hash, WordHasher};
use crate::layout::{
    chunk_size_of, entry_size, lemma_mask_below, lemma_mask_step, occupation_limit,
    spec_chunk_size_of, spec_entry_size, spec_is_power_of_2, spec_occupation_limit,
    CHUNK_HEADER_SIZE,
};
use crate::value::{
    inv_bit_mask, lemma_primed, lemma_sentinel_word, spec_parse, val_bit_mask, ParsedValue, Value,
    EMPTY_KEY, SENTINEL_VALUE,
};
use core::marker::PhantomData;
use vstd::prelude::*;

verus! {

/// One entry of a chunk: the key word, then the value word.
#[derive(Clone, Copy, Debug, PartialEq, Eq)]
pub struct EntryTemplate(pub usize, pub usize);

/// How an attempt to change the entry of a key ended.
#[derive(Debug, Clone, Copy, PartialEq, Eq)]
pub enum ModResult {
    /// The key had a value, which is given here, and has it no longer.
    Replaced(usize),
    /// Nothing was changed; the key's payload is given, or zero where it has none.
    Fail(usize),
    /// The key's value lives in the next chunk.
    Sentinel,
    /// The probe ended without a slot to remove from or to mark.
    NotFound,
    /// The change was made in a new slot or in place; the entry's address is given.
    Done(usize),
    /// The probe ended without a slot to put the value in.
    TableFull,
}

/// The outcome of a change together with the slot in which it took place.
#[derive(Debug, Clone, Copy, PartialEq, Eq)]
pub struct ModOutput {
    pub result: ModResult,
    pub index: usize,
}

impl ModOutput {
    /// The outcome `res` in the slot `idx`.
    pub fn new(res: ModResult, idx: usize) -> (out: Self)
        ensures
            out.result == res,
            out.index == idx,
    {
        Self { result: res, index: idx }
    }
}

/// A change to the entry of one key.
#[derive(Debug)]
pub enum ModOp<T> {
    /// Put the value word there with its attachment, whatever the key had before.
    Insert(usize, T),
    /// Put the value word there with its attachment unless the key has a value.
    AttemptInsert(usize, T),
    /// Mark the key as one whose value lives in the next chunk.
    Sentinel,
    /// Take the key's value away.
    Empty,
}

/// A change without what it attaches.
#[derive(Clone, Copy, Debug)]
pub enum ModKind {
    Insert(usize),
    AttemptInsert(usize),
    Sentinel,
    Empty,
}

impl<T> ModOp<T> {
    /// The change without what it attaches.
    pub open spec fn spec_kind(self) -> ModKind {
        match self {
            ModOp::Insert(v, _) => ModKind::Insert(v),
            ModOp::AttemptInsert(v, _) => ModKind::AttemptInsert(v),
            ModOp::Sentinel => ModKind::Sentinel,
            ModOp::Empty => ModKind::Empty,
        }
    }

    /// What the change attaches, if it attaches anything.
    pub open spec fn spec_attached(self) -> Option<T> {
        match self {
            ModOp::Insert(_, a) => Some(a),
            ModOp::AttemptInsert(_, a) => Some(a),
            _ => None,
        }
    }

    /// Parts the change from what it attaches.
    pub fn split(self) -> (parts: (ModKind, Option<T>))
        ensures
            parts.0 == self.spec_kind(),
            parts.1 == self.spec_attached(),
    {
        match self {
            ModOp::Insert(v, a) => (ModKind::Insert(v), Some(a)),
            ModOp::AttemptInsert(v, a) => (ModKind::AttemptInsert(v), Some(a)),
            ModOp::Sentinel => (ModKind::Sentinel, None),
            ModOp::Empty => (ModKind::Empty, None),
        }
    }
}

/// The outcome of a probe that ended without a slot for the change.
pub open spec fn exhausted(kind: ModKind) -> ModResult {
    match kind {
        ModKind::Insert(_) => ModResult::TableFull,
        ModKind::AttemptInsert(_) => ModResult::TableFull,
        _ => ModResult::NotFound,
    }
}

/// The address of the entry `index`, counted in bytes from the start of the chunk.
pub open spec fn spec_entry_addr(base: usize, index: int) -> int {
    base + index * spec_entry_size()
}

/// Both attachments give every reader the same.
pub open spec fn same_attachments<V, A: Attachment<V>>(a: A, b: A) -> bool {
    forall|i: int| a.value_at(i) == b.value_at(i)
}

/// The attachment `b` gives what `a` gave, but for the slot `index`, where it gives
/// what `attach_val` holds, if that holds anything.
pub open spec fn attachment_set<V, A: Attachment<V>>(
    a: A,
    b: A,
    index: int,
    attach_val: Option<V>,
) -> bool {
    match attach_val {
        Some(v) => b.value_at(index) == Some(v) && forall|i: int|
            i != index ==> a.value_at(i) == b.value_at(i),
        None => same_attachments(a, b),
    }
}

/// The slot that a probe which began at `home` looks at in its step `t`.
pub open spec fn probe_slot(home: int, t: int, cap: int) -> int {
    if home + t < cap {
        home + t
    } else {
        home + t - cap
    }
}

/// The step in which a probe that began at `home` looks at the slot `i`.
pub open spec fn probe_dist(home: int, i: int, cap: int) -> int {
    if i >= home {
        i - home
    } else {
        i - home + cap
    }
}

/// The slot at which the probe for `key` begins in a chunk of `cap` entries.
pub open spec fn spec_home<H: WordHasher>(key: usize, cap: int) -> int {
    (H::spec_hash(key) & ((cap - 1) as usize)) as int
}

/// The slot `i` carries `key` and a value word that is not empty.
pub open spec fn holds(s: Seq<EntryTemplate>, i: int, key: usize) -> bool {
    0 <= i < s.len() && s[i].0 == key && s[i].1 != 0
}

/// The first `d` slots of the probe that begins at `home` have all been claimed.
pub open spec fn path_taken(s: Seq<EntryTemplate>, home: int, d: int) -> bool {
    forall|t: int| 0 <= t < d ==> (#[trigger] s[probe_slot(home, t, s.len() as int)]).0 != EMPTY_KEY
}

/// What holds of the entries of every chunk: an unclaimed slot has no value; no key has
/// a value in two slots; and the probe for a key reaches the slot with its value before
/// it meets an unclaimed one.
pub open spec fn wf_slots<H: WordHasher>(s: Seq<EntryTemplate>) -> bool {
    &&& forall|i: int| 0 <= i < s.len() && (#[trigger] s[i]).0 == EMPTY_KEY ==> s[i].1 == 0
    &&& forall|i: int, j: int|
        0 <= i < s.len() && 0 <= j < s.len() && (#[trigger] s[i]).0 == (#[trigger] s[j]).0
            && s[i].1 != 0 && s[j].1 != 0 ==> i == j
    &&& forall|i: int|
        0 <= i < s.len() && (#[trigger] s[i]).1 != 0 ==> path_taken(
            s,
            spec_home::<H>(s[i].0, s.len() as int),
            probe_dist(spec_home::<H>(s[i].0, s.len() as int), i, s.len() as int),
        )
}

/// The slot that carries `key` with a value, if there is one.
pub open spec fn find_slot(s: Seq<EntryTemplate>, key: usize) -> Option<int> {
    if exists|i: int| holds(s, i, key) {
        Some(choose|i: int| holds(s, i, key))
    } else {
        None
    }
}

/// The value word that a reader finds for `key`: that of its slot, or zero.
pub open spec fn raw_of(s: Seq<EntryTemplate>, key: usize) -> usize {
    match find_slot(s, key) {
        Some(i) => s[i].1,
        None => 0,
    }
}

/// Some slot has not been claimed yet.
pub open spec fn has_free(s: Seq<EntryTemplate>) -> bool {
    exists|i: int| 0 <= i < s.len() && (#[trigger] s[i]).0 == EMPTY_KEY
}

/// The slot `f` is the first unclaimed one that the probe from `home` meets.
pub open spec fn free_at(s: Seq<EntryTemplate>, home: int, f: int) -> bool {
    &&& 0 <= f < s.len()
    &&& s[f].0 == EMPTY_KEY
    &&& path_taken(s, home, probe_dist(home, f, s.len() as int))
}

/// A key is found in the one slot that carries it with a value.
pub proof fn lemma_found<H: WordHasher>(s: Seq<EntryTemplate>, key: usize, i: int)
    requires
        wf_slots::<H>(s),
        holds(s, i, key),
    ensures
        find_slot(s, key) == Some(i),
        raw_of(s, key) == s[i].1,
{
    let j = choose|j: int| holds(s, j, key);
    assert(s[i].0 == s[j].0);
}

/// The word that marks an unclaimed slot is the key of no value.
pub proof fn lemma_key_zero_absent<H: WordHasher>(s: Seq<EntryTemplate>)
    requires
        wf_slots::<H>(s),
    ensures
        find_slot(s, EMPTY_KEY) is None,
{
    if exists|i: int| holds(s, i, EMPTY_KEY) {
        let j = choose|j: int| holds(s, j, EMPTY_KEY);
        assert(s[j].0 == EMPTY_KEY);
    }
}

/// Where the probe for a key meets an unclaimed slot and has seen no value for the key
/// before, the key has no value in the chunk.
pub proof fn lemma_gap_means_absent<H: WordHasher>(s: Seq<EntryTemplate>, key: usize, t: int)
    requires
        wf_slots::<H>(s),
        spec_is_power_of_2(s.len() as usize),
        s.len() <= usize::MAX,
        0 <= t < s.len(),
        s[probe_slot(spec_home::<H>(key, s.len() as int), t, s.len() as int)].0 == EMPTY_KEY,
        forall|u: int|
            0 <= u < t ==> !holds(
                s,
                #[trigger] probe_slot(spec_home::<H>(key, s.len() as int), u, s.len() as int),
                key,
            ),
    ensures
        find_slot(s, key) is None,
{
    let cap = s.len() as int;
    let home = spec_home::<H>(key, cap);
    lemma_mask_below(H::spec_hash(key), cap as usize);
    if exists|i: int| holds(s, i, key) {
        let j = choose|j: int| holds(s, j, key);
        let d = probe_dist(home, j, cap);
        assert(s[j].1 != 0);
        assert(path_taken(s, home, d));
        assert(probe_slot(home, d, cap) == j);
        if t < d {
            assert(s[probe_slot(home, t, cap)].0 != EMPTY_KEY);
        }
        assert(d < t);
        assert(!holds(s, probe_slot(home, d, cap), key));
    }
}

/// Where the probe for a key has looked at every slot and seen no value for the key, the
/// key has no value in the chunk.
pub proof fn lemma_round_means_absent<H: WordHasher>(s: Seq<EntryTemplate>, key: usize)
    requires
        spec_is_power_of_2(s.len() as usize),
        s.len() <= usize::MAX,
        forall|u: int|
            0 <= u < s.len() ==> !holds(
                s,
                #[trigger] probe_slot(spec_home::<H>(key, s.len() as int), u, s.len() as int),
                key,
            ),
    ensures
        find_slot(s, key) is None,
{
    let cap = s.len() as int;
    let home = spec_home::<H>(key, cap);
    lemma_mask_below(H::spec_hash(key), cap as usize);
    if exists|i: int| holds(s, i, key) {
        let j = choose|j: int| holds(s, j, key);
        let d = probe_dist(home, j, cap);
        assert(probe_slot(home, d, cap) == j);
        assert(!holds(s, probe_slot(home, d, cap), key));
    }
}

/// Writing another value word into a slot that has a value keeps the entries in order.
pub proof fn lemma_update_value<H: WordHasher>(s: Seq<EntryTemplate>, i: int, raw: usize)
    requires
        wf_slots::<H>(s),
        spec_is_power_of_2(s.len() as usize),
        s.len() <= usize::MAX,
        0 <= i < s.len(),
        s[i].1 != 0,
    ensures
        wf_slots::<H>(s.update(i, EntryTemplate(s[i].0, raw))),
{
    let cap = s.len() as int;
    let n = s.update(i, EntryTemplate(s[i].0, raw));
    assert forall|j: int| 0 <= j < cap implies (#[trigger] n[j]).0 == s[j].0 && (n[j].1 != 0
        ==> s[j].1 != 0) by {}
    assert forall|a: int, b: int|
        0 <= a < cap && 0 <= b < cap && (#[trigger] n[a]).0 == (#[trigger] n[b]).0 && n[a].1 != 0
            && n[b].1 != 0 implies a == b by {
        assert(s[a].0 == s[b].0);
    }
    assert forall|j: int| 0 <= j < cap && (#[trigger] n[j]).1 != 0 implies path_taken(
        n,
        spec_home::<H>(n[j].0, cap),
        probe_dist(spec_home::<H>(n[j].0, cap), j, cap),
    ) by {
        let h = spec_home::<H>(s[j].0, cap);
        lemma_mask_below(H::spec_hash(s[j].0), cap as usize);
        assert(s[j].1 != 0);
        assert(path_taken(s, h, probe_dist(h, j, cap)));
        assert forall|t: int| 0 <= t < probe_dist(h, j, cap) implies (#[trigger] n[probe_slot(
            h,
            t,
            cap,
        )]).0 != EMPTY_KEY by {
            assert(s[probe_slot(h, t, cap)].0 != EMPTY_KEY);
        }
    }
}

/// Claiming the first unclaimed slot on the probe of a key that has no value keeps the
/// entries in order.
pub proof fn lemma_claim<H: WordHasher>(s: Seq<EntryTemplate>, f: int, key: usize, raw: usize)
    requires
        wf_slots::<H>(s),
        spec_is_power_of_2(s.len() as usize),
        s.len() <= usize::MAX,
        key != EMPTY_KEY,
        free_at(s, spec_home::<H>(key, s.len() as int), f),
        raw != 0 ==> find_slot(s, key) is None,
    ensures
        wf_slots::<H>(s.update(f, EntryTemplate(key, raw))),
{
    let cap = s.len() as int;
    let n = s.update(f, EntryTemplate(key, raw));
    let home = spec_home::<H>(key, cap);
    lemma_mask_below(H::spec_hash(key), cap as usize);
    assert(s[f].1 == 0);
    assert forall|a: int, b: int|
        0 <= a < cap && 0 <= b < cap && (#[trigger] n[a]).0 == (#[trigger] n[b]).0 && n[a].1 != 0
            && n[b].1 != 0 implies a == b by {
        if a == f && b != f {
            assert(holds(s, b, key));
        } else if b == f && a != f {
            assert(holds(s, a, key));
        } else if a != f && b != f {
            assert(s[a].0 == s[b].0);
        }
    }
    assert forall|j: int| 0 <= j < cap && (#[trigger] n[j]).1 != 0 implies path_taken(
        n,
        spec_home::<H>(n[j].0, cap),
        probe_dist(spec_home::<H>(n[j].0, cap), j, cap),
    ) by {
        let h = spec_home::<H>(n[j].0, cap);
        lemma_mask_below(H::spec_hash(n[j].0), cap as usize);
        if j == f {
            assert forall|t: int| 0 <= t < probe_dist(h, j, cap) implies (#[trigger] n[probe_slot(
                h,
                t,
                cap,
            )]).0 != EMPTY_KEY by {
                assert(s[probe_slot(h, t, cap)].0 != EMPTY_KEY);
            }
        } else {
            assert(s[j].1 != 0);
            assert(path_taken(s, h, probe_dist(h, j, cap)));
            assert forall|t: int| 0 <= t < probe_dist(h, j, cap) implies (#[trigger] n[probe_slot(
                h,
                t,
                cap,
            )]).0 != EMPTY_KEY by {
                assert(s[probe_slot(h, t, cap)].0 != EMPTY_KEY);
            }
        }
    }
}

/// Where the probe for a key has looked at every slot and found each claimed, no slot
/// is left to claim.
pub proof fn lemma_round_means_full(s: Seq<EntryTemplate>, home: int)
    requires
        0 <= home < s.len(),
        path_taken(s, home, s.len() as int),
    ensures
        !has_free(s),
{
    let cap = s.len() as int;
    if has_free(s) {
        let j = choose|j: int| 0 <= j < s.len() && (#[trigger] s[j]).0 == EMPTY_KEY;
        let d = probe_dist(home, j, cap);
        assert(probe_slot(home, d, cap) == j);
        assert(s[probe_slot(home, d, cap)].0 != EMPTY_KEY);
    }
}

/// What a change to the entry of `key` leaves behind and gives back, where the key has
/// a value in the slot `i`.
pub open spec fn modify_present<V, A: Attachment<V>, H: WordHasher>(
    pre: Chunk<V, A, H>,
    post: Chunk<V, A, H>,
    key: usize,
    kind: ModKind,
    attach_val: Option<V>,
    out: ModOutput,
    i: int,
) -> bool {
    let s = pre.slots();
    match spec_parse(s[i].1).payload() {
        None => {
            &&& post.slots() == s
            &&& same_attachments(pre.attachment, post.attachment)
            &&& out.result == ModResult::Sentinel
            &&& out.index == i
        },
        Some(v) => match kind {
            ModKind::Sentinel => {
                &&& post.slots() == s.update(i, EntryTemplate(key, SENTINEL_VALUE))
                &&& same_attachments(pre.attachment, post.attachment)
                &&& out.result == ModResult::Done(spec_entry_addr(pre.base, i) as usize)
                &&& out.index == i
            },
            ModKind::Empty => {
                &&& post.slots() == s.update(i, EntryTemplate(key, 0))
                &&& same_attachments(pre.attachment, post.attachment)
                &&& out.result == ModResult::Replaced(v)
                &&& out.index == i
            },
            ModKind::AttemptInsert(_) => {
                &&& post.slots() == s
                &&& same_attachments(pre.attachment, post.attachment)
                &&& out.result == ModResult::Fail(v)
                &&& out.index == i
            },
            ModKind::Insert(val) => if has_free(s) {
                &&& free_at(s, pre.home(key), out.index as int)
                &&& post.slots() == s.update(i, EntryTemplate(key, 0)).update(
                    out.index as int,
                    EntryTemplate(key, val),
                )
                &&& attachment_set(pre.attachment, post.attachment, out.index as int, attach_val)
                &&& out.result == ModResult::Replaced(v)
            } else {
                &&& post.slots() == s.update(i, EntryTemplate(key, 0))
                &&& same_attachments(pre.attachment, post.attachment)
                &&& out.result == ModResult::TableFull
                &&& out.index == 0
            },
        },
    }
}

/// What a change to the entry of `key` leaves behind and gives back, where the key has
/// no value in the chunk.
pub open spec fn modify_absent<V, A: Attachment<V>, H: WordHasher>(
    pre: Chunk<V, A, H>,
    post: Chunk<V, A, H>,
    key: usize,
    kind: ModKind,
    attach_val: Option<V>,
    out: ModOutput,
) -> bool {
    let s = pre.slots();
    if key != EMPTY_KEY && has_free(s) {
        &&& free_at(s, pre.home(key), out.index as int)
        &&& match kind {
            ModKind::Insert(val) => {
                &&& post.slots() == s.update(out.index as int, EntryTemplate(key, val))
                &&& attachment_set(pre.attachment, post.attachment, out.index as int, attach_val)
                &&& out.result == ModResult::Done(
                    spec_entry_addr(pre.base, out.index as int) as usize,
                )
            },
            ModKind::AttemptInsert(val) => {
                &&& post.slots() == s.update(out.index as int, EntryTemplate(key, val))
                &&& attachment_set(pre.attachment, post.attachment, out.index as int, attach_val)
                &&& out.result == ModResult::Done(
                    spec_entry_addr(pre.base, out.index as int) as usize,
                )
            },
            ModKind::Sentinel => {
                &&& post.slots() == s.update(out.index as int, EntryTemplate(key, SENTINEL_VALUE))
                &&& same_attachments(pre.attachment, post.attachment)
                &&& out.result == ModResult::Done(
                    spec_entry_addr(pre.base, out.index as int) as usize,
                )
            },
            ModKind::Empty => {
                &&& post.slots() == s
                &&& same_attachments(pre.attachment, post.attachment)
                &&& out.result == ModResult::Fail(0)
            },
        }
    } else {
        &&& post.slots() == s
        &&& same_attachments(pre.attachment, post.attachment)
        &&& out.result == exhausted(kind)
        &&& out.index == 0
    }
}

/// What a change to the entry of `key` leaves behind and gives back.
pub open spec fn modify_post<V, A: Attachment<V>, H: WordHasher>(
    pre: Chunk<V, A, H>,
    post: Chunk<V, A, H>,
    key: usize,
    kind: ModKind,
    attach_val: Option<V>,
    out: ModOutput,
) -> bool {
    match find_slot(pre.slots(), key) {
        Some(i) => modify_present(pre, post, key, kind, attach_val, out, i),
        None => modify_absent(pre, post, key, kind, attach_val, out),
    }
}

/// What handing over the entry of the slot `idx` of the chunk `old_pre` to the chunk
/// `new_pre` leaves behind and gives back. An entry with an ordinary value whose key has
/// no value in the new chunk moves: the new chunk gets key, value and attachment in the
/// first unclaimed slot of the key's probe, which is given back, and the old slot gets
/// a sentinel. Any other entry stays, and both chunks with it.
pub open spec fn handed_over<V, A: Attachment<V>, H: WordHasher>(
    old_pre: Chunk<V, A, H>,
    new_pre: Chunk<V, A, H>,
    old_post: Chunk<V, A, H>,
    new_post: Chunk<V, A, H>,
    idx: int,
    moved_to: Option<usize>,
) -> bool {
    let s = old_pre.slots();
    let n = new_pre.slots();
    let e = s[idx];
    if spec_parse(e.1) is Val && raw_of(n, e.0) == 0 {
        &&& moved_to is Some
        &&& free_at(n, new_pre.home(e.0), moved_to.unwrap() as int)
        &&& new_post.slots() == n.update(moved_to.unwrap() as int, e)
        &&& attachment_set(
            new_pre.attachment,
            new_post.attachment,
            moved_to.unwrap() as int,
            old_pre.attachment.value_at(idx),
        )
        &&& old_post.slots() == s.update(idx, EntryTemplate(e.0, SENTINEL_VALUE))
        &&& same_attachments(old_pre.attachment, old_post.attachment)
    } else {
        &&& moved_to is None
        &&& old_post.slots() == s
        &&& new_post.slots() == n
        &&& same_attachments(old_pre.attachment, old_post.attachment)
        &&& same_attachments(new_pre.attachment, new_post.attachment)
    }
}

/// Every slot that carries a payload has something attached that can be read.
pub open spec fn attached<V, A: Attachment<V>>(s: Seq<EntryTemplate>, att: A) -> bool {
    forall|i: int|
        0 <= i < s.len() && spec_parse((#[trigger] s[i]).1).payload() is Some ==> att.value_at(
            i,
        ) is Some
}

/// One array of entries whose size is a power of two, with the array of attachments
/// that runs beside it.
pub struct Chunk<V, A: Attachment<V>, H: WordHasher> {
    /// The number of entries.
    pub capacity: usize,
    /// Where the entries begin, counted in bytes from the start of the chunk.
    pub base: usize,
    /// The number of claimed slots above which the chunk is to grow.
    pub occu_limit: usize,
    /// The number of slots claimed so far; it never goes down.
    pub occupation: usize,
    /// The bytes of header, entries and attachments together.
    pub total_size: usize,
    pub attachment: A,
    pub entries: Vec<EntryTemplate>,
    pub shadow: PhantomData<(V, H)>,
}

impl<V, A: Attachment<V>, H: WordHasher> Chunk<V, A, H> {
    /// The entries, slot by slot.
    pub open spec fn slots(&self) -> Seq<EntryTemplate> {
        self.entries@
    }

    /// The bytes that a chunk of `cap` entries takes up: the header, the entries, and
    /// the attachments behind them.
    pub open spec fn spec_total_size(cap: usize) -> int {
        CHUNK_HEADER_SIZE + spec_chunk_size_of(cap) + A::spec_heap_size_of(cap)
    }

    /// A chunk of `cap` entries has a size that fits a word.
    pub open spec fn layout_fits(cap: usize) -> bool {
        Self::spec_total_size(cap) <= usize::MAX
    }

    /// What holds of every chunk between calls: the capacity is a power of two, the header
    /// says how the chunk is laid out, the entries are in order, and every slot with a
    /// payload has something attached.
    pub open spec fn wf(&self) -> bool {
        &&& spec_is_power_of_2(self.capacity)
        &&& self.entries.len() == self.capacity
        &&& self.base == CHUNK_HEADER_SIZE
        &&& self.occu_limit == spec_occupation_limit(self.capacity)
        &&& self.total_size == Self::spec_total_size(self.capacity)
        &&& self.attachment.inv()
        &&& self.attachment.slot_count() == self.capacity
        &&& wf_slots::<H>(self.slots())
        &&& attached(self.slots(), self.attachment)
    }

    /// What a reader finds for `key`: the payload of its value word and what is attached
    /// to its slot, where the key has a value with a payload.
    pub open spec fn lookup(&self, key: usize) -> Option<(usize, V)> {
        match find_slot(self.slots(), key) {
            Some(i) => match spec_parse(self.slots()[i].1).payload() {
                Some(p) => match self.attachment.value_at(i) {
                    Some(a) => Some((p, a)),
                    None => None,
                },
                None => None,
            },
            None => None,
        }
    }

    /// The keys of the first `n` slots that carry a payload, each with its payload and
    /// with what is attached to its slot, in the order of the slots.
    pub open spec fn entries_upto(&self, n: nat) -> Seq<(usize, usize, V)>
        decreases n,
    {
        if n == 0 {
            Seq::empty()
        } else {
            let rest = self.entries_upto((n - 1) as nat);
            let e = self.slots()[n - 1];
            match (spec_parse(e.1).payload(), self.attachment.value_at(n - 1)) {
                (Some(v), Some(a)) => rest.push((e.0, v, a)),
                _ => rest,
            }
        }
    }

    /// The slot at which the probe for `key` begins.
    pub open spec fn home(&self, key: usize) -> int {
        spec_home::<H>(key, self.capacity as int)
    }

    /// Whether a chunk of `capacity` entries has a size that fits a word.
    pub fn fits(capacity: usize) -> (fits: bool)
        ensures
            fits == Self::layout_fits(capacity),
    {
        if !A::heap_fits(capacity) {
            return false;
        }
        let attachment_heap = A::heap_size_of(capacity);
        match capacity.checked_mul(entry_size()) {
            Some(chunk_size) => match CHUNK_HEADER_SIZE.checked_add(chunk_size) {
                Some(front) => front.checked_add(attachment_heap).is_some(),
                None => false,
            },
            None => false,
        }
    }

    /// A new chunk of `capacity` entries, all of them unclaimed.
    pub fn alloc_chunk(capacity: usize) -> (chunk: Self)
        requires
            spec_is_power_of_2(capacity),
            Self::layout_fits(capacity),
        ensures
            chunk.wf(),
            chunk.capacity == capacity,
            chunk.occupation == 0,
            forall|i: int| 0 <= i < capacity ==> chunk.slots()[i] == EntryTemplate(0, 0),
    {
        let self_size_aligned = CHUNK_HEADER_SIZE;
        let chunk_size = chunk_size_of(capacity);
        let attachment_heap = A::heap_size_of(capacity);
        let total_size = self_size_aligned + chunk_size + attachment_heap;
        let data_base = self_size_aligned;
        let attachment_base = data_base + chunk_size;
        let mut entries: Vec<EntryTemplate> = Vec::new();
        let mut i: usize = 0;
        while i < capacity
            invariant
                i <= capacity,
                entries.len() == i,
                forall|j: int| 0 <= j < i ==> entries@[j] == EntryTemplate(0, 0),
            decreases capacity - i,
        {
            entries.push(EntryTemplate(0, 0));
            i += 1;
        }
        let chunk = Self {
            base: data_base,
            capacity,
            occupation: 0,
            occu_limit: occupation_limit(capacity),
            total_size,
            attachment: A::new(capacity, attachment_base, attachment_heap),
            entries,
            shadow: PhantomData,
        };
        assert(spec_parse(0) == ParsedValue::Empty);
        chunk
    }

    /// The bits of a hash that pick a slot: the capacity less one.
    #[inline]
    pub fn cap_mask(&self) -> (mask: usize)
        requires
            self.capacity > 0,
        ensures
            mask == self.capacity - 1,
    {
        self.capacity - 1
    }

    /// Reads the key word of the slot.
    #[inline(always)]
    pub fn get_key(&self, index: usize) -> (key: usize)
        requires
            index < self.entries.len(),
        ensures
            key == self.slots()[index as int].0,
    {
        self.entries[index].0
    }

    /// Reads the value word of the slot and tells what it means.
    #[inline(always)]
    pub fn get_value(&self, index: usize) -> (value: Value)
        requires
            index < self.entries.len(),
        ensures
            value.raw == self.slots()[index as int].1,
            value.parsed == spec_parse(value.raw),
    {
        Value::new(self.entries[index].1)
    }

    /// The two chunks agree in all but their entries and attachments.
    pub open spec fn same_header(&self, other: &Self) -> bool {
        &&& self.capacity == other.capacity
        &&& self.base == other.base
        &&& self.occu_limit == other.occu_limit
        &&& self.occupation == other.occupation
        &&& self.total_size == other.total_size
    }

    /// The address of the entry `index`, counted in bytes from the start of the chunk.
    pub fn entry_addr(&self, index: usize) -> (addr: usize)
        requires
            self.base == CHUNK_HEADER_SIZE,
            self.total_size == Self::spec_total_size(self.capacity),
            index < self.capacity,
        ensures
            addr == spec_entry_addr(self.base, index as int),
    {
        let esize = entry_size();
        assert(index * esize <= self.capacity * esize) by (nonlinear_arith)
            requires
                index < self.capacity,
                0 <= esize,
        ;
        self.base + index * esize
    }

    /// Puts `value` into the value word of the slot if that holds `expected`, and tells
    /// whether it did.
    #[inline(always)]
    pub fn cas_value(&mut self, index: usize, expected: usize, value: usize) -> (swapped: bool)
        requires
            index < old(self).entries.len(),
        ensures
            swapped == (old(self).slots()[index as int].1 == expected),
            swapped ==> final(self).slots() == old(self).slots().update(
                index as int,
                EntryTemplate(old(self).slots()[index as int].0, value),
            ),
            !swapped ==> final(self).slots() == old(self).slots(),
            final(self).same_header(old(self)),
            final(self).attachment == old(self).attachment,
    {
        let entry = self.entries[index];
        if entry.1 == expected {
            self.entries.set(index, EntryTemplate(entry.0, value));
            true
        } else {
            false
        }
    }

    /// Takes the value of the slot away if its value word is still `expected`.
    #[inline(always)]
    pub fn set_tombstone(&mut self, index: usize, expected: usize) -> (swapped: bool)
        requires
            index < old(self).entries.len(),
        ensures
            swapped == (old(self).slots()[index as int].1 == expected),
            swapped ==> final(self).slots() == old(self).slots().update(
                index as int,
                EntryTemplate(old(self).slots()[index as int].0, 0),
            ),
            !swapped ==> final(self).slots() == old(self).slots(),
            final(self).same_header(old(self)),
            final(self).attachment == old(self).attachment,
    {
        self.cas_value(index, expected, 0)
    }

    /// Marks the slot as one whose value lives in the next chunk.
    #[inline(always)]
    pub fn set_sentinel(&mut self, index: usize)
        requires
            index < old(self).entries.len(),
        ensures
            final(self).slots() == old(self).slots().update(
                index as int,
                EntryTemplate(old(self).slots()[index as int].0, SENTINEL_VALUE),
            ),
            final(self).same_header(old(self)),
            final(self).attachment == old(self).attachment,
    {
        let entry = self.entries[index];
        self.entries.set(index, EntryTemplate(entry.0, SENTINEL_VALUE));
    }

    /// Writes the key word of the slot.
    #[inline(always)]
    pub fn set_key(&mut self, index: usize, key: usize)
        requires
            index < old(self).entries.len(),
        ensures
            final(self).slots() == old(self).slots().update(
                index as int,
                EntryTemplate(key, old(self).slots()[index as int].1),
            ),
            final(self).same_header(old(self)),
            final(self).attachment == old(self).attachment,
    {
        let entry = self.entries[index];
        self.entries.set(index, EntryTemplate(key, entry.1));
    }

    /// Claims the unclaimed slot `index` for `key` with the value word `value`, if its
    /// value word is still zero, and attaches what `attach_val` holds.
    pub fn put_in_empty(
        &mut self,
        index: usize,
        key: usize,
        value: usize,
        attach_val: Option<V>,
        replaced: Option<usize>,
        addr: usize,
    ) -> (res: (ModResult, Option<V>))
        requires
            index < old(self).entries.len(),
            old(self).attachment.inv(),
            old(self).attachment.slot_count() == old(self).entries.len(),
        ensures
            final(self).same_header(old(self)),
            final(self).attachment.inv(),
            final(self).attachment.slot_count() == old(self).attachment.slot_count(),
            old(self).slots()[index as int].1 == 0 ==> {
                &&& final(self).slots() == old(self).slots().update(
                    index as int,
                    EntryTemplate(key, value),
                )
                &&& attachment_set(
                    old(self).attachment,
                    final(self).attachment,
                    index as int,
                    attach_val,
                )
                &&& res.0 == (match replaced {
                    Some(v) => ModResult::Replaced(v),
                    None => ModResult::Done(addr),
                })
                &&& res.1 is None
            },
            old(self).slots()[index as int].1 != 0 ==> {
                &&& final(self).slots() == old(self).slots()
                &&& final(self).attachment == old(self).attachment
                &&& res.0 == ModResult::Fail(0)
                &&& res.1 == attach_val
            },
    {
        if self.cas_value(index, 0, value) {
            if let Some(attach_val) = attach_val {
                self.attachment.set(index, key, attach_val);
            }
            self.set_key(index, key);
            assert(self.slots() =~= old(self).slots().update(
                index as int,
                EntryTemplate(key, value),
            ));
            match replaced {
                Some(v) => (ModResult::Replaced(v), None),
                None => (ModResult::Done(addr), None),
            }
        } else {
            (ModResult::Fail(0), attach_val)
        }
    }

    /// Makes the change `op` to the entry of `key`: walks the probe of the key, and
    /// changes the slot that has the key's value or claims the first unclaimed one.
    pub fn modify_entry(&mut self, key: usize, op: ModOp<V>) -> (out: ModOutput)
        requires
            old(self).wf(),
        ensures
            final(self).wf(),
            final(self).same_header(old(self)),
            modify_post(*old(self), *final(self), key, op.spec_kind(), op.spec_attached(), out),
    {
        let ghost pre = *self;
        let ghost initial = self.slots();
        let ghost home = self.home(key);
        let ghost mut gi: int = -1;
        let cap = self.capacity;
        let (kind, attach_val) = op.split();
        let mut attach_val = attach_val;
        let cap_mask = self.cap_mask();
        let mut idx = hash::<H>(key) & cap_mask;
        let mut replaced: Option<usize> = None;
        let mut count: usize = 0;
        proof {
            lemma_mask_below(H::spec_hash(key), cap);
        }
        while count < cap
            invariant
                pre == *old(self),
                pre.wf(),
                initial == pre.slots(),
                self.same_header(&pre),
                self.entries.len() == cap,
                cap == pre.capacity,
                cap_mask == cap - 1,
                self.attachment.inv(),
                self.attachment.slot_count() == cap,
                same_attachments(pre.attachment, self.attachment),
                kind == op.spec_kind(),
                attach_val == op.spec_attached(),
                home == pre.home(key),
                0 <= home < cap,
                idx < cap,
                count <= cap,
                count < cap ==> idx == probe_slot(home, count as int, cap as int),
                key != EMPTY_KEY ==> path_taken(initial, home, count as int),
                replaced is None ==> self.slots() == initial && forall|u: int|
                    0 <= u < count ==> !holds(initial, #[trigger] probe_slot(home, u, cap as int), key),
                replaced is Some ==> kind is Insert && holds(initial, gi, key) && spec_parse(
                    initial[gi].1,
                ).payload() == replaced && self.slots() == initial.update(gi, EntryTemplate(key, 0)),
            decreases cap - count,
        {
            let addr = self.entry_addr(idx);
            let k = self.get_key(idx);
            if k == key {
                let val = self.get_value(idx);
                match val.parsed {
                    ParsedValue::Val(v) | ParsedValue::Prime(v) => {
                        proof {
                            if replaced is Some {
                                assert(initial[idx as int].0 == initial[gi].0);
                                assert(false);
                            }
                            lemma_found::<H>(initial, key, idx as int);
                        }
                        match kind {
                            ModKind::Sentinel => {
                                self.set_sentinel(idx);
                                self.attachment.erase(idx, key);
                                proof {
                                    lemma_update_value::<H>(initial, idx as int, SENTINEL_VALUE);
                                    assert(spec_parse(SENTINEL_VALUE).payload() is None) by {
                                        lemma_sentinel_word();
                                    }
                                }
                                return ModOutput::new(ModResult::Done(addr), idx);
                            },
                            ModKind::Empty | ModKind::Insert(_) => {
                                if !self.set_tombstone(idx, val.raw) {
                                    // Somebody else changed the value in between: look at
                                    // this slot again.
                                    continue ;
                                } else {
                                    self.attachment.erase(idx, key);
                                    replaced = Some(v);
                                    proof {
                                        gi = idx as int;
                                        lemma_update_value::<H>(initial, idx as int, 0);
                                    }
                                }
                            },
                            ModKind::AttemptInsert(_) => {
                                return ModOutput::new(ModResult::Fail(v), idx);
                            },
                        }
                        match kind {
                            ModKind::Empty => {
                                return ModOutput::new(ModResult::Replaced(v), idx);
                            },
                            _ => {},
                        }
                    },
                    ParsedValue::Empty => {
                        // The key is here without a value: the probe goes on.
                    },
                    ParsedValue::Sentinel => {
                        proof {
                            if replaced is Some {
                                assert(initial[idx as int].0 == initial[gi].0);
                                assert(false);
                            }
                            lemma_found::<H>(initial, key, idx as int);
                        }
                        return ModOutput::new(ModResult::Sentinel, idx);
                    },
                }
            } else if k == EMPTY_KEY {
                proof {
                    if replaced is Some {
                        assert(gi != idx);
                        lemma_update_value::<H>(initial, gi, 0);
                    } else {
                        lemma_gap_means_absent::<H>(initial, key, count as int);
                    }
                    assert(initial[idx as int].0 == EMPTY_KEY);
                    assert(has_free(initial));
                    assert(free_at(initial, home, idx as int));
                }
                let target = match kind {
                    ModKind::Insert(val) | ModKind::AttemptInsert(val) => val,
                    ModKind::Sentinel => SENTINEL_VALUE,
                    ModKind::Empty => {
                        return ModOutput::new(ModResult::Fail(0), idx);
                    },
                };
                let ghost before = self.slots();
                let (mod_res, rest) = self.put_in_empty(idx, key, target, attach_val, replaced, addr);
                attach_val = rest;
                match mod_res {
                    ModResult::Fail(_) => {},
                    _ => {
                        proof {
                            assert(before[idx as int].1 == 0);
                            if replaced is Some {
                                assert(find_slot(before, key) is None) by {
                                    if exists|j: int| holds(before, j, key) {
                                        let j = choose|j: int| holds(before, j, key);
                                        assert(initial[j].0 == initial[gi].0);
                                    }
                                }
                                assert(free_at(before, home, idx as int)) by {
                                    assert forall|t: int| 0 <= t < count implies (
                                    #[trigger] before[probe_slot(home, t, cap as int)]).0
                                        != EMPTY_KEY by {
                                        assert(initial[probe_slot(home, t, cap as int)].0 != EMPTY_KEY);
                                    }
                                }
                            }
                            lemma_claim::<H>(before, idx as int, key, target);
                            assert(spec_parse(SENTINEL_VALUE).payload() is None) by {
                                lemma_sentinel_word();
                            }
                        }
                        return ModOutput::new(mod_res, idx);
                    },
                }
            }
            proof {
                lemma_mask_step(idx, cap);
            }
            idx = (idx + 1) & cap_mask;
            count += 1;
        }
        proof {
            if key != EMPTY_KEY {
                lemma_round_means_full(initial, home);
            }
            if replaced is Some {
                lemma_found::<H>(initial, key, gi);
                lemma_update_value::<H>(initial, gi, 0);
            } else {
                lemma_round_means_absent::<H>(initial, key);
            }
        }
        match kind {
            ModKind::Insert(_) | ModKind::AttemptInsert(_) => ModOutput::new(
                ModResult::TableFull,
                0,
            ),
            _ => ModOutput::new(ModResult::NotFound, 0),
        }
    }

    /// Looks for `key` along its probe and gives the value word of its slot with the
    /// slot's index, or the empty word with index zero where the key has no value.
    pub fn get_from_chunk(&self, key: usize) -> (found: (Value, usize))
        requires
            self.wf(),
        ensures
            found.0.raw == raw_of(self.slots(), key),
            found.0.parsed == spec_parse(found.0.raw),
            found.1 == (match find_slot(self.slots(), key) {
                Some(i) => i,
                None => 0,
            }),
    {
        let cap = self.capacity;
        let cap_mask = self.cap_mask();
        let mut idx = hash::<H>(key) & cap_mask;
        let mut counter: usize = 0;
        let ghost s = self.slots();
        let ghost home = self.home(key);
        proof {
            lemma_mask_below(H::spec_hash(key), cap);
        }
        while counter < cap
            invariant
                self.wf(),
                s == self.slots(),
                cap == self.capacity,
                cap_mask == cap - 1,
                home == self.home(key),
                0 <= home < cap,
                idx < cap,
                counter <= cap,
                counter < cap ==> idx == probe_slot(home, counter as int, cap as int),
                forall|u: int|
                    0 <= u < counter ==> !holds(s, #[trigger] probe_slot(home, u, cap as int), key),
            decreases cap - counter,
        {
            let k = self.get_key(idx);
            if k == key {
                let val_res = self.get_value(idx);
                match val_res.parsed {
                    ParsedValue::Empty => {},
                    _ => {
                        proof {
                            lemma_found::<H>(s, key, idx as int);
                        }
                        return (val_res, idx);
                    },
                }
            }
            if k == EMPTY_KEY {
                proof {
                    if key == EMPTY_KEY {
                        lemma_key_zero_absent::<H>(s);
                    } else {
                        lemma_gap_means_absent::<H>(s, key, counter as int);
                    }
                }
                return (Value::new(0), 0);
            }
            proof {
                lemma_mask_step(idx, cap);
            }
            idx = (idx + 1) & cap_mask;
            counter += 1;
        }
        proof {
            lemma_round_means_absent::<H>(s, key);
        }
        return (Value::new(0), 0);
    }

    /// Hands the entry of the slot `idx` over to `new_chunk`, the chunk that takes
    /// over from this one. The value goes into the new chunk primed; then the old slot
    /// gets the sentinel; then the prime is taken off. Where the key has a value in the
    /// new chunk already, that value stands and the entry stays behind.
    pub fn migrate_entry(&mut self, new_chunk: &mut Self, idx: usize) -> (moved_to: Option<usize>)
        requires
            old(self).wf(),
            old(new_chunk).wf(),
            idx < old(self).capacity,
            !(spec_parse(old(self).slots()[idx as int].1) is Prime),
            spec_parse(old(self).slots()[idx as int].1) is Val ==> {
                let key = old(self).slots()[idx as int].0;
                &&& !(spec_parse(raw_of(old(new_chunk).slots(), key)) is Sentinel)
                &&& raw_of(old(new_chunk).slots(), key) == 0 ==> has_free(
                    old(new_chunk).slots(),
                )
            },
        ensures
            final(self).wf(),
            final(new_chunk).wf(),
            final(self).same_header(old(self)),
            final(new_chunk).same_header(old(new_chunk)),
            handed_over(
                *old(self),
                *old(new_chunk),
                *final(self),
                *final(new_chunk),
                idx as int,
                moved_to,
            ),
    {
        let ghost s = self.slots();
        let ghost new0 = *new_chunk;
        let key = self.get_key(idx);
        let value = self.get_value(idx);
        let mut moved_to: Option<usize> = None;
        proof {
            lemma_sentinel_word();
            assert(spec_parse(0) == ParsedValue::Empty);
        }
        if key != EMPTY_KEY {
            match value.parsed {
                ParsedValue::Val(v) => {
                    // The value goes into the new chunk primed; where the key has a
                    // value there, the entry is passed over.
                    let primed_val = value.raw | inv_bit_mask();
                    let attached_val = self.attachment.get(idx, key);
                    let ghost att = attached_val;
                    let ghost kind = ModKind::AttemptInsert(primed_val);
                    proof {
                        lemma_primed(value.raw);
                    }
                    let new_chunk_insertion = new_chunk.modify_entry(
                        key,
                        ModOp::AttemptInsert(primed_val, attached_val),
                    );
                    let ghost new1 = *new_chunk;
                    let ghost f = new_chunk_insertion.index as int;
                    let inserted_index = match new_chunk_insertion.result {
                        ModResult::Done(_) => Some(new_chunk_insertion.index),
                        _ => None,
                    };
                    proof {
                        match find_slot(new0.slots(), key) {
                            Some(i) => {
                                assert(holds(new0.slots(), i, key));
                            },
                            None => {},
                        }
                    }
                    if let Some(new_entry_index) = inserted_index {
                        // The sentinel goes into the old slot by compare-and-swap.
                        if self.cas_value(idx, value.raw, SENTINEL_VALUE) {
                            // strip prime
                            let stripped = primed_val & val_bit_mask();
                            if new_chunk.cas_value(new_entry_index, primed_val, stripped) {
                                self.attachment.erase(idx, key);
                                moved_to = Some(new_entry_index);
                            }
                        }
                        proof {
                            let n1 = new1.slots();
                            let n2 = new_chunk.slots();
                            lemma_update_value::<H>(s, idx as int, SENTINEL_VALUE);
                            assert(n2 =~= new0.slots().update(f, EntryTemplate(key, value.raw)));
                            lemma_update_value::<H>(n1, f, value.raw);
                            assert(attached(n2, new_chunk.attachment)) by {
                                assert forall|j: int|
                                    0 <= j < n2.len() && spec_parse(
                                        (#[trigger] n2[j]).1,
                                    ).payload() is Some implies new_chunk.attachment.value_at(
                                    j,
                                ) is Some by {
                                    if j != f {
                                        assert(n2[j] == n1[j]);
                                    }
                                }
                            }
                        }
                    }
                },
                ParsedValue::Prime(_) => {
                    // No value is primed in a chunk that hands its entries over.
                },
                ParsedValue::Sentinel => {
                    // A sentinel says that the value is in the new chunk already.
                },
                ParsedValue::Empty => {},
            }
        }
        moved_to
    }

    /// The keys that have a payload, each with its payload and with what is attached to
    /// its slot, in the order of the slots.
    pub fn all_from_chunk(&self) -> (res: Vec<(usize, usize, V)>)
        requires
            self.wf(),
        ensures
            res@ == self.entries_upto(self.capacity as nat),
    {
        let mut idx: usize = 0;
        let cap = self.capacity;
        let mut counter: usize = 0;
        let mut res: Vec<(usize, usize, V)> = Vec::new();
        let cap_mask = self.cap_mask();
        while counter < cap
            invariant
                self.wf(),
                cap == self.capacity,
                cap_mask == cap - 1,
                idx == counter,
                counter <= cap,
                res@ == self.entries_upto(counter as nat),
            decreases cap - counter,
        {
            proof {
                lemma_mask_step(idx, cap);
            }
            idx &= cap_mask;
            let k = self.get_key(idx);
            let val_res = self.get_value(idx);
            if k != EMPTY_KEY {
                match val_res.parsed {
                    ParsedValue::Val(v) | ParsedValue::Prime(v) => {
                        res.push((k, v, self.attachment.get(idx, k)))
                    },
                    _ => {},
                }
            } else {
                assert(spec_parse(0) == ParsedValue::Empty);
            }
            idx += 1;
            counter += 1;
        }
        return res;
    }

    /// Gives the chunk up: the attachment lets go of what it holds.
    pub fn gc(self)
        requires
            self.attachment.inv(),
    {
        let mut chunk = self;
        chunk.attachment.dealloc();
    }
}

impl<V, A: Attachment<V>, H: WordHasher> Clone for Chunk<V, A, H> {
    /// A second chunk with the same entries and the same attachments.
    fn clone(&self) -> (copy: Self)
        ensures
            copy.slots() == self.slots(),
            copy.same_header(self),
            same_attachments(self.attachment, copy.attachment),
            self.wf() ==> copy.wf(),
    {
        let mut entries: Vec<EntryTemplate> = Vec::new();
        let mut i: usize = 0;
        while i < self.entries.len()
            invariant
                i <= self.entries.len(),
                entries.len() == i,
                forall|j: int| 0 <= j < i ==> entries@[j] == self.entries@[j],
            decreases self.entries.len() - i,
        {
            entries.push(self.entries[i]);
            i += 1;
        }
        let copy = Self {
            capacity: self.capacity,
            base: self.base,
            occu_limit: self.occu_limit,
            occupation: self.occupation,
            total_size: self.total_size,
            attachment: self.attachment.duplicate(),
            entries,
            shadow: PhantomData,
        };
        assert(copy.slots() =~= self.slots());
        copy
    }
}

} // verus!
