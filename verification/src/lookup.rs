use crate::attachment::Attachment;
use crate::chunk::{
    attachment_set, exhausted, find_slot, free_at, handed_over, has_free, holds,
    lemma_found, lemma_update_value, modify_post, raw_of, same_attachments, spec_entry_addr,
    wf_slots, Chunk, EntryTemplate, ModKind, ModOutput, ModResult,
};
use crate::hasher::WordHasher;
use crate::value::{spec_parse, ParsedValue, EMPTY_KEY, SENTINEL_VALUE};
use vstd::prelude::*;

verus! {

/// The number of claimed slots among the first `n`.
pub open spec fn claimed_upto(s: Seq<EntryTemplate>, n: nat) -> nat
    decreases n,
{
    if n == 0 {
        0
    } else {
        claimed_upto(s, (n - 1) as nat) + if s[n - 1].0 != EMPTY_KEY {
            1nat
        } else {
            0nat
        }
    }
}

/// The number of claimed slots.
pub open spec fn claimed(s: Seq<EntryTemplate>) -> nat {
    claimed_upto(s, s.len())
}

/// The number of slots among the first `n` whose value word carries a payload.
pub open spec fn live_upto(s: Seq<EntryTemplate>, n: nat) -> nat
    decreases n,
{
    if n == 0 {
        0
    } else {
        live_upto(s, (n - 1) as nat) + if spec_parse(s[n - 1].1).payload() is Some {
            1nat
        } else {
            0nat
        }
    }
}

/// The number of slots whose value word carries a payload.
pub open spec fn live_count(s: Seq<EntryTemplate>) -> nat {
    live_upto(s, s.len())
}

/// Among `n` slots at most `n` are claimed, and at most `n` carry a payload.
pub proof fn lemma_claimed_bound(s: Seq<EntryTemplate>, n: nat)
    ensures
        claimed_upto(s, n) <= n,
        live_upto(s, n) <= n,
    decreases n,
{
    if n > 0 {
        lemma_claimed_bound(s, (n - 1) as nat);
    }
}

/// Where every slot is unclaimed, the number of claimed slots is zero.
pub proof fn lemma_claimed_none(s: Seq<EntryTemplate>, n: nat)
    requires
        n <= s.len(),
        forall|i: int| 0 <= i < n ==> (#[trigger] s[i]).0 == EMPTY_KEY,
    ensures
        claimed_upto(s, n) == 0,
    decreases n,
{
    if n > 0 {
        lemma_claimed_none(s, (n - 1) as nat);
    }
}

/// Where fewer slots are claimed than there are, one is unclaimed.
pub proof fn lemma_claimed_room(s: Seq<EntryTemplate>, n: nat)
    requires
        n <= s.len(),
        claimed_upto(s, n) < n,
    ensures
        exists|i: int| 0 <= i < n && (#[trigger] s[i]).0 == EMPTY_KEY,
    decreases n,
{
    if n > 0 {
        if s[n - 1].0 != EMPTY_KEY {
            lemma_claimed_room(s, (n - 1) as nat);
        }
    }
}

/// What writing the entry `e` into the slot `i` does to the number of claimed slots.
pub proof fn lemma_claimed_update(s: Seq<EntryTemplate>, i: int, e: EntryTemplate, n: nat)
    requires
        0 <= i < s.len(),
        n <= s.len(),
    ensures
        i >= n ==> claimed_upto(s.update(i, e), n) == claimed_upto(s, n),
        i < n && (s[i].0 != EMPTY_KEY) == (e.0 != EMPTY_KEY) ==> claimed_upto(s.update(i, e), n)
            == claimed_upto(s, n),
        i < n && s[i].0 == EMPTY_KEY && e.0 != EMPTY_KEY ==> claimed_upto(s.update(i, e), n)
            == claimed_upto(s, n) + 1,
    decreases n,
{
    if n > 0 {
        lemma_claimed_update(s, i, e, (n - 1) as nat);
    }
}

/// Every value word is an ordinary value or empty: no slot is primed and none forwards
/// to another chunk.
pub open spec fn quiet(s: Seq<EntryTemplate>) -> bool {
    forall|i: int|
        0 <= i < s.len() ==> {
            ||| spec_parse((#[trigger] s[i]).1) is Val
            ||| s[i].1 == 0
        }
}

/// Writing an entry into a slot changes nothing for a key that is neither the entry's
/// nor had its value in that slot.
pub proof fn lemma_find_other<H: WordHasher>(
    s: Seq<EntryTemplate>,
    i: int,
    e: EntryTemplate,
    k2: usize,
)
    requires
        wf_slots::<H>(s),
        wf_slots::<H>(s.update(i, e)),
        0 <= i < s.len(),
        k2 != e.0 || e.1 == 0,
        s[i].0 != k2 || s[i].1 == 0,
    ensures
        find_slot(s.update(i, e), k2) == find_slot(s, k2),
        find_slot(s, k2) != Some(i),
        raw_of(s.update(i, e), k2) == raw_of(s, k2),
{
    let n = s.update(i, e);
    assert forall|j: int| holds(n, j, k2) == holds(s, j, k2) by {}
    if exists|j: int| holds(s, j, k2) {
        let j = choose|j: int| holds(s, j, k2);
        assert(holds(n, j, k2));
        lemma_found::<H>(s, k2, j);
        lemma_found::<H>(n, k2, j);
    } else {
        assert forall|j: int| !holds(n, j, k2) by {
            assert(!holds(s, j, k2));
        }
    }
}

/// After an entry with a value has been written into a slot, the entry's key is found
/// there.
pub proof fn lemma_find_written<H: WordHasher>(s: Seq<EntryTemplate>, i: int, e: EntryTemplate)
    requires
        wf_slots::<H>(s.update(i, e)),
        0 <= i < s.len(),
        e.1 != 0,
    ensures
        find_slot(s.update(i, e), e.0) == Some(i),
        raw_of(s.update(i, e), e.0) == e.1,
{
    let n = s.update(i, e);
    assert(holds(n, i, e.0));
    lemma_found::<H>(n, e.0, i);
}

/// After the value of a key has been taken out of its slot, the key has no value.
pub proof fn lemma_find_erased<H: WordHasher>(s: Seq<EntryTemplate>, i: int, key: usize)
    requires
        wf_slots::<H>(s),
        holds(s, i, key),
    ensures
        find_slot(s.update(i, EntryTemplate(key, 0)), key) is None,
        raw_of(s.update(i, EntryTemplate(key, 0)), key) == 0,
{
    let n = s.update(i, EntryTemplate(key, 0));
    assert forall|j: int| !holds(n, j, key) by {
        if holds(n, j, key) {
            assert(j != i);
            assert(s[j].0 == s[i].0);
        }
    }
}

/// The change claims a slot: it puts a value for a key that has none, or that it has
/// just taken the value from, and a slot is left to claim.
pub open spec fn claims(s: Seq<EntryTemplate>, key: usize, kind: ModKind) -> bool {
    &&& key != EMPTY_KEY
    &&& has_free(s)
    &&& match kind {
        ModKind::Insert(_) => raw_of(s, key) == 0 || spec_parse(raw_of(s, key)).payload() is Some,
        ModKind::AttemptInsert(_) => raw_of(s, key) == 0,
        ModKind::Sentinel => raw_of(s, key) == 0,
        ModKind::Empty => false,
    }
}

/// The value word that a reader finds for `key` after the change.
pub open spec fn raw_after(s: Seq<EntryTemplate>, key: usize, kind: ModKind) -> usize {
    let r = raw_of(s, key);
    if r != 0 && spec_parse(r).payload() is None {
        r
    } else if claims(s, key, kind) {
        match kind {
            ModKind::Insert(val) => val,
            ModKind::AttemptInsert(val) => val,
            _ => SENTINEL_VALUE,
        }
    } else {
        match kind {
            ModKind::AttemptInsert(_) => r,
            ModKind::Sentinel => if r != 0 {
                SENTINEL_VALUE
            } else {
                0
            },
            _ => 0,
        }
    }
}

/// The outcome of the change.
pub open spec fn result_after(
    s: Seq<EntryTemplate>,
    base: usize,
    key: usize,
    kind: ModKind,
    index: int,
) -> ModResult {
    let r = raw_of(s, key);
    if r != 0 {
        match spec_parse(r).payload() {
            None => ModResult::Sentinel,
            Some(v) => match kind {
                ModKind::Sentinel => ModResult::Done(spec_entry_addr(base, index) as usize),
                ModKind::Empty => ModResult::Replaced(v),
                ModKind::AttemptInsert(_) => ModResult::Fail(v),
                ModKind::Insert(_) => if has_free(s) {
                    ModResult::Replaced(v)
                } else {
                    ModResult::TableFull
                },
            },
        }
    } else if key != EMPTY_KEY && has_free(s) {
        match kind {
            ModKind::Empty => ModResult::Fail(0),
            _ => ModResult::Done(spec_entry_addr(base, index) as usize),
        }
    } else {
        exhausted(kind)
    }
}

/// A change to the entry of one key changes what a reader finds for no other key.
pub proof fn lemma_modify_others<V, A: Attachment<V>, H: WordHasher>(
    pre: Chunk<V, A, H>,
    post: Chunk<V, A, H>,
    key: usize,
    kind: ModKind,
    attach_val: Option<V>,
    out: ModOutput,
    k2: usize,
)
    requires
        pre.wf(),
        post.wf(),
        modify_post(pre, post, key, kind, attach_val, out),
        k2 != key,
    ensures
        find_slot(post.slots(), k2) == find_slot(pre.slots(), k2),
        raw_of(post.slots(), k2) == raw_of(pre.slots(), k2),
        post.lookup(k2) == pre.lookup(k2),
{
    let s = pre.slots();
    let n = post.slots();
    let f = out.index as int;
    match find_slot(s, key) {
        Some(i) => {
            assert(holds(s, i, key));
            let erased = s.update(i, EntryTemplate(key, 0));
            if n == s {
            } else if n == erased {
                lemma_find_other::<H>(s, i, EntryTemplate(key, 0), k2);
            } else if n == s.update(i, EntryTemplate(key, SENTINEL_VALUE)) {
                lemma_find_other::<H>(s, i, EntryTemplate(key, SENTINEL_VALUE), k2);
            } else {
                assert(kind is Insert);
                let val = kind->Insert_0;
                assert(n == erased.update(f, EntryTemplate(key, val)));
                lemma_update_value::<H>(s, i, 0);
                lemma_find_other::<H>(s, i, EntryTemplate(key, 0), k2);
                assert(s[f].1 == 0);
                lemma_find_other::<H>(erased, f, EntryTemplate(key, val), k2);
            }
        },
        None => {
            if n == s {
            } else {
                assert(free_at(s, pre.home(key), f));
                assert(s[f].1 == 0);
                let e = n[f];
                assert(n == s.update(f, e));
                lemma_find_other::<H>(s, f, e, k2);
            }
        },
    }
    match find_slot(s, k2) {
        Some(j) => {
            assert(holds(n, j, k2));
            assert(post.attachment.value_at(j) == pre.attachment.value_at(j));
        },
        None => {},
    }
}

/// What a reader finds for the key of a change after the change, and how the change
/// ends.
pub proof fn lemma_modify_key<V, A: Attachment<V>, H: WordHasher>(
    pre: Chunk<V, A, H>,
    post: Chunk<V, A, H>,
    key: usize,
    kind: ModKind,
    attach_val: Option<V>,
    out: ModOutput,
)
    requires
        pre.wf(),
        post.wf(),
        modify_post(pre, post, key, kind, attach_val, out),
    ensures
        raw_of(post.slots(), key) == raw_after(pre.slots(), key, kind),
        out.result == result_after(pre.slots(), pre.base, key, kind, out.index as int),
        claims(pre.slots(), key, kind) && raw_of(post.slots(), key) != 0 ==> find_slot(
            post.slots(),
            key,
        ) == Some(out.index as int) && if kind is Sentinel {
            same_attachments(pre.attachment, post.attachment)
        } else {
            attachment_set(pre.attachment, post.attachment, out.index as int, attach_val)
        },
        !claims(pre.slots(), key, kind) && raw_of(post.slots(), key) != 0 ==> find_slot(
            post.slots(),
            key,
        ) == find_slot(pre.slots(), key) && same_attachments(pre.attachment, post.attachment),
        claimed(post.slots()) == claimed(pre.slots()) + if claims(pre.slots(), key, kind) {
            1nat
        } else {
            0nat
        },
{
    let s = pre.slots();
    let n = post.slots();
    let f = out.index as int;
    crate::value::lemma_sentinel_word();
    match find_slot(s, key) {
        Some(i) => {
            assert(holds(s, i, key));
            lemma_found::<H>(s, key, i);
            let erased = s.update(i, EntryTemplate(key, 0));
            match spec_parse(s[i].1).payload() {
                None => {},
                Some(v) => match kind {
                    ModKind::Sentinel => {
                        lemma_find_written::<H>(s, i, EntryTemplate(key, SENTINEL_VALUE));
                        lemma_claimed_update(s, i, EntryTemplate(key, SENTINEL_VALUE), s.len());
                    },
                    ModKind::Empty => {
                        lemma_find_erased::<H>(s, i, key);
                        lemma_claimed_update(s, i, EntryTemplate(key, 0), s.len());
                    },
                    ModKind::AttemptInsert(_) => {},
                    ModKind::Insert(val) => {
                        lemma_find_erased::<H>(s, i, key);
                        lemma_claimed_update(s, i, EntryTemplate(key, 0), s.len());
                        if has_free(s) {
                            assert(s[f].0 == EMPTY_KEY);
                            lemma_claimed_update(erased, f, EntryTemplate(key, val), s.len());
                            if val != 0 {
                                lemma_find_written::<H>(erased, f, EntryTemplate(key, val));
                            } else {
                                lemma_update_value::<H>(s, i, 0);
                                lemma_find_other::<H>(erased, f, EntryTemplate(key, val), key);
                            }
                        }
                    },
                },
            }
        },
        None => {
            if key != EMPTY_KEY && has_free(s) {
                assert(s[f].0 == EMPTY_KEY);
                assert(s[f].1 == 0);
                match kind {
                    ModKind::Empty => {},
                    _ => {
                        let e = n[f];
                        assert(n == s.update(f, e));
                        lemma_claimed_update(s, f, e, s.len());
                        if e.1 != 0 {
                            lemma_find_written::<H>(s, f, e);
                        } else {
                            lemma_find_other::<H>(s, f, e, key);
                        }
                    },
                }
            }
        },
    }
}

/// What a reader finds for `key` in the chunk `c` if it looks at the first `n` slots
/// only.
pub open spec fn lookup_upto<V, A: Attachment<V>, H: WordHasher>(
    c: Chunk<V, A, H>,
    n: int,
    key: usize,
) -> Option<(usize, V)> {
    match find_slot(c.slots(), key) {
        Some(i) => if i < n {
            c.lookup(key)
        } else {
            None
        },
        None => None,
    }
}

/// The list of the entries of the first `n` slots names each key that a reader finds
/// there once, with what the reader finds for it.
pub proof fn lemma_entries_upto<V, A: Attachment<V>, H: WordHasher>(c: Chunk<V, A, H>, n: nat)
    requires
        c.wf(),
        n <= c.slots().len(),
    ensures
        c.entries_upto(n).len() == live_upto(c.slots(), n),
        forall|j: int|
            0 <= j < c.entries_upto(n).len() ==> lookup_upto(
                c,
                n as int,
                (#[trigger] c.entries_upto(n)[j]).0,
            ) == Some((c.entries_upto(n)[j].1, c.entries_upto(n)[j].2)),
        forall|k: usize| #[trigger]
            lookup_upto(c, n as int, k) is Some ==> exists|j: int|
                0 <= j < c.entries_upto(n).len() && (#[trigger] c.entries_upto(n)[j]).0 == k,
        forall|j1: int, j2: int|
            0 <= j1 < j2 < c.entries_upto(n).len() ==> (#[trigger] c.entries_upto(n)[j1]).0 != (
            #[trigger] c.entries_upto(n)[j2]).0,
    decreases n,
{
    if n > 0 {
        let m = (n - 1) as nat;
        lemma_entries_upto(c, m);
        let s = c.slots();
        let rest = c.entries_upto(m);
        let all = c.entries_upto(n);
        let e = s[n - 1];
        match (spec_parse(e.1).payload(), c.attachment.value_at(n - 1)) {
            (Some(v), Some(a)) => {
                assert(spec_parse(0) == ParsedValue::Empty);
                assert(holds(s, n - 1, e.0));
                lemma_found::<H>(s, e.0, n - 1);
                assert(all == rest.push((e.0, v, a)));
                assert forall|j: int| 0 <= j < all.len() implies lookup_upto(
                    c,
                    n as int,
                    (#[trigger] all[j]).0,
                ) == Some((all[j].1, all[j].2)) by {
                    if j < rest.len() {
                        assert(all[j] == rest[j]);
                        assert(lookup_upto(c, m as int, rest[j].0) is Some);
                    }
                }
                assert forall|k: usize| #[trigger]
                    lookup_upto(c, n as int, k) is Some implies exists|j: int|
                    0 <= j < all.len() && (#[trigger] all[j]).0 == k by {
                    if find_slot(s, k) == Some(n - 1) {
                        assert(holds(s, n - 1, k));
                        assert(all[all.len() - 1].0 == k);
                    } else {
                        assert(lookup_upto(c, m as int, k) is Some);
                        let j = choose|j: int| 0 <= j < rest.len() && (#[trigger] rest[j]).0 == k;
                        assert(all[j] == rest[j]);
                    }
                }
                assert forall|j1: int, j2: int| 0 <= j1 < j2 < all.len() implies (
                #[trigger] all[j1]).0 != (#[trigger] all[j2]).0 by {
                    assert(all[j1] == rest[j1]);
                    if j2 < rest.len() {
                        assert(all[j2] == rest[j2]);
                    } else {
                        assert(lookup_upto(c, m as int, rest[j1].0) is Some);
                    }
                }
            },
            _ => {
                assert(all == rest);
                assert forall|k: usize| #[trigger]
                    lookup_upto(c, n as int, k) is Some implies exists|j: int|
                    0 <= j < all.len() && (#[trigger] all[j]).0 == k by {
                    if find_slot(s, k) == Some(n - 1) {
                        assert(holds(s, n - 1, k));
                    }
                    assert(lookup_upto(c, m as int, k) is Some);
                }
                assert forall|j: int| 0 <= j < all.len() implies lookup_upto(
                    c,
                    n as int,
                    (#[trigger] all[j]).0,
                ) == Some((all[j].1, all[j].2)) by {
                    assert(lookup_upto(c, m as int, rest[j].0) is Some);
                }
            },
        }
    }
}

/// What readers find after an entry has been handed over from one chunk to the next:
/// the key of an entry that moved is found in the new chunk with what it had in the old,
/// where it has a sentinel now; every other key is found as before in both chunks.
pub proof fn lemma_handed_over<V, A: Attachment<V>, H: WordHasher>(
    old_pre: Chunk<V, A, H>,
    new_pre: Chunk<V, A, H>,
    old_post: Chunk<V, A, H>,
    new_post: Chunk<V, A, H>,
    idx: int,
    moved_to: Option<usize>,
)
    requires
        old_pre.wf(),
        new_pre.wf(),
        old_post.wf(),
        new_post.wf(),
        0 <= idx < old_pre.slots().len(),
        handed_over(old_pre, new_pre, old_post, new_post, idx, moved_to),
    ensures
        moved_to is Some <==> spec_parse(old_pre.slots()[idx].1) is Val && raw_of(
            new_pre.slots(),
            old_pre.slots()[idx].0,
        ) == 0,
        moved_to is None ==> {
            &&& forall|k: usize| #[trigger] old_post.lookup(k) == old_pre.lookup(k)
            &&& forall|k: usize| #[trigger] new_post.lookup(k) == new_pre.lookup(k)
            &&& old_post.slots() == old_pre.slots()
            &&& new_post.slots() == new_pre.slots()
        },
        moved_to is Some ==> {
            let key = old_pre.slots()[idx].0;
            &&& find_slot(old_pre.slots(), key) == Some(idx)
            &&& new_post.lookup(key) == old_pre.lookup(key)
            &&& new_post.lookup(key) is Some
            &&& raw_of(new_post.slots(), key) == old_pre.slots()[idx].1
            &&& raw_of(old_post.slots(), key) == SENTINEL_VALUE
            &&& forall|k: usize|
                k != key ==> #[trigger] new_post.lookup(k) == new_pre.lookup(k) && raw_of(
                    new_post.slots(),
                    k,
                ) == raw_of(new_pre.slots(), k)
            &&& forall|k: usize|
                k != key ==> #[trigger] old_post.lookup(k) == old_pre.lookup(k) && raw_of(
                    old_post.slots(),
                    k,
                ) == raw_of(old_pre.slots(), k)
            &&& claimed(new_post.slots()) == claimed(new_pre.slots()) + 1
            &&& claimed(old_post.slots()) == claimed(old_pre.slots())
            &&& quiet(new_pre.slots()) ==> quiet(new_post.slots())
        },
{
    let s = old_pre.slots();
    let n = new_pre.slots();
    let e = s[idx];
    let key = e.0;
    crate::value::lemma_sentinel_word();
    assert(spec_parse(0) == ParsedValue::Empty);
    if moved_to is Some {
        let f = moved_to.unwrap() as int;
        let marked = old_post.slots();
        let n2 = new_post.slots();
        assert(holds(s, idx, key));
        lemma_found::<H>(s, key, idx);
        assert(n[f].1 == 0);
        lemma_find_written::<H>(n, f, e);
        lemma_find_written::<H>(s, idx, EntryTemplate(key, SENTINEL_VALUE));
        lemma_claimed_update(n, f, e, n.len());
        lemma_claimed_update(s, idx, EntryTemplate(key, SENTINEL_VALUE), s.len());
        assert forall|k: usize| k != key implies #[trigger] new_post.lookup(k) == new_pre.lookup(
            k,
        ) && raw_of(n2, k) == raw_of(n, k) by {
            lemma_find_other::<H>(n, f, e, k);
            match find_slot(n, k) {
                Some(j) => {
                    assert(holds(n, j, k));
                },
                None => {},
            }
        }
        assert forall|k: usize| k != key implies #[trigger] old_post.lookup(k) == old_pre.lookup(
            k,
        ) && raw_of(marked, k) == raw_of(s, k) by {
            lemma_find_other::<H>(s, idx, EntryTemplate(key, SENTINEL_VALUE), k);
            match find_slot(s, k) {
                Some(j) => {
                    assert(holds(s, j, k));
                },
                None => {},
            }
        }
        if quiet(n) {
            assert forall|j: int| 0 <= j < n2.len() implies (spec_parse((#[trigger] n2[j]).1) is Val
                || n2[j].1 == 0) by {
                if j != f {
                    assert(n2[j] == n[j]);
                }
            }
        }
    } else {
        assert forall|k: usize| #[trigger] old_post.lookup(k) == old_pre.lookup(k) by {}
        assert forall|k: usize| #[trigger] new_post.lookup(k) == new_pre.lookup(k) by {}
    }
}

/// The chunk `b` has for every key but `key` what the chunk `a` has for it.
pub open spec fn others_kept<V, A: Attachment<V>, H: WordHasher>(
    a: Chunk<V, A, H>,
    b: Chunk<V, A, H>,
    key: usize,
) -> bool {
    &&& forall|k: usize| k != key ==> #[trigger] b.lookup(k) == a.lookup(k)
    &&& forall|k: usize| k != key ==> #[trigger] raw_of(b.slots(), k) == raw_of(a.slots(), k)
}

/// A change to the entry of one key keeps what the chunk has for every other key.
pub proof fn lemma_others_kept<V, A: Attachment<V>, H: WordHasher>(
    pre: Chunk<V, A, H>,
    post: Chunk<V, A, H>,
    key: usize,
    kind: ModKind,
    attach_val: Option<V>,
    out: ModOutput,
)
    requires
        pre.wf(),
        post.wf(),
        modify_post(pre, post, key, kind, attach_val, out),
    ensures
        others_kept(pre, post, key),
{
    assert forall|k: usize| k != key implies #[trigger] post.lookup(k) == pre.lookup(k) by {
        lemma_modify_others(pre, post, key, kind, attach_val, out, k);
    }
    assert forall|k: usize| k != key implies #[trigger] raw_of(post.slots(), k) == raw_of(
        pre.slots(),
        k,
    ) by {
        lemma_modify_others(pre, post, key, kind, attach_val, out, k);
    }
}

} // verus!
