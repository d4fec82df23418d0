use vstd::arithmetic::power2::is_pow2;
use vstd::layout::size_of;
use vstd::prelude::*;

verus! {

/// Whether `x` has exactly one bit set, that is, whether it is 1, 2, 4, 8, ...
pub open spec fn spec_is_power_of_2(x: usize) -> bool {
    x != 0 && x & ((x - 1) as usize) == 0
}

/// A word has exactly one bit set if and only if it is two to some power.
pub proof fn lemma_one_bit_is_pow2(x: usize)
    ensures
        spec_is_power_of_2(x) <==> is_pow2(x as int),
    decreases x,
{
    reveal(is_pow2);
    if x >= 2 {
        let h = x / 2;
        assert(x >= 2 ==> ((x & ((x - 1) as usize) == 0) <==> (x % 2 == 0 && (x / 2) & ((x / 2
            - 1) as usize) == 0))) by (bit_vector);
        lemma_one_bit_is_pow2(h);
    } else if x == 1 {
        assert(1usize & ((1 - 1) as usize) == 0) by (bit_vector);
    }
}

/// Tells whether `x` is a power of two.
pub fn is_power_of_2(x: usize) -> (r: bool)
    ensures
        r == spec_is_power_of_2(x),
        r == is_pow2(x as int),
{
    proof {
        lemma_one_bit_is_pow2(x);
    }
    (x != 0) && ((x & (x - 1)) == 0)
}

/// Masking with a capacity less one gives an index below the capacity.
pub proof fn lemma_mask_below(x: usize, c: usize)
    requires
        c != 0,
    ensures
        x & ((c - 1) as usize) < c,
{
    assert(c != 0 ==> x & ((c - 1) as usize) < c) by (bit_vector);
}

/// Under the mask of a power of two, the index after the last one is zero, and every
/// index below the capacity is kept.
pub proof fn lemma_mask_step(i: usize, c: usize)
    requires
        spec_is_power_of_2(c),
        i < c,
    ensures
        ((i + 1) as usize) & ((c - 1) as usize) == (if i + 1 == c { 0 } else { i + 1 }),
        i & ((c - 1) as usize) == i,
{
    assert(c != 0 && c & ((c - 1) as usize) == 0 && i < c ==> (((i + 1) as usize) & ((c - 1) as usize)
        == (if (i + 1) as usize == c { 0usize } else { (i + 1) as usize }))) by (bit_vector);
    assert(c != 0 && c & ((c - 1) as usize) == 0 && i < c ==> i & ((c - 1) as usize) == i) by (bit_vector);
}

/// A power of two shifted left by one or by four bits, none of which is lost, is a power
/// of two again: twice or sixteen times the first.
pub proof fn lemma_shift_is_power_of_2(c: usize, s: usize)
    requires
        spec_is_power_of_2(c),
        s == 1 || s == 4,
        (c << s) >> s == c,
    ensures
        spec_is_power_of_2(c << s),
        s == 1 ==> (c << s) == 2 * c,
        s == 4 ==> (c << s) == 16 * c,
{
    assert(c != 0 && c & ((c - 1) as usize) == 0 && (s == 1 || s == 4) && (c << s) >> s == c ==> {
        let d = c << s;
        d != 0 && d & ((d - 1) as usize) == 0
    }) by (bit_vector);
    assert((c << 1usize) >> 1usize == c ==> (c << 1usize) == 2 * c) by (bit_vector);
    assert((c << 4usize) >> 4usize == c ==> (c << 4usize) == 16 * c) by (bit_vector);
}

/// The bytes in front of a chunk's entry array that hold the chunk's own fields: one
/// cache line.
pub const CHUNK_HEADER_SIZE: usize = 64;

/// The number of claimed slots above which a chunk of `cap` entries is to grow: seven
/// tenths of `cap`, rounded down.
pub open spec fn spec_occupation_limit(cap: usize) -> int {
    (cap * 7) / 10
}

/// The number of claimed slots above which a chunk of `cap` entries is to grow.
pub fn occupation_limit(cap: usize) -> (limit: usize)
    ensures
        limit == spec_occupation_limit(cap),
        limit <= cap,
        cap > 0 ==> limit < cap,
{
    cap / 10 * 7 + (cap % 10) * 7 / 10
}

/// The bytes of one entry: a key word and a value word.
pub open spec fn spec_entry_size() -> int {
    2 * (size_of::<usize>() as int)
}

/// The bytes of one entry.
pub fn entry_size() -> (size: usize)
    ensures
        size == spec_entry_size(),
        size == 8 || size == 16,
{
    2 * core::mem::size_of::<usize>()
}

/// The bytes that the entry array of a chunk of `cap` entries takes up.
pub open spec fn spec_chunk_size_of(cap: usize) -> int {
    cap * spec_entry_size()
}

/// The bytes that the entry array of a chunk of `cap` entries takes up.
pub fn chunk_size_of(cap: usize) -> (size: usize)
    requires
        spec_chunk_size_of(cap) <= usize::MAX,
    ensures
        size == spec_chunk_size_of(cap),
{
    cap * entry_size()
}

/// The capacity of the chunk that takes over from one of capacity `cap`: sixteen times
/// as much while chunks are small, twice as much from 2048 entries on.
pub open spec fn spec_next_capacity(cap: usize) -> int {
    if cap < 2048 {
        cap * 16
    } else {
        cap * 2
    }
}

/// The capacity of the chunk that takes over from one of capacity `cap`.
pub fn next_capacity(cap: usize) -> (next: usize)
    requires
        spec_is_power_of_2(cap),
        spec_next_capacity(cap) <= usize::MAX,
    ensures
        next == spec_next_capacity(cap),
        spec_is_power_of_2(next),
{
    let mult: usize = if cap < 2048 {
        4
    } else {
        1
    };
    proof {
        vstd::arithmetic::power2::lemma2_to64();
        vstd::bits::lemma_usize_shl_is_mul(cap, mult);
        vstd::bits::lemma_usize_shr_is_div(cap << mult, mult);
        lemma_shift_is_power_of_2(cap, mult);
    }
    cap << mult
}

} // verus!
