use vstd::prelude::*;

verus! {

/// Key word of a slot that nobody has claimed.
pub const EMPTY_KEY: usize = 0;

/// Value word of a slot whose value has moved on to the next chunk.
pub const SENTINEL_VALUE: usize = 1;

/// All bits of a word but the most significant one: the bits a payload may use.
pub open spec fn spec_val_bit_mask() -> usize {
    !0usize >> 1
}

/// The most significant bit of a word, which marks a value as primed.
pub open spec fn spec_inv_bit_mask() -> usize {
    !(!0usize >> 1)
}

/// All bits of a word but the most significant one.
pub fn val_bit_mask() -> (m: usize)
    ensures
        m == spec_val_bit_mask(),
{
    !0usize >> 1
}

/// The most significant bit of a word.
pub fn inv_bit_mask() -> (m: usize)
    ensures
        m == spec_inv_bit_mask(),
{
    !(!0usize >> 1)
}

/// What a value word says about its slot.
#[derive(Debug, Clone, Copy, PartialEq, Eq, Structural)]
pub enum ParsedValue {
    /// An ordinary value with its payload.
    Val(usize),
    /// A value on its way into this chunk; the payload counts as present.
    Prime(usize),
    /// The value of this key lives in the next chunk.
    Sentinel,
    /// Nothing here: never written, or removed.
    Empty,
}

/// The meaning of the raw value word `raw`.
pub open spec fn spec_parse(raw: usize) -> ParsedValue {
    if raw == 0 {
        ParsedValue::Empty
    } else if raw & spec_inv_bit_mask() != 0 {
        ParsedValue::Prime(raw & spec_val_bit_mask())
    } else if raw == SENTINEL_VALUE {
        ParsedValue::Sentinel
    } else {
        ParsedValue::Val(raw)
    }
}

impl ParsedValue {
    /// The payload that a reader sees in a word of this meaning, if it sees one.
    pub open spec fn payload(self) -> Option<usize> {
        match self {
            ParsedValue::Val(v) => Some(v),
            ParsedValue::Prime(v) => Some(v),
            _ => None,
        }
    }

    /// The payload of an ordinary value.
    pub fn unwrap(&self) -> (v: usize)
        requires
            self is Val,
        ensures
            *self == ParsedValue::Val(v),
    {
        match self {
            ParsedValue::Val(v) => *v,
            _ => 0,
        }
    }
}

/// A value word as read from a slot, together with its meaning.
#[derive(Debug, Clone, Copy, PartialEq, Eq)]
pub struct Value {
    pub raw: usize,
    pub parsed: ParsedValue,
}

impl Value {
    /// The value word `val` with its meaning.
    pub fn new(val: usize) -> (res: Value)
        ensures
            res.raw == val,
            res.parsed == spec_parse(val),
    {
        let res = {
            if val == 0 {
                ParsedValue::Empty
            } else {
                let actual_val = val & val_bit_mask();
                let flag = val & inv_bit_mask();
                if flag != 0 {
                    ParsedValue::Prime(actual_val)
                } else if actual_val == 1 {
                    proof {
                        lemma_unflagged(val);
                    }
                    ParsedValue::Sentinel
                } else {
                    proof {
                        lemma_unflagged(val);
                    }
                    ParsedValue::Val(actual_val)
                }
            }
        };
        Value { raw: val, parsed: res }
    }
}

/// A word without the top bit is its own payload.
pub proof fn lemma_unflagged(raw: usize)
    requires
        raw & spec_inv_bit_mask() == 0,
    ensures
        raw & spec_val_bit_mask() == raw,
{
    assert(raw & !(!0usize >> 1) == 0 ==> raw & (!0usize >> 1) == raw) by (bit_vector);
}

/// Masking a word leaves a payload: the top bit is gone and the rest is kept.
pub proof fn lemma_masked(value: usize)
    ensures
        (value & spec_val_bit_mask()) & spec_inv_bit_mask() == 0,
        (value & spec_val_bit_mask()) & spec_val_bit_mask() == value & spec_val_bit_mask(),
{
    assert((value & (!0usize >> 1)) & !(!0usize >> 1) == 0) by (bit_vector);
    assert((value & (!0usize >> 1)) & (!0usize >> 1) == value & (!0usize >> 1)) by (bit_vector);
}

/// Priming an unflagged, non-zero word sets the top bit and keeps the payload, and
/// stripping gives the word back.
pub proof fn lemma_primed(raw: usize)
    requires
        raw & spec_inv_bit_mask() == 0,
    ensures
        (raw | spec_inv_bit_mask()) != 0,
        (raw | spec_inv_bit_mask()) & spec_inv_bit_mask() != 0,
        (raw | spec_inv_bit_mask()) & spec_val_bit_mask() == raw,
{
    assert(raw & !(!0usize >> 1) == 0 ==> (raw | !(!0usize >> 1)) != 0 && (raw | !(!0usize >> 1))
        & !(!0usize >> 1) != 0 && (raw | !(!0usize >> 1)) & (!0usize >> 1) == raw)
        by (bit_vector);
}

/// The sentinel word means that the value lives elsewhere, and carries no payload.
pub proof fn lemma_sentinel_word()
    ensures
        spec_parse(SENTINEL_VALUE) == ParsedValue::Sentinel,
{
    assert(1usize & !(!0usize >> 1) == 0) by (bit_vector);
}

} // verus!
