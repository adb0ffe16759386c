//! The one-word value encoding.
//!
//! A value is a single `u64` machine word.  Bit 0 is the sole discriminator:
//! an *immediate* has bit 0 set and carries a 63-bit signed integer in its
//! upper bits; a *pointer* has bit 0 clear and addresses a heap block.
//! A raw callback result additionally uses bit 1: a word with low bits `10`
//! marks an exception result whose payload is recovered by clearing the two
//! low bits.

use vstd::prelude::*;

verus! {

/// The `()` value: the immediate for 0.
pub const UNIT: u64 = 1;

/// The empty list value: the immediate for 0.
pub const EMPTY_LIST: u64 = 1;

/// The `true` value: the immediate for 1.
pub const TRUE: u64 = 3;

/// The `false` value: the immediate for 0.
pub const FALSE: u64 = 1;

/// Smallest integer an immediate can carry.
pub const MIN_INT: i64 = -0x4000_0000_0000_0000;

/// Largest integer an immediate can carry.
pub const MAX_INT: i64 = 0x3FFF_FFFF_FFFF_FFFF;

/// The word that encodes the integer `i`: `i` shifted left once, low bit set.
pub open spec fn spec_val_int(i: i64) -> u64 {
    (((i as u64) << 1) | 1) as u64
}

/// The integer an immediate word carries: the word shifted right once,
/// keeping the sign.
pub open spec fn spec_int_val(w: u64) -> i64 {
    ((w as i64) >> 1) as i64
}

/// Does the word have bit 0 set (an immediate)?
pub open spec fn spec_is_long(w: u64) -> bool {
    w & 1 == 1
}

/// Does the word have bit 0 clear (a block pointer)?
pub open spec fn spec_is_block(w: u64) -> bool {
    w & 1 == 0
}

/// Do the two low bits mark an exception result?
pub open spec fn spec_is_exception_result(w: u64) -> bool {
    w & 3 == 2
}

/// The payload of an exception result: the word with its two low bits cleared.
pub open spec fn spec_extract_exception(w: u64) -> u64 {
    w & !3
}

/// The word that marks `w` as an exception result.
pub open spec fn spec_make_exception_result(w: u64) -> u64 {
    w | 2
}

/// Encode the integer `i` as an immediate word.
pub fn val_int(i: i64) -> (w: u64)
    ensures
        w == spec_val_int(i),
{
    ((i as u64) << 1) | 1
}

/// Decode the integer an immediate word carries.
pub fn int_val(w: u64) -> (i: i64)
    ensures
        i == spec_int_val(w),
{
    (w as i64) >> 1
}

/// True when the word is a block pointer.
pub fn is_block(v: u64) -> (b: bool)
    ensures
        b == spec_is_block(v),
{
    (v & 1) == 0
}

/// True when the word is an immediate.
pub fn is_long(v: u64) -> (b: bool)
    ensures
        b == spec_is_long(v),
{
    (v & 1) == 1
}

/// True when a raw callback result word marks a raised exception.
pub fn is_exception_result(val: u64) -> (b: bool)
    ensures
        b == spec_is_exception_result(val),
{
    (val & 3) == 2
}

/// Recover the raised value from an exception result word.
pub fn extract_exception(val: u64) -> (w: u64)
    ensures
        w == spec_extract_exception(val),
{
    val & !3
}

/// Mark a word as an exception result.
pub fn make_exception_result(val: u64) -> (w: u64)
    ensures
        w == spec_make_exception_result(val),
{
    val | 2
}

/// Encoding an integer always yields an immediate.
pub proof fn lemma_val_int_is_long(i: i64)
    ensures
        spec_is_long(spec_val_int(i)),
        !spec_is_block(spec_val_int(i)),
{
    assert((((i as u64) << 1) | 1) & 1 == 1) by (bit_vector);
}

/// Decoding the encoding of an integer in the representable range gives the
/// integer back, and the decoded integer always lies in that range.
pub proof fn lemma_int_round_trip(i: i64)
    requires
        MIN_INT <= i <= MAX_INT,
    ensures
        spec_int_val(spec_val_int(i)) == i,
{
    assert(((((((i as u64) << 1) | 1) as u64) as i64) >> 1) as i64 == i) by (bit_vector)
        requires
            -0x4000_0000_0000_0000 <= i <= 0x3FFF_FFFF_FFFF_FFFF,
    ;
}

/// An immediate word is never classified as an exception result.
pub proof fn lemma_long_not_exception(w: u64)
    requires
        spec_is_long(w),
    ensures
        !spec_is_exception_result(w),
{
    assert(w & 1 == 1 ==> w & 3 != 2) by (bit_vector);
}

} // verus!
