//! Literal encoding: an internal literal is `2 * idx + sign`.
use vstd::prelude::*;

verus! {

pub const LD_MAX_VAR: u32 = 30;
pub const LD_MAX_LIT: u32 = 31;

/// External variables are signed 32-bit integers.
pub const EXTERNAL_MAX_VAR: i32 = 0x3fff_ffff;
pub const INTERNAL_MAX_VAR: u32 = 0x3fff_fffe;
pub const INTERNAL_MAX_LIT: u32 = 0x7fff_fffd;
pub const ILLEGAL_LIT: u32 = 0x7fff_ffff;
pub const INVALID_IDX: u32 = 0xffff_ffff;
pub const INVALID_LIT: u32 = 0xffff_ffff;

/// Whether `idx` is a valid internal variable index for `vars` variables.
pub fn valid_internal_index(idx: u32, vars: u32) -> (r: bool)
    ensures
        r == (idx < vars),
{
    idx < vars
}

/// Whether `lit` is a valid internal literal for `lits` literals.
pub fn valid_internal_literal(lit: u32, lits: u32) -> (r: bool)
    ensures
        r == (lit < lits),
{
    lit < lits
}

/// Whether `elit` is a valid external (DIMACS) literal.
pub fn valid_external_literal(elit: i32) -> (r: bool)
    ensures
        r == (elit != 0 && elit != i32::MIN && -EXTERNAL_MAX_VAR <= elit <= EXTERNAL_MAX_VAR),
{
    if elit == 0 || elit == i32::MIN {
        return false;
    }
    let a: i32 = if elit < 0 { -elit } else { elit };
    a <= EXTERNAL_MAX_VAR
}

/// The variable index of a literal.
pub fn idx(lit: u32) -> (r: u32)
    ensures
        r == lit / 2,
{
    proof {
        assert(lit >> 1u32 == lit / 2) by (bit_vector);
    }
    lit >> 1
}

/// The positive literal of a variable index (wrapping like the 32-bit shift).
pub fn lit(idx: u32) -> (r: u32)
    ensures
        r == (2 * idx) % 0x1_0000_0000,
        idx < 0x8000_0000 ==> r == 2 * idx,
{
    proof {
        assert((idx << 1u32) as int == (2 * idx) % 0x1_0000_0000) by (bit_vector);
    }
    idx << 1
}

/// The negation of a literal (flips the sign bit).
pub fn not(lit: u32) -> (r: u32)
    ensures
        r == spec_not(lit),
{
    proof {
        lemma_xor_one(lit);
    }
    lit ^ 1
}

/// The sign bit of a literal: 1 for a negated literal.
pub fn negated(lit: u32) -> (r: u32)
    ensures
        r == lit % 2,
{
    proof {
        assert(lit & 1u32 == lit % 2) by (bit_vector);
    }
    lit & 1
}

/// The positive literal of the same variable.
pub fn strip(lit: u32) -> (r: u32)
    ensures
        r == lit - lit % 2,
{
    proof {
        assert(lit & !1u32 == lit - lit % 2) by (bit_vector);
    }
    lit & !1u32
}

/// The literal of the same variable with the opposite sign.
pub open spec fn spec_not(lit: u32) -> u32 {
    if lit % 2 == 0 { (lit + 1) as u32 } else { (lit - 1) as u32 }
}

/// Xor with one flips the sign bit.
pub proof fn lemma_xor_one(lit: u32)
    ensures
        lit ^ 1u32 == spec_not(lit),
        (lit ^ 1u32) / 2 == lit / 2,
        (lit ^ 1u32) % 2 != lit % 2,
        (lit ^ 1u32) ^ 1u32 == lit,
{
    assert(lit ^ 1u32 == (if lit % 2 == 0 { (lit + 1) as u32 } else { (lit - 1) as u32 }))
        by (bit_vector);
    assert((lit ^ 1u32) ^ 1u32 == lit) by (bit_vector);
}

/// Negation is an involution that keeps the variable and flips the sign.
pub proof fn lemma_not_involution(lit: u32)
    ensures
        spec_not(spec_not(lit)) == lit,
        spec_not(lit) / 2 == lit / 2,
        spec_not(lit) != lit,
{
}

/// The sign bit of a literal is its remainder by two.
pub proof fn lemma_sign_bit(x: u32)
    by (bit_vector)
    ensures
        x & 1u32 == x % 2,
        x % 2 < 2,
{
}

/// Xor-ing twice with the same literal gives the other one back.
pub proof fn lemma_xor_cancel(a: u32, b: u32)
    by (bit_vector)
    ensures
        a ^ b ^ a == b,
        a ^ b ^ b == a,
{
}

} // verus!
