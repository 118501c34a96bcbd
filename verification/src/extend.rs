//! Entries of the extension stack used to reconstruct eliminated variables.
use vstd::prelude::*;

verus! {

/// An extension entry: a signed 31-bit literal and a `blocking` bit,
/// packed into one word (literal in bits 0..30, blocking in bit 31).
#[derive(Clone, Copy)]
pub struct Extension(pub u32);

impl Extension {
    /// The literal held in the low 31 bits, sign-extended.
    pub open spec fn spec_lit(self) -> int {
        let low = self.0 % 0x8000_0000;
        if low >= 0x4000_0000 { low - 0x8000_0000 } else { low as int }
    }

    /// The blocking bit.
    pub open spec fn spec_blocking(self) -> bool {
        self.0 >= 0x8000_0000
    }

    /// Packs a literal with `|lit| < 2^30` and a blocking bit.
    pub fn new(blocking: bool, lit: i32) -> (r: Extension)
        requires
            -0x4000_0000 < lit < 0x4000_0000,
        ensures
            r.spec_lit() == lit,
            r.spec_blocking() == blocking,
    {
        let low: u32 = if lit < 0 { (0x8000_0000i64 + lit as i64) as u32 } else { lit as u32 };
        let b: u32 = if blocking { 1 } else { 0 };
        let w: u32 = low | (b << 31u32);
        proof {
            assert((low | (b << 31u32)) % 0x8000_0000 == low) by (bit_vector)
                requires
                    low < 0x8000_0000,
                    b < 2,
            ;
            assert(((low | (b << 31u32)) >= 0x8000_0000) == (b == 1)) by (bit_vector)
                requires
                    low < 0x8000_0000,
                    b < 2,
            ;
        }
        Extension(w)
    }

    /// The sign-extended literal.
    pub fn lit(self) -> (r: i32)
        ensures
            r == self.spec_lit(),
    {
        let low: u32 = self.0 & 0x7fff_ffff;
        proof {
            let w = self.0;
            assert(w & 0x7fff_ffffu32 == w % 0x8000_0000) by (bit_vector);
        }
        if low >= 0x4000_0000 {
            (low as i64 - 0x8000_0000i64) as i32
        } else {
            low as i32
        }
    }

    /// The blocking bit.
    pub fn blocking(self) -> (r: bool)
        ensures
            r == self.spec_blocking(),
    {
        proof {
            let w = self.0;
            assert(((w >> 31u32) != 0) == (w >= 0x8000_0000)) by (bit_vector);
        }
        (self.0 >> 31) != 0
    }
}

} // verus!
