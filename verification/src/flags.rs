//! Per-variable flags packed into one 16-bit word.
use vstd::prelude::*;

verus! {

/// The flags of a variable: bit 0 active, 1 backbone0, 2 backbone1,
/// 3 eliminate, 4 eliminated, 5-6 the two-bit `factor` mask, 7 fixed,
/// 8 subsume, 9 sweep, 10 transitive.
#[derive(Clone, Copy, PartialEq, Eq, Structural)]
pub struct Flags(pub u16);

/// Bit `b` of a word.
pub open spec fn bit_of(w: u16, b: u16) -> bool {
    (w >> b) & 1u16 == 1u16
}

/// Sets bit `b` of `w` to `v`, leaving every other bit as it is.
fn set_bit(w: u16, b: u16, v: bool) -> (r: u16)
    requires
        b < 16,
    ensures
        bit_of(r, b) == v,
        forall|j: u16| j < 16 && j != b ==> bit_of(r, j) == bit_of(w, j),
{
    let x: u16 = if v { 1 } else { 0 };
    let r: u16 = (w & !(1u16 << b)) | (x << b);
    proof {
        assert(((((w & !(1u16 << b)) | (x << b)) >> b) & 1u16 == 1u16) == (x == 1u16)) by (bit_vector)
            requires
                b < 16,
                x == 0 || x == 1,
        ;
        assert forall|j: u16| j < 16 && j != b implies bit_of(r, j) == bit_of(w, j) by {
            assert((((((w & !(1u16 << b)) | (x << b)) >> j) & 1u16 == 1u16) == ((w >> j) & 1u16
                == 1u16))) by (bit_vector)
                requires
                    b < 16,
                    j < 16,
                    j != b,
                    x == 0 || x == 1,
            ;
        }
    }
    r
}

fn get_bit(w: u16, b: u16) -> (r: bool)
    requires
        b < 16,
    ensures
        r == bit_of(w, b),
{
    proof {
        assert((w & (1u16 << b) != 0) == ((w >> b) & 1u16 == 1u16)) by (bit_vector)
            requires
                b < 16,
        ;
    }
    w & (1u16 << b) != 0
}

impl Flags {
    /// The two-bit factor mask in bits 5 and 6.
    pub open spec fn factor_bits(self) -> u16 {
        (self.0 >> 5u16) & 3u16
    }

    pub fn active(&self) -> (r: bool)
        ensures
            r == bit_of(self.0, 0),
    {
        get_bit(self.0, 0)
    }

    pub fn set_active(&mut self, v: bool)
        ensures
            bit_of(final(self).0, 0) == v,
            forall|j: u16| j < 16 && j != 0 ==> bit_of(final(self).0, j) == bit_of(old(self).0, j),
    {
        self.0 = set_bit(self.0, 0, v);
    }

    pub fn backbone0(&self) -> (r: bool)
        ensures
            r == bit_of(self.0, 1),
    {
        get_bit(self.0, 1)
    }

    pub fn set_backbone0(&mut self, v: bool)
        ensures
            bit_of(final(self).0, 1) == v,
            forall|j: u16| j < 16 && j != 1 ==> bit_of(final(self).0, j) == bit_of(old(self).0, j),
    {
        self.0 = set_bit(self.0, 1, v);
    }

    pub fn backbone1(&self) -> (r: bool)
        ensures
            r == bit_of(self.0, 2),
    {
        get_bit(self.0, 2)
    }

    pub fn set_backbone1(&mut self, v: bool)
        ensures
            bit_of(final(self).0, 2) == v,
            forall|j: u16| j < 16 && j != 2 ==> bit_of(final(self).0, j) == bit_of(old(self).0, j),
    {
        self.0 = set_bit(self.0, 2, v);
    }

    pub fn eliminate(&self) -> (r: bool)
        ensures
            r == bit_of(self.0, 3),
    {
        get_bit(self.0, 3)
    }

    pub fn set_eliminate(&mut self, v: bool)
        ensures
            bit_of(final(self).0, 3) == v,
            forall|j: u16| j < 16 && j != 3 ==> bit_of(final(self).0, j) == bit_of(old(self).0, j),
    {
        self.0 = set_bit(self.0, 3, v);
    }

    pub fn eliminated(&self) -> (r: bool)
        ensures
            r == bit_of(self.0, 4),
    {
        get_bit(self.0, 4)
    }

    pub fn set_eliminated(&mut self, v: bool)
        ensures
            bit_of(final(self).0, 4) == v,
            forall|j: u16| j < 16 && j != 4 ==> bit_of(final(self).0, j) == bit_of(old(self).0, j),
    {
        self.0 = set_bit(self.0, 4, v);
    }

    pub fn fixed(&self) -> (r: bool)
        ensures
            r == bit_of(self.0, 7),
    {
        get_bit(self.0, 7)
    }

    pub fn set_fixed(&mut self, v: bool)
        ensures
            bit_of(final(self).0, 7) == v,
            forall|j: u16| j < 16 && j != 7 ==> bit_of(final(self).0, j) == bit_of(old(self).0, j),
    {
        self.0 = set_bit(self.0, 7, v);
    }

    pub fn subsume(&self) -> (r: bool)
        ensures
            r == bit_of(self.0, 8),
    {
        get_bit(self.0, 8)
    }

    pub fn set_subsume(&mut self, v: bool)
        ensures
            bit_of(final(self).0, 8) == v,
            forall|j: u16| j < 16 && j != 8 ==> bit_of(final(self).0, j) == bit_of(old(self).0, j),
    {
        self.0 = set_bit(self.0, 8, v);
    }

    pub fn sweep(&self) -> (r: bool)
        ensures
            r == bit_of(self.0, 9),
    {
        get_bit(self.0, 9)
    }

    pub fn set_sweep(&mut self, v: bool)
        ensures
            bit_of(final(self).0, 9) == v,
            forall|j: u16| j < 16 && j != 9 ==> bit_of(final(self).0, j) == bit_of(old(self).0, j),
    {
        self.0 = set_bit(self.0, 9, v);
    }

    pub fn transitive(&self) -> (r: bool)
        ensures
            r == bit_of(self.0, 10),
    {
        get_bit(self.0, 10)
    }

    pub fn set_transitive(&mut self, v: bool)
        ensures
            bit_of(final(self).0, 10) == v,
            forall|j: u16| j < 16 && j != 10 ==> bit_of(final(self).0, j) == bit_of(old(self).0, j),
    {
        self.0 = set_bit(self.0, 10, v);
    }

    /// The two-bit factor mask.
    pub fn factor(&self) -> (r: u8)
        ensures
            r as u16 == self.factor_bits(),
            r < 4,
    {
        let w = self.0;
        proof {
            assert((w >> 5u16) & 3u16 < 4) by (bit_vector);
        }
        ((w >> 5) & 3) as u8
    }

    /// Stores the low two bits of `v` as the factor mask.
    pub fn set_factor(&mut self, v: u8)
        ensures
            final(self).factor_bits() == (v % 4) as u16,
            forall|j: u16| j < 16 && j != 5 && j != 6 ==> bit_of(final(self).0, j) == bit_of(old(self).0, j),
    {
        let w = self.0;
        let x: u16 = (v & 3) as u16;
        let r: u16 = (w & !(3u16 << 5u16)) | (x << 5u16);
        proof {
            assert(v & 3u8 == v % 4) by (bit_vector);
            assert((((w & !(3u16 << 5u16)) | (x << 5u16)) >> 5u16) & 3u16 == x) by (bit_vector)
                requires
                    x < 4,
            ;
            assert forall|j: u16| j < 16 && j != 5 && j != 6 implies bit_of(r, j) == bit_of(w, j) by {
                assert((((((w & !(3u16 << 5u16)) | (x << 5u16)) >> j) & 1u16 == 1u16) == ((w >> j)
                    & 1u16 == 1u16))) by (bit_vector)
                    requires
                        j < 16,
                        j != 5,
                        j != 6,
                        x < 4,
                ;
            }
        }
        self.0 = r;
    }

    /// Ors `bits` into the factor mask.
    pub fn factor_or(&mut self, bits: u8)
        ensures
            final(self).factor_bits() == ((old(self).factor_bits() as u8 | bits) % 4) as u16,
            forall|j: u16| j < 16 && j != 5 && j != 6 ==> bit_of(final(self).0, j) == bit_of(old(self).0, j),
    {
        let f = self.factor();
        self.set_factor(f | bits);
    }

    /// Ands `bits` into the factor mask.
    pub fn factor_and(&mut self, bits: u8)
        ensures
            final(self).factor_bits() == ((old(self).factor_bits() as u8 & bits) % 4) as u16,
            forall|j: u16| j < 16 && j != 5 && j != 6 ==> bit_of(final(self).0, j) == bit_of(old(self).0, j),
    {
        let f = self.factor();
        self.set_factor(f & bits);
    }
}

} // verus!
