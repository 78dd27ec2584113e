//! The prime field the circuits are defined over.
//!
//! Arithmetic is exact modular arithmetic modulo the fixed 64-bit prime
//! `FIELD_MODULUS` (2^64 - 2^32 + 1). An element carries its residue as a
//! plain `u64`; every constructor and operation returns a fully reduced
//! value, and every contract speaks of the mathematical residue through
//! [`FieldElement::value`].

use vstd::prelude::*;
use vstd::arithmetic::div_mod::{lemma_mod_bound, lemma_mul_mod_noop_general};

verus! {

/// The field modulus: the prime 2^64 - 2^32 + 1.
pub const FIELD_MODULUS: u64 = 0xFFFF_FFFF_0000_0001;

/// The modulus as a mathematical integer, for use in specifications.
pub open spec fn modulus() -> nat {
    FIELD_MODULUS as nat
}

/// An element of the prime field, carrying its residue as a machine word.
#[derive(Clone, Copy, PartialEq, Eq, Structural, Debug)]
pub struct FieldElement(pub u64);

/// Addition of residues, in the mathematics of the field.
pub open spec fn f_add(a: nat, b: nat) -> nat {
    (a + b) % modulus()
}

/// Multiplication of residues, in the mathematics of the field.
pub open spec fn f_mul(a: nat, b: nat) -> nat {
    (a * b) % modulus()
}

/// Negation of a residue, in the mathematics of the field.
pub open spec fn f_neg(a: nat) -> nat {
    ((modulus() as int - (a % modulus()) as int) % (modulus() as int)) as nat
}

impl FieldElement {
    /// The residue this element stands for.
    pub open spec fn value(self) -> nat {
        self.0 as nat
    }

    /// The additive identity.
    pub fn zero() -> (r: FieldElement)
        ensures
            r.value() == 0,
    {
        FieldElement(0)
    }

    /// The multiplicative identity.
    pub fn one() -> (r: FieldElement)
        ensures
            r.value() == 1,
    {
        FieldElement(1)
    }

    /// The element standing for `x`, reduced modulo the field prime.
    pub fn from_u64(x: u64) -> (r: FieldElement)
        ensures
            r.value() == x as nat % modulus(),
    {
        FieldElement(x % FIELD_MODULUS)
    }

    /// The residue as a machine integer (every residue fits in 64 bits).
    pub fn to_u64(self) -> (r: u64)
        ensures
            r as nat == self.value(),
    {
        self.0
    }

    /// Whether the carried residue is the integer zero.
    pub fn is_zero(self) -> (r: bool)
        ensures
            r == (self.value() == 0),
    {
        self.0 == 0
    }

    /// Field addition.
    pub fn add(self, other: FieldElement) -> (r: FieldElement)
        ensures
            r.value() == f_add(self.value(), other.value()),
    {
        let s: u128 = self.0 as u128 + other.0 as u128;
        let m: u128 = s % (FIELD_MODULUS as u128);
        proof {
            lemma_mod_bound(s as int, FIELD_MODULUS as int);
        }
        FieldElement(m as u64)
    }

    /// Field multiplication.
    pub fn mul(self, other: FieldElement) -> (r: FieldElement)
        ensures
            r.value() == f_mul(self.value(), other.value()),
    {
        proof {
            let x = self.0 as int;
            let y = other.0 as int;
            assert(x * y < 0x1_0000_0000_0000_0000_0000_0000_0000_0000) by (nonlinear_arith)
                requires
                    0 <= x < 0x1_0000_0000_0000_0000,
                    0 <= y < 0x1_0000_0000_0000_0000,
            ;
        }
        let p: u128 = self.0 as u128 * other.0 as u128;
        let m: u128 = p % (FIELD_MODULUS as u128);
        proof {
            lemma_mod_bound(p as int, FIELD_MODULUS as int);
        }
        FieldElement(m as u64)
    }

    /// Field negation.
    pub fn neg(self) -> (r: FieldElement)
        ensures
            r.value() == f_neg(self.value()),
    {
        let x: u64 = self.0 % FIELD_MODULUS;
        if x == 0 {
            proof {
                vstd::arithmetic::div_mod::lemma_mod_self_0(FIELD_MODULUS as int);
            }
            FieldElement(0)
        } else {
            proof {
                vstd::arithmetic::div_mod::lemma_small_mod(
                    (FIELD_MODULUS - x) as nat,
                    modulus(),
                );
            }
            FieldElement(FIELD_MODULUS - x)
        }
    }

    /// Field subtraction.
    pub fn sub(self, other: FieldElement) -> (r: FieldElement)
        ensures
            r.value() == f_add(self.value(), f_neg(other.value())),
    {
        self.add(other.neg())
    }

    /// A multiplicative inverse, if one is found.
    ///
    /// The candidate is computed by exponentiation and then checked by an
    /// actual multiplication, so the contract only promises that a returned
    /// element really is an inverse.
    pub fn inverse(self) -> (r: Option<FieldElement>)
        ensures
            r matches Some(i) ==> f_mul(self.value(), i.value()) == 1,
    {
        // self^(FIELD_MODULUS - 2) by square and multiply.
        let mut exponent: u64 = FIELD_MODULUS - 2;
        let mut base: FieldElement = self;
        let mut acc: FieldElement = FieldElement(1);
        while exponent != 0
            decreases exponent,
        {
            if exponent % 2 == 1 {
                acc = acc.mul(base);
            }
            base = base.mul(base);
            exponent = exponent / 2;
        }
        let check = self.mul(acc);
        if check.0 == 1 {
            Some(acc)
        } else {
            None
        }
    }
}

/// Multiplying by a reduced factor gives the same residue as multiplying by
/// the original: `(a % m) * b` and `a * b` agree modulo `m`.
pub proof fn lemma_f_mul_congruent_left(a: nat, b: nat)
    ensures
        f_mul(a % modulus(), b) == f_mul(a, b),
{
    lemma_mul_mod_noop_general(a as int, b as int, modulus() as int);
}

} // verus!
