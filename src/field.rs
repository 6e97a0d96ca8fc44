//! Elements of the base field of the Edwards BLS12-377 curve.
//!
//! An element is held as its canonical integer in four little-endian 64-bit
//! limbs; the arithmetic itself is done by `snarkvm_fields` on the curve's
//! field type, and every operation is specified over integers modulo `modulus()`.
use snarkvm_curves::edwards_bls12::Fq;
use snarkvm_fields::{Field as FieldOps, PrimeField};
use snarkvm_utilities::biginteger::BigInteger256;
use vstd::prelude::*;

verus! {

/// The prime order of the base field.
pub open spec fn modulus() -> int {
    725501752471715841 + word() * (6461107452199829505 + word() * (6968279316240510977 + word()
        * 1345280370688173398))
}

pub open spec fn word() -> int {
    0x1_0000_0000_0000_0000
}

/// The integer `l0 + l1 * 2^64 + l2 * 2^128 + l3 * 2^192`.
#[verifier::opaque]
pub open spec fn limbs_value(l0: int, l1: int, l2: int, l3: int) -> int {
    l0 + word() * (l1 + word() * (l2 + word() * l3))
}

pub open spec fn fadd(a: int, b: int) -> int {
    (a + b) % modulus()
}

pub open spec fn fsub(a: int, b: int) -> int {
    (a - b) % modulus()
}

pub open spec fn fneg(a: int) -> int {
    (-a) % modulus()
}

pub open spec fn fmul(a: int, b: int) -> int {
    (a * b) % modulus()
}

/// `r` is a multiplicative inverse of `a` in the field.
pub open spec fn is_inverse(r: int, a: int) -> bool {
    0 <= r < modulus() && fmul(r, a) == 1
}

/// The inverse of `a`, or zero where `a` has none.
pub open spec fn finv(a: int) -> int {
    if exists|r: int| is_inverse(r, a) {
        choose|r: int| is_inverse(r, a)
    } else {
        0
    }
}

/// A field element `l0 + l1 * 2^64 + l2 * 2^128 + l3 * 2^192`.
#[derive(Clone, Copy, Debug, PartialEq, Eq)]
pub struct Fe {
    pub l0: u64,
    pub l1: u64,
    pub l2: u64,
    pub l3: u64,
}

impl Fe {
    pub open spec fn value(self) -> int {
        limbs_value(self.l0 as int, self.l1 as int, self.l2 as int, self.l3 as int)
    }

    /// The limbs are the canonical representative: below the modulus.
    pub open spec fn wf(self) -> bool {
        0 <= self.value() < modulus()
    }

    pub fn zero() -> (r: Fe)
        ensures
            r.wf(),
            r.value() == 0,
    {
        proof {
            reveal(limbs_value);
        }
        Fe { l0: 0, l1: 0, l2: 0, l3: 0 }
    }

    pub fn one() -> (r: Fe)
        ensures
            r.wf(),
            r.value() == 1,
    {
        proof {
            reveal(limbs_value);
        }
        Fe { l0: 1, l1: 0, l2: 0, l3: 0 }
    }

    /// Whether the element is zero.
    pub fn is_zero(&self) -> (r: bool)
        ensures
            r == (self.value() == 0),
    {
        proof {
            reveal(limbs_value);
            let w = word();
            let (a, b, c, d) = (self.l0 as int, self.l1 as int, self.l2 as int, self.l3 as int);
            assert(a + w * (b + w * (c + w * d)) == 0 ==> a == 0 && b == 0 && c == 0 && d == 0)
                by (nonlinear_arith)
                requires
                    w > 0,
                    a >= 0,
                    b >= 0,
                    c >= 0,
                    d >= 0,
            ;
        }
        self.l0 == 0 && self.l1 == 0 && self.l2 == 0 && self.l3 == 0
    }

    /// Whether two canonical elements are equal.
    pub fn equals(&self, o: &Fe) -> (r: bool)
        requires
            self.wf(),
            o.wf(),
        ensures
            r == (self.value() == o.value()),
    {
        let d = self.sub(o);
        proof {
            lemma_fsub_zero(self.value(), o.value());
        }
        d.is_zero()
    }

    /// Relies on `PrimeField::from_bigint`, which accepts exactly the integers
    /// below the modulus.
    #[verifier::external_body]
    fn is_canonical(limbs: [u64; 4]) -> (r: bool)
        ensures
            r == (Fe { l0: limbs[0], l1: limbs[1], l2: limbs[2], l3: limbs[3] }).wf(),
    {
        Fq::from_bigint(BigInteger256(limbs)).is_some()
    }

    /// The element with the given limbs, least significant first, where
    /// they encode an integer below the modulus.
    pub fn from_limbs(limbs: [u64; 4]) -> (r: Option<Fe>)
        ensures
            r.is_some() <==> (Fe { l0: limbs[0], l1: limbs[1], l2: limbs[2], l3: limbs[3] }).wf(),
            r.is_some() ==> r.unwrap() == (Fe { l0: limbs[0], l1: limbs[1], l2: limbs[2], l3: limbs[3] }),
    {
        if Fe::is_canonical(limbs) {
            Some(Fe { l0: limbs[0], l1: limbs[1], l2: limbs[2], l3: limbs[3] })
        } else {
            None
        }
    }

    /// The four limbs, least significant first.
    pub fn limbs(&self) -> (r: [u64; 4])
        ensures
            r[0] == self.l0 && r[1] == self.l1 && r[2] == self.l2 && r[3] == self.l3,
    {
        [self.l0, self.l1, self.l2, self.l3]
    }

    /// Relies on `Add` of `Fp256`: addition modulo the field's prime.
    #[verifier::external_body]
    pub(crate) fn add(&self, o: &Fe) -> (r: Fe)
        requires
            self.wf(),
            o.wf(),
        ensures
            r.wf(),
            r.value() == fadd(self.value(), o.value()),
    {
        let a = Fq::from_bigint(BigInteger256(self.limbs())).unwrap();
        let b = Fq::from_bigint(BigInteger256(o.limbs())).unwrap();
        let c = (a + b).to_bigint().0;
        Fe { l0: c[0], l1: c[1], l2: c[2], l3: c[3] }
    }

    /// Relies on `Sub` of `Fp256`: subtraction modulo the field's prime.
    #[verifier::external_body]
    pub(crate) fn sub(&self, o: &Fe) -> (r: Fe)
        requires
            self.wf(),
            o.wf(),
        ensures
            r.wf(),
            r.value() == fsub(self.value(), o.value()),
    {
        let a = Fq::from_bigint(BigInteger256(self.limbs())).unwrap();
        let b = Fq::from_bigint(BigInteger256(o.limbs())).unwrap();
        let c = (a - b).to_bigint().0;
        Fe { l0: c[0], l1: c[1], l2: c[2], l3: c[3] }
    }

    /// Relies on `Neg` of `Fp256`: negation modulo the field's prime.
    #[verifier::external_body]
    pub(crate) fn neg(&self) -> (r: Fe)
        requires
            self.wf(),
        ensures
            r.wf(),
            r.value() == fneg(self.value()),
    {
        let a = Fq::from_bigint(BigInteger256(self.limbs())).unwrap();
        let c = (-a).to_bigint().0;
        Fe { l0: c[0], l1: c[1], l2: c[2], l3: c[3] }
    }

    /// Relies on `Mul` of `Fp256`: multiplication modulo the field's prime.
    #[verifier::external_body]
    pub(crate) fn mul(&self, o: &Fe) -> (r: Fe)
        requires
            self.wf(),
            o.wf(),
        ensures
            r.wf(),
            r.value() == fmul(self.value(), o.value()),
    {
        let a = Fq::from_bigint(BigInteger256(self.limbs())).unwrap();
        let b = Fq::from_bigint(BigInteger256(o.limbs())).unwrap();
        let c = (a * b).to_bigint().0;
        Fe { l0: c[0], l1: c[1], l2: c[2], l3: c[3] }
    }

    /// Relies on `Field::inverse` of `Fp256`: `None` for zero, else the
    /// element whose product with `self` is one.
    #[verifier::external_body]
    fn inverse_raw(&self) -> (r: Option<Fe>)
        requires
            self.wf(),
        ensures
            r.is_none() <==> self.value() == 0,
            r.is_some() ==> r.unwrap().wf() && fmul(r.unwrap().value(), self.value()) == 1,
    {
        let a = Fq::from_bigint(BigInteger256(self.limbs())).unwrap();
        a.inverse().map(|i| {
            let c = i.to_bigint().0;
            Fe { l0: c[0], l1: c[1], l2: c[2], l3: c[3] }
        })
    }

    /// The inverse of `self`, or zero where `self` is zero.
    pub fn inverse_or_zero(&self) -> (r: Fe)
        requires
            self.wf(),
        ensures
            r.wf(),
            r.value() == finv(self.value()),
            self.value() != 0 ==> fmul(self.value(), r.value()) == 1,
    {
        match self.inverse_raw() {
            Some(i) => {
                proof {
                    lemma_finv_unique(i.value(), self.value());
                }
                i
            },
            None => {
                proof {
                    lemma_zero_has_no_inverse();
                }
                Fe::zero()
            },
        }
    }

    /// Relies on `Field::half` of `Fp256`: the inverse of two.
    #[verifier::external_body]
    pub(crate) fn half() -> (r: Fe)
        ensures
            r.wf(),
            fmul(r.value(), 2) == 1,
    {
        let c = Fq::half().to_bigint().0;
        Fe { l0: c[0], l1: c[1], l2: c[2], l3: c[3] }
    }
}

/// An inverse, where it exists, is the one that `finv` picks.
pub proof fn lemma_finv_unique(r: int, a: int)
    requires
        is_inverse(r, a),
    ensures
        finv(a) == r,
{
    let s = finv(a);
    assert(is_inverse(s, a));
    let p = modulus();
    // r == r * (s * a) == s * (r * a) == s, all modulo p
    vstd::arithmetic::div_mod::lemma_mul_mod_noop_right(r, s * a, p);
    vstd::arithmetic::div_mod::lemma_mul_mod_noop_right(s, r * a, p);
    assert(r * (s * a) == s * (r * a)) by (nonlinear_arith);
    vstd::arithmetic::div_mod::lemma_small_mod(r as nat, p as nat);
    vstd::arithmetic::div_mod::lemma_small_mod(s as nat, p as nat);
}

/// Canonical elements are equal exactly when their difference is zero.
pub proof fn lemma_fsub_zero(x: int, y: int)
    requires
        0 <= x < modulus(),
        0 <= y < modulus(),
    ensures
        (fsub(x, y) == 0) == (x == y),
{
    let p = modulus();
    if x >= y {
        vstd::arithmetic::div_mod::lemma_small_mod((x - y) as nat, p as nat);
    } else {
        vstd::arithmetic::div_mod::lemma_mod_add_multiples_vanish(x - y, p);
        vstd::arithmetic::div_mod::lemma_small_mod((x - y + p) as nat, p as nat);
    }
}

/// Multiplying by an element and then by its inverse gives back the start.
pub proof fn lemma_mul_inverse_cancels(n: int, d: int, i: int)
    requires
        0 <= n < modulus(),
        fmul(d, i) == 1,
    ensures
        fmul(fmul(n, i), d) == n,
{
    let p = modulus();
    vstd::arithmetic::div_mod::lemma_mul_mod_noop_left(n * i, d, p);
    vstd::arithmetic::div_mod::lemma_mul_mod_noop_right(n, d * i, p);
    assert(n * i * d == n * (d * i)) by (nonlinear_arith);
    vstd::arithmetic::div_mod::lemma_small_mod(n as nat, p as nat);
}

pub proof fn lemma_zero_has_no_inverse()
    ensures
        finv(0) == 0,
{
    assert forall|r: int| !is_inverse(r, 0) by {
        assert(r * 0 == 0);
    }
}

} // verus!
