//! A constraint-system context and the circuit values built in it.
//!
//! The context is passed explicitly to every operation that may introduce a
//! variable or a constraint. It counts constant, public and private variables
//! and rank-one constraints `a * b == c`, and records whether every constraint
//! emitted so far holds of the assigned values.
use crate::field::{fadd, fmul, fneg, finv, fsub, Fe};
use vstd::prelude::*;

verus! {

/// The visibility of an injected variable.
#[derive(Clone, Copy, Debug, PartialEq, Eq, Structural)]
pub enum Mode {
    Constant,
    Public,
    Private,
}

/// A circuit field element: a linear combination whose assigned value is
/// `value`; `constant` holds where it involves no variable.
#[derive(Clone, Copy, Debug)]
pub struct Field {
    pub value: Fe,
    pub constant: bool,
}

/// A circuit boolean with its assigned value.
#[derive(Clone, Copy, Debug)]
pub struct Boolean {
    pub value: bool,
    pub constant: bool,
}

/// The constraint-system context.
#[derive(Clone, Copy, Debug)]
pub struct Circuit {
    pub num_constants: u64,
    pub num_public: u64,
    pub num_private: u64,
    pub num_constraints: u64,
    pub satisfied: bool,
}

impl Field {
    pub open spec fn wf(self) -> bool {
        self.value.wf()
    }

    pub open spec fn val(self) -> int {
        self.value.value()
    }

    pub fn constant(value: Fe) -> (r: Field)
        ensures
            r.value == value,
            r.constant,
    {
        Field { value, constant: true }
    }

    pub fn zero() -> (r: Field)
        ensures
            r.wf(),
            r.val() == 0,
            r.constant,
    {
        Field { value: Fe::zero(), constant: true }
    }

    pub fn one() -> (r: Field)
        ensures
            r.wf(),
            r.val() == 1,
            r.constant,
    {
        Field { value: Fe::one(), constant: true }
    }

    /// The field element 1 or 0 of a boolean; costs nothing.
    pub fn from_boolean(b: &Boolean) -> (r: Field)
        ensures
            r.wf(),
            r.val() == (if b.value { 1int } else { 0int }),
            r.constant == b.constant,
    {
        Field { value: if b.value { Fe::one() } else { Fe::zero() }, constant: b.constant }
    }

    /// Addition of linear combinations; costs nothing.
    pub fn plus(&self, o: &Field) -> (r: Field)
        requires
            self.wf(),
            o.wf(),
        ensures
            r.wf(),
            r.val() == fadd(self.val(), o.val()),
            r.constant == (self.constant && o.constant),
    {
        Field { value: self.value.add(&o.value), constant: self.constant && o.constant }
    }

    /// Subtraction of linear combinations; costs nothing.
    pub fn minus(&self, o: &Field) -> (r: Field)
        requires
            self.wf(),
            o.wf(),
        ensures
            r.wf(),
            r.val() == fsub(self.val(), o.val()),
            r.constant == (self.constant && o.constant),
    {
        Field { value: self.value.sub(&o.value), constant: self.constant && o.constant }
    }

    /// Negation of a linear combination; costs nothing.
    pub fn negated(&self) -> (r: Field)
        requires
            self.wf(),
        ensures
            r.wf(),
            r.val() == fneg(self.val()),
            r.constant == self.constant,
    {
        Field { value: self.value.neg(), constant: self.constant }
    }

    /// Multiplication by a known coefficient; costs nothing.
    pub fn scaled(&self, c: &Fe) -> (r: Field)
        requires
            self.wf(),
            c.wf(),
        ensures
            r.wf(),
            r.val() == fmul(self.val(), c.value()),
            r.constant == self.constant,
    {
        Field { value: self.value.mul(c), constant: self.constant }
    }
}

/// Products of zero and one in the field.
pub proof fn lemma_bit_products()
    ensures
        fmul(0, 0) == 0,
        fmul(0, 1) == 0,
        fmul(1, 0) == 0,
        fmul(1, 1) == 1,
{
    vstd::arithmetic::div_mod::lemma_small_mod(0, crate::field::modulus() as nat);
    vstd::arithmetic::div_mod::lemma_small_mod(1, crate::field::modulus() as nat);
}

impl Circuit {
    /// Every count can grow by `n` without overflow.
    pub open spec fn room(self, n: int) -> bool {
        &&& self.num_constants + n <= u64::MAX
        &&& self.num_public + n <= u64::MAX
        &&& self.num_private + n <= u64::MAX
        &&& self.num_constraints + n <= u64::MAX
    }

    /// The counts of `self` and `o` are the same.
    pub open spec fn same_counts(self, o: Circuit) -> bool {
        &&& self.num_constants == o.num_constants
        &&& self.num_public == o.num_public
        &&& self.num_private == o.num_private
        &&& self.num_constraints == o.num_constraints
    }

    /// An empty constraint system.
    pub fn new() -> (r: Circuit)
        ensures
            r.num_constants == 0,
            r.num_public == 0,
            r.num_private == 0,
            r.num_constraints == 0,
            r.satisfied,
    {
        Circuit { num_constants: 0, num_public: 0, num_private: 0, num_constraints: 0, satisfied: true }
    }

    /// Whether every constraint emitted so far holds.
    pub fn is_satisfied(&self) -> (r: bool)
        ensures
            r == self.satisfied,
    {
        self.satisfied
    }

    /// Injects a boolean of the given mode. A public or private one comes
    /// with the constraint `b * (1 - b) == 0`, which its value meets.
    pub fn new_boolean(&mut self, mode: Mode, value: bool) -> (r: Boolean)
        requires
            old(self).room(1),
        ensures
            r.value == value,
            r.constant == (mode == Mode::Constant),
            final(self).satisfied == old(self).satisfied,
            final(self).num_constants == old(self).num_constants + (if mode == Mode::Constant { 1int } else { 0 }),
            final(self).num_public == old(self).num_public + (if mode == Mode::Public { 1int } else { 0 }),
            final(self).num_private == old(self).num_private + (if mode == Mode::Private { 1int } else { 0 }),
            final(self).num_constraints == old(self).num_constraints + (if mode == Mode::Constant { 0int } else { 1 }),
    {
        match mode {
            Mode::Constant => {
                self.num_constants = self.num_constants + 1;
            },
            Mode::Public => {
                self.num_public = self.num_public + 1;
                self.num_constraints = self.num_constraints + 1;
            },
            Mode::Private => {
                self.num_private = self.num_private + 1;
                self.num_constraints = self.num_constraints + 1;
            },
        }
        Boolean { value, constant: mode == Mode::Constant }
    }

    /// Computed advice: a new private variable holding `value`, or the
    /// constant `value` where everything it was computed from is constant.
    /// No constraint binds it yet.
    pub fn witness(&mut self, value: Fe, constant: bool) -> (r: Field)
        requires
            value.wf(),
            old(self).room(1),
        ensures
            r.value == value,
            r.constant == constant,
            final(self).satisfied == old(self).satisfied,
            final(self).num_constants == old(self).num_constants,
            final(self).num_public == old(self).num_public,
            final(self).num_private == old(self).num_private + (if constant { 0int } else { 1 }),
            final(self).num_constraints == old(self).num_constraints,
    {
        if !constant {
            self.num_private = self.num_private + 1;
        }
        Field { value, constant }
    }

    /// Emits the constraint `a * b == c`. Between constants nothing is
    /// emitted, and the values are checked alone.
    pub fn enforce(&mut self, a: &Field, b: &Field, c: &Field)
        requires
            a.wf(),
            b.wf(),
            c.wf(),
            old(self).room(1),
        ensures
            final(self).satisfied == (old(self).satisfied && fmul(a.val(), b.val()) == c.val()),
            final(self).num_constants == old(self).num_constants,
            final(self).num_public == old(self).num_public,
            final(self).num_private == old(self).num_private,
            final(self).num_constraints == old(self).num_constraints + (if a.constant && b.constant
                && c.constant { 0int } else { 1 }),
    {
        let holds = a.value.mul(&b.value).equals(&c.value);
        if !(a.constant && b.constant && c.constant) {
            self.num_constraints = self.num_constraints + 1;
        }
        self.satisfied = self.satisfied && holds;
    }

    /// Emits the constraint `a == b` (as `a * 1 == b`).
    pub fn assert_equal(&mut self, a: &Field, b: &Field)
        requires
            a.wf(),
            b.wf(),
            old(self).room(1),
        ensures
            final(self).satisfied == (old(self).satisfied && a.val() == b.val()),
            final(self).num_constants == old(self).num_constants,
            final(self).num_public == old(self).num_public,
            final(self).num_private == old(self).num_private,
            final(self).num_constraints == old(self).num_constraints + (if a.constant && b.constant { 0int } else { 1 }),
    {
        let one = Field::one();
        proof {
            vstd::arithmetic::div_mod::lemma_small_mod(a.val() as nat, crate::field::modulus() as nat);
        }
        self.enforce(a, &one, b);
    }

    /// The product of two circuit elements: free where either is constant,
    /// else a private variable and one constraint.
    pub fn mul(&mut self, a: &Field, b: &Field) -> (r: Field)
        requires
            a.wf(),
            b.wf(),
            old(self).room(2),
        ensures
            r.wf(),
            r.val() == fmul(a.val(), b.val()),
            r.constant == (a.constant && b.constant),
            final(self).satisfied == old(self).satisfied,
            final(self).num_constants == old(self).num_constants,
            final(self).num_public == old(self).num_public,
            final(self).num_private == old(self).num_private + (if a.constant || b.constant { 0int } else { 1 }),
            final(self).num_constraints == old(self).num_constraints + (if a.constant || b.constant { 0int } else { 1 }),
    {
        if a.constant {
            let r = b.scaled(&a.value);
            proof {
                assert(a.val() * b.val() == b.val() * a.val()) by (nonlinear_arith);
            }
            r
        } else if b.constant {
            a.scaled(&b.value)
        } else {
            let p = self.witness(a.value.mul(&b.value), false);
            self.enforce(a, b, &p);
            p
        }
    }

    /// The quotient `n / d` as advice bound by the constraint `q * d == n`:
    /// free between constants, else a private variable and one constraint.
    /// Where `d` is zero the advice cannot be computed (it is set to zero) and
    /// the circuit is left unsatisfied.
    pub fn quotient(&mut self, n: &Field, d: &Field) -> (r: Field)
        requires
            n.wf(),
            d.wf(),
            old(self).room(2),
        ensures
            r.wf(),
            r.val() == fmul(n.val(), finv(d.val())),
            r.constant == (n.constant && d.constant),
            final(self).satisfied == (old(self).satisfied && d.val() != 0),
            final(self).num_constants == old(self).num_constants,
            final(self).num_public == old(self).num_public,
            final(self).num_private == old(self).num_private + (if n.constant && d.constant { 0int } else { 1 }),
            final(self).num_constraints == old(self).num_constraints + (if n.constant && d.constant { 0int } else { 1 }),
    {
        let inv = d.value.inverse_or_zero();
        let q = self.witness(n.value.mul(&inv), n.constant && d.constant);
        proof {
            if d.val() != 0 {
                crate::field::lemma_mul_inverse_cancels(n.val(), d.val(), inv.value());
            }
        }
        self.enforce(&q, d, n);
        self.satisfied = self.satisfied && !d.value.is_zero();
        q
    }

    /// The quotient `n / d` through the inverse of `d`: where `d` is
    /// constant its inverse is known and the division is free; else the
    /// inverse is advice bound by `d * i == 1`, and the product costs as `mul`.
    /// Where `d` is zero the circuit is left unsatisfied.
    pub fn div(&mut self, n: &Field, d: &Field) -> (r: Field)
        requires
            n.wf(),
            d.wf(),
            old(self).room(3),
        ensures
            r.wf(),
            r.val() == fmul(n.val(), finv(d.val())),
            r.constant == (n.constant && d.constant),
            final(self).satisfied == (old(self).satisfied && d.val() != 0),
            final(self).num_constants == old(self).num_constants,
            final(self).num_public == old(self).num_public,
            final(self).num_private == old(self).num_private + (if d.constant { 0int } else if n.constant { 1int } else { 2 }),
            final(self).num_constraints == old(self).num_constraints + (if d.constant { 0int } else if n.constant { 1int } else { 2 }),
    {
        let inv = d.value.inverse_or_zero();
        if d.constant {
            proof {
                crate::field::lemma_zero_has_no_inverse();
            }
            self.satisfied = self.satisfied && !d.value.is_zero();
            Field { value: n.value.mul(&inv), constant: n.constant }
        } else {
            let i = self.witness(inv, false);
            let one = Field::one();
            proof {
                crate::field::lemma_zero_has_no_inverse();
                lemma_bit_products();
                if d.val() == 0 {
                    assert(fmul(d.val(), i.val()) == 0);
                }
            }
            self.enforce(d, &i, &one);
            self.mul(n, &i)
        }
    }

    /// Conjunction: free where either operand is constant, else a private
    /// variable `c` and the constraint `a * b == c`.
    pub fn and(&mut self, a: &Boolean, b: &Boolean) -> (r: Boolean)
        requires
            old(self).room(2),
        ensures
            r.value == (a.value && b.value),
            r.constant == (if a.constant { !a.value || b.constant } else { b.constant && !b.value }),
            final(self).satisfied == old(self).satisfied,
            final(self).num_constants == old(self).num_constants,
            final(self).num_public == old(self).num_public,
            final(self).num_private == old(self).num_private + (if a.constant || b.constant { 0int } else { 1 }),
            final(self).num_constraints == old(self).num_constraints + (if a.constant || b.constant { 0int } else { 1 }),
    {
        if a.constant {
            if a.value { *b } else { *a }
        } else if b.constant {
            if b.value { *a } else { *b }
        } else {
            let fa = Field::from_boolean(a);
            let fb = Field::from_boolean(b);
            let c = self.witness(if a.value && b.value { Fe::one() } else { Fe::zero() }, false);
            proof {
                lemma_bit_products();
            }
            self.enforce(&fa, &fb, &c);
            Boolean { value: a.value && b.value, constant: false }
        }
    }
}

} // verus!
