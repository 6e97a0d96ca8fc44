//! Points of the twisted Edwards curve `a * x^2 + y^2 = 1 + d * x^2 * y^2`
//! (Edwards BLS12-377) as circuit values, and the constants of the curve and of
//! its birationally equivalent Montgomery form.
use crate::circuit::{Circuit, Field};
use crate::field::{fadd, finv, fmul, fsub, limbs_value, modulus, Fe};
use snarkvm_curves::edwards_bls12::EdwardsParameters;
use snarkvm_curves::{MontgomeryParameters, TwistedEdwardsParameters};
use snarkvm_fields::PrimeField;
use vstd::prelude::*;

verus! {

/// The Edwards coefficient `a = -1`.
pub open spec fn coeff_a() -> int {
    modulus() - 1
}

/// The Edwards coefficient `d = 3021`.
pub open spec fn coeff_d() -> int {
    3021
}

/// The Montgomery coefficient
/// `A = 3990301581132929505568273333084066329187552697088022219156688740916631500114`.
pub open spec fn mont_a() -> int {
    limbs_value(17129239809805055314, 10634453203603117021, 2780005414096574235, 635691717188190474)
}

/// The Montgomery coefficient
/// `B = 4454160168295440918680551605697480202188346638066041608778544715000777738925`.
pub open spec fn mont_b() -> int {
    limbs_value(2043006016376212141, 14273398322306264099, 4188273902143936741, 709588653499982924)
}

/// Relies on `EdwardsParameters::EDWARDS_A`, which is `-1`.
#[verifier::external_body]
pub(crate) fn edwards_a() -> (r: Fe)
    ensures
        r.wf(),
        r.value() == coeff_a(),
{
    let c = <EdwardsParameters as TwistedEdwardsParameters>::EDWARDS_A.to_bigint().0;
    Fe { l0: c[0], l1: c[1], l2: c[2], l3: c[3] }
}

/// Relies on `EdwardsParameters::EDWARDS_D`, which is `3021`.
#[verifier::external_body]
pub(crate) fn edwards_d() -> (r: Fe)
    ensures
        r.wf(),
        r.value() == coeff_d(),
{
    let c = <EdwardsParameters as TwistedEdwardsParameters>::EDWARDS_D.to_bigint().0;
    Fe { l0: c[0], l1: c[1], l2: c[2], l3: c[3] }
}

/// Relies on `EdwardsParameters::MONTGOMERY_A`, the value given in its
/// documentation.
#[verifier::external_body]
pub(crate) fn montgomery_a() -> (r: Fe)
    ensures
        r.wf(),
        r.value() == mont_a(),
{
    let c = <EdwardsParameters as MontgomeryParameters>::MONTGOMERY_A.to_bigint().0;
    Fe { l0: c[0], l1: c[1], l2: c[2], l3: c[3] }
}

/// Relies on `EdwardsParameters::MONTGOMERY_B`, the value given in its
/// documentation.
#[verifier::external_body]
pub(crate) fn montgomery_b() -> (r: Fe)
    ensures
        r.wf(),
        r.value() == mont_b(),
{
    let c = <EdwardsParameters as MontgomeryParameters>::MONTGOMERY_B.to_bigint().0;
    Fe { l0: c[0], l1: c[1], l2: c[2], l3: c[3] }
}

/// The complete twisted Edwards sum of two points:
/// `x3 = (x1*y2 + y1*x2) / (1 + d*x1*x2*y1*y2)`,
/// `y3 = (y1*y2 - a*x1*x2) / (1 - d*x1*x2*y1*y2)`.
pub open spec fn ed_add(p: (int, int), q: (int, int)) -> (int, int) {
    let v0 = fmul(p.0, q.1);
    let v1 = fmul(p.1, q.0);
    let v2 = fmul(p.0, q.0);
    let v3 = fmul(p.1, q.1);
    let t = fmul(fmul(v2, v3), coeff_d());
    (fmul(fadd(v0, v1), finv(fadd(1, t))), fmul(fsub(v3, fmul(v2, coeff_a())), finv(fsub(1, t))))
}

/// Both denominators of the complete sum are nonzero.
pub open spec fn ed_add_ok(p: (int, int), q: (int, int)) -> bool {
    let t = fmul(fmul(fmul(p.0, q.0), fmul(p.1, q.1)), coeff_d());
    fadd(1, t) != 0 && fsub(1, t) != 0
}

/// The curve equation, in the shape `(d * x^2) * y^2 == a * x^2 + y^2 - 1`.
pub open spec fn on_curve(x: int, y: int) -> bool {
    let x2 = fmul(x, x);
    let y2 = fmul(y, y);
    fmul(fmul(x2, coeff_d()), y2) == fsub(fadd(fmul(x2, coeff_a()), y2), 1)
}

/// Whether `(x, y)` satisfies the curve equation.
pub fn is_on_curve(x: &Fe, y: &Fe) -> (r: bool)
    requires
        x.wf(),
        y.wf(),
    ensures
        r == on_curve(x.value(), y.value()),
{
    let a = edwards_a();
    let d = edwards_d();
    let x2 = x.mul(x);
    let y2 = y.mul(y);
    let lhs = x2.mul(&d).mul(&y2);
    let rhs = x2.mul(&a).add(&y2).sub(&Fe::one());
    lhs.equals(&rhs)
}

/// The cost of a circuit product of operands with the given constness.
pub open spec fn mul_cost(a: bool, b: bool) -> int {
    if a || b { 0 } else { 1 }
}

/// A curve point with circuit coordinates.
#[derive(Clone, Copy, Debug)]
pub struct Group {
    pub x: Field,
    pub y: Field,
}

impl Group {
    pub open spec fn wf(self) -> bool {
        self.x.wf() && self.y.wf()
    }

    pub open spec fn point(self) -> (int, int) {
        (self.x.val(), self.y.val())
    }

    pub open spec fn is_constant(self) -> bool {
        self.x.constant && self.y.constant
    }

    /// The variables and constraints that adding `self` and `o` emits.
    pub open spec fn add_cost(self, o: Group) -> int {
        let (x1, y1, x2, y2) = (self.x.constant, self.y.constant, o.x.constant, o.y.constant);
        let all = x1 && y1 && x2 && y2;
        mul_cost(x1, y2) + mul_cost(y1, x2) + mul_cost(x1, x2) + mul_cost(y1, y2) + mul_cost(x1 && x2, y1 && y2)
            + if all { 0int } else { 2 }
    }

    /// The identity `(0, 1)`, as a constant.
    pub fn zero() -> (r: Group)
        ensures
            r.wf(),
            r.point() == (0int, 1int),
            r.is_constant(),
    {
        Group { x: Field::zero(), y: Field::one() }
    }

    /// A constant point with the given coordinates.
    pub fn constant(x: Fe, y: Fe) -> (r: Group)
        ensures
            r.x.value == x && r.y.value == y,
            r.is_constant(),
    {
        Group { x: Field::constant(x), y: Field::constant(y) }
    }

    pub fn to_x_coordinate(&self) -> (r: Field)
        ensures
            r == self.x,
    {
        self.x
    }

    pub fn to_y_coordinate(&self) -> (r: Field)
        ensures
            r == self.y,
    {
        self.y
    }
}

impl Circuit {
    /// The point `(x, y)`, bound to the curve by the constraint
    /// `(d * x^2) * y^2 == a * x^2 + y^2 - 1`; the squares cost as `mul`.
    pub fn group_from_xy(&mut self, x: &Field, y: &Field) -> (r: Group)
        requires
            x.wf(),
            y.wf(),
            old(self).room(3),
        ensures
            r.x == *x && r.y == *y,
            final(self).satisfied == (old(self).satisfied && on_curve(x.val(), y.val())),
            final(self).num_constants == old(self).num_constants,
            final(self).num_public == old(self).num_public,
            final(self).num_private == old(self).num_private + mul_cost(x.constant, x.constant) + mul_cost(
                y.constant,
                y.constant,
            ),
            final(self).num_constraints == old(self).num_constraints + mul_cost(x.constant, x.constant)
                + mul_cost(y.constant, y.constant) + if x.constant && y.constant { 0int } else { 1 },
    {
        let a = edwards_a();
        let d = edwards_d();
        let x2 = self.mul(x, x);
        let y2 = self.mul(y, y);
        let lhs = x2.scaled(&d);
        let rhs = x2.scaled(&a).plus(&y2).minus(&Field::one());
        self.enforce(&lhs, &y2, &rhs);
        Group { x: *x, y: *y }
    }

    /// The complete sum of two points, with each coordinate advice bound by
    /// one constraint `q * denominator == numerator`.
    pub fn group_add(&mut self, p: &Group, q: &Group) -> (r: Group)
        requires
            p.wf(),
            q.wf(),
            old(self).room(8),
        ensures
            r.wf(),
            r.point() == ed_add(p.point(), q.point()),
            r.is_constant() == (p.is_constant() && q.is_constant()),
            r.x.constant == r.y.constant,
            final(self).satisfied == (old(self).satisfied && ed_add_ok(p.point(), q.point())),
            final(self).num_constants == old(self).num_constants,
            final(self).num_public == old(self).num_public,
            final(self).num_private == old(self).num_private + p.add_cost(*q),
            final(self).num_constraints == old(self).num_constraints + p.add_cost(*q),
    {
        let a = edwards_a();
        let d = edwards_d();
        let v0 = self.mul(&p.x, &q.y);
        let v1 = self.mul(&p.y, &q.x);
        let v2 = self.mul(&p.x, &q.x);
        let v3 = self.mul(&p.y, &q.y);
        let t = self.mul(&v2, &v3).scaled(&d);
        let one = Field::one();
        let x3 = self.quotient(&v0.plus(&v1), &one.plus(&t));
        let y3 = self.quotient(&v3.minus(&v2.scaled(&a)), &one.minus(&t));
        Group { x: x3, y: y3 }
    }
}

} // verus!
