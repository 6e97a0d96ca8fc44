//! The Bowe-Hopwood-Pedersen hash as a circuit gadget.
//!
//! The input bits are padded to whole chunks of three, cut into windows of
//! `WINDOW_SIZE` chunks, and each chunk picks one of the four Montgomery points
//! `B, 2B, 3B, 4B` of its base `B` (negated by its third bit). The chunk points of a
//! window are summed by incomplete Montgomery addition, the window sums are
//! mapped back to Edwards form and added completely, and the hash is the
//! x-coordinate of the total.
use crate::circuit::{Boolean, Circuit, Field, Mode};
use crate::field::{fadd, finv, fmul, fneg, fsub, modulus, Fe};
use crate::group::{ed_add, ed_add_ok, is_on_curve, mont_a, mont_b, montgomery_a, montgomery_b, on_curve, Group};
use vstd::prelude::*;

verus! {

/// The number of bits in a chunk.
pub const BHP_CHUNK_SIZE: usize = 3;

/// The input bits followed by constant zeros up to a multiple of three.
pub open spec fn pad(bits: Seq<bool>) -> Seq<bool> {
    bits + Seq::new(((3 - bits.len() % 3) % 3) as nat, |i: int| false)
}

/// The Montgomery form `((1 + y) / (1 - y), x_m / x)` of an Edwards point.
pub open spec fn to_montgomery(p: (int, int)) -> (int, int) {
    let x = fmul(fadd(1, p.1), finv(fsub(1, p.1)));
    (x, fmul(x, finv(p.0)))
}

/// The Edwards form `(x / y, (x - 1) / (x + 1))` of a Montgomery point.
pub open spec fn to_edwards(p: (int, int)) -> (int, int) {
    (fmul(p.0, finv(p.1)), fmul(fsub(p.0, 1), finv(fadd(p.0, 1))))
}

/// `k * b` for `k >= 1`, by repeated complete addition.
pub open spec fn multiple(b: (int, int), k: nat) -> (int, int)
    decreases k,
{
    if k <= 1 {
        b
    } else {
        ed_add(multiple(b, (k - 1) as nat), b)
    }
}

/// The Montgomery form of `(k + 1) * b`: the candidate that index `k` picks.
pub open spec fn candidate(b: (int, int), k: int) -> (int, int) {
    to_montgomery(multiple(b, (k + 1) as nat))
}

pub open spec fn bit(b: bool) -> int {
    if b { 1 } else { 0 }
}

/// The branch-free selection `c0 + b0 (c1 - c0) + b1 (c2 - c0) + b01 (c3 - c2 - c1 + c0)`.
pub open spec fn interpolate(b0: int, b1: int, b01: int, c0: int, c1: int, c2: int, c3: int) -> int {
    fadd(
        fadd(fadd(c0, fmul(b0, fsub(c1, c0))), fmul(b1, fsub(c2, c0))),
        fmul(b01, fadd(fsub(fsub(c3, c2), c1), c0)),
    )
}

/// The value that the sign correction binds: `y`, negated where the bit is set.
pub open spec fn signed(b: bool, y: int) -> int {
    if b { fneg(y) } else { y }
}

/// The Montgomery point of one chunk `(b0, b1, b2)` with base `base`.
pub open spec fn chunk_point(b0: bool, b1: bool, b2: bool, base: (int, int)) -> (int, int) {
    let c = candidate(base, bit(b0) + 2 * bit(b1));
    (c.0, signed(b2, c.1))
}

/// Incomplete Montgomery addition, `by^2 = x^3 + ax^2 + x`:
/// `l = (y2 - y1) / (x2 - x1)`, `x3 = b l^2 - a - x1 - x2`, `y3 = -(y1 + l (x3 - x1))`.
pub open spec fn madd(p: (int, int), q: (int, int)) -> (int, int) {
    let l = fmul(fsub(q.1, p.1), finv(fsub(q.0, p.0)));
    let sx = fsub(fsub(fsub(fmul(mont_b(), fmul(l, l)), mont_a()), p.0), q.0);
    (sx, fneg(fadd(p.1, fmul(l, fsub(sx, p.0)))))
}

/// Both divisions of the Montgomery form have nonzero divisors.
pub open spec fn to_montgomery_ok(p: (int, int)) -> bool {
    fsub(1, p.1) != 0 && p.0 != 0
}

/// The divisions in computing the first `n` candidates of `b` have nonzero
/// divisors: each conversion, and each addition that the next one needs.
pub open spec fn ladder_ok(b: (int, int), n: nat) -> bool
    decreases n,
{
    if n == 0 {
        true
    } else {
        &&& ladder_ok(b, (n - 1) as nat)
        &&& to_montgomery_ok(multiple(b, n))
        &&& n < 4 ==> ed_add_ok(multiple(b, n), b)
    }
}

pub open spec fn candidates_ok(b: (int, int)) -> bool {
    ladder_ok(b, 4)
}

/// The slope of an incomplete addition is defined: the x-coordinates differ.
pub open spec fn madd_ok(p: (int, int), q: (int, int)) -> bool {
    fsub(q.0, p.0) != 0
}

/// The number of chunks in window `w` of `c` chunks cut into windows of `ws`.
pub open spec fn window_len(c: int, ws: int, w: int) -> int {
    if c - w * ws < ws { c - w * ws } else { ws }
}

/// The number of windows that `c` chunks fill, the last one perhaps in part.
pub open spec fn num_windows(c: int, ws: int) -> int {
    (c + ws - 1) / ws
}

/// The Montgomery sum of the first `j` chunk points of window `w`: the
/// first chunk point itself, then incomplete additions of the others.
pub open spec fn window_acc(bits: Seq<bool>, bases: Seq<Seq<(int, int)>>, ws: int, w: int, j: nat) -> (int, int)
    decreases j,
{
    let g = w * ws + j - 1;
    let pt = chunk_point(bits[3 * g], bits[3 * g + 1], bits[3 * g + 2], bases[w][j - 1]);
    if j <= 1 {
        pt
    } else {
        madd(window_acc(bits, bases, ws, w, (j - 1) as nat), pt)
    }
}

/// Every division in the first `j` chunks of window `w` has a nonzero divisor.
pub open spec fn window_ok(bits: Seq<bool>, bases: Seq<Seq<(int, int)>>, ws: int, w: int, j: nat) -> bool
    decreases j,
{
    if j == 0 {
        true
    } else {
        let g = w * ws + j - 1;
        &&& window_ok(bits, bases, ws, w, (j - 1) as nat)
        &&& candidates_ok(bases[w][j - 1])
        &&& j > 1 ==> madd_ok(
            window_acc(bits, bases, ws, w, (j - 1) as nat),
            chunk_point(bits[3 * g], bits[3 * g + 1], bits[3 * g + 2], bases[w][j - 1]),
        )
    }
}

/// Window `w` has no zero divisor, and its Edwards point is on the curve.
pub open spec fn window_point_ok(bits: Seq<bool>, bases: Seq<Seq<(int, int)>>, ws: int, w: int) -> bool {
    let n = window_len((bits.len() / 3) as int, ws, w) as nat;
    let a = window_acc(bits, bases, ws, w, n);
    let e = to_edwards(a);
    &&& window_ok(bits, bases, ws, w, n)
    &&& a.1 != 0
    &&& fadd(a.0, 1) != 0
    &&& on_curve(e.0, e.1)
}

/// The first `k` windows and their complete sum have no zero divisor.
pub open spec fn hash_ok(bits: Seq<bool>, bases: Seq<Seq<(int, int)>>, ws: int, k: nat) -> bool
    decreases k,
{
    if k == 0 {
        true
    } else {
        &&& hash_ok(bits, bases, ws, (k - 1) as nat)
        &&& window_point_ok(bits, bases, ws, k - 1)
        &&& ed_add_ok(hash_acc(bits, bases, ws, (k - 1) as nat), window_point(bits, bases, ws, k - 1))
    }
}

/// No division in hashing `bits` has a zero divisor, and every window point
/// is on the curve.
pub open spec fn bhp_ok(bits: Seq<bool>, bases: Seq<Seq<(int, int)>>, ws: int) -> bool {
    let p = pad(bits);
    hash_ok(p, bases, ws, num_windows((p.len() / 3) as int, ws) as nat)
}

/// The Edwards point of window `w` of the padded bits.
pub open spec fn window_point(bits: Seq<bool>, bases: Seq<Seq<(int, int)>>, ws: int, w: int) -> (int, int) {
    to_edwards(window_acc(bits, bases, ws, w, window_len((bits.len() / 3) as int, ws, w) as nat))
}

/// The complete sum of the first `k` window points, from the identity.
pub open spec fn hash_acc(bits: Seq<bool>, bases: Seq<Seq<(int, int)>>, ws: int, k: nat) -> (int, int)
    decreases k,
{
    if k == 0 {
        (0, 1)
    } else {
        ed_add(hash_acc(bits, bases, ws, (k - 1) as nat), window_point(bits, bases, ws, k - 1))
    }
}

/// The hash of `bits` with the base points `bases` and windows of `ws` chunks.
pub open spec fn bhp_hash(bits: Seq<bool>, bases: Seq<Seq<(int, int)>>, ws: int) -> int {
    let p = pad(bits);
    hash_acc(p, bases, ws, num_windows((p.len() / 3) as int, ws) as nat).0
}

proof fn lemma_mod_add_left(u: int, v: int)
    ensures
        fadd(u % modulus(), v) == (u + v) % modulus(),
{
    let p = modulus();
    vstd::arithmetic::div_mod::lemma_add_mod_noop(u % p, v, p);
    vstd::arithmetic::div_mod::lemma_add_mod_noop(u, v, p);
    vstd::arithmetic::div_mod::lemma_mod_twice(u, p);
}

proof fn lemma_mod_add_right(u: int, v: int)
    ensures
        fadd(u, v % modulus()) == (u + v) % modulus(),
{
    lemma_mod_add_left(v, u);
}

proof fn lemma_mod_sub_left(u: int, v: int)
    ensures
        fsub(u % modulus(), v) == (u - v) % modulus(),
{
    let p = modulus();
    vstd::arithmetic::div_mod::lemma_sub_mod_noop(u % p, v, p);
    vstd::arithmetic::div_mod::lemma_sub_mod_noop(u, v, p);
    vstd::arithmetic::div_mod::lemma_mod_twice(u, p);
}

proof fn lemma_mod_mul(u: int, v: int)
    ensures
        fmul(u % modulus(), v % modulus()) == (u * v) % modulus(),
{
    vstd::arithmetic::div_mod::lemma_mul_mod_noop(u, v, modulus());
}

proof fn lemma_canonical(u: int)
    requires
        0 <= u < modulus(),
    ensures
        u % modulus() == u,
{
    vstd::arithmetic::div_mod::lemma_small_mod(u as nat, modulus() as nat);
}

/// Multiplying by the field's zero or one.
proof fn lemma_mul_bit(b: bool, u: int)
    requires
        0 <= u < modulus(),
    ensures
        fmul(bit(b), u) == if b { u } else { 0 },
{
    lemma_canonical(u);
    lemma_canonical(0);
}

/// The branch-free selection picks, for the bits `(b0, b1)`, the candidate
/// with index `b0 + 2 b1`: the first for `(0, 0)`, the second for `(1, 0)`,
/// the third for `(0, 1)` and the fourth for `(1, 1)`, whatever the candidates.
pub proof fn lemma_selection(b0: bool, b1: bool, c0: int, c1: int, c2: int, c3: int)
    requires
        0 <= c0 < modulus(),
        0 <= c1 < modulus(),
        0 <= c2 < modulus(),
        0 <= c3 < modulus(),
    ensures
        interpolate(bit(b0), bit(b1), bit(b0 && b1), c0, c1, c2, c3) == (if !b0 && !b1 {
            c0
        } else if b0 && !b1 {
            c1
        } else if !b0 && b1 {
            c2
        } else {
            c3
        }),
{
    let p = modulus();
    let d1 = fsub(c1, c0);
    let d2 = fsub(c2, c0);
    let d3 = fadd(fsub(fsub(c3, c2), c1), c0);
    lemma_mul_bit(b0, d1);
    lemma_mul_bit(b1, d2);
    lemma_mul_bit(b0 && b1, d3);
    lemma_canonical(c0);
    lemma_canonical(c1);
    lemma_canonical(c2);
    lemma_canonical(c3);
    lemma_canonical(0);
    // (c0 + d1), (c0 + d2) and the rest modulo p
    lemma_mod_add_right(c0, c1 - c0);
    lemma_mod_add_right(c0, c2 - c0);
    lemma_mod_add_right(c1, c2 - c0);
    lemma_mod_sub_left(c3 - c2, c1);
    lemma_mod_add_left(c3 - c2 - c1, c0);
    if b0 && b1 {
        let s = fadd(c1, d2);
        assert(s == (c1 + c2 - c0) % p);
        lemma_mod_add_left(c1 + c2 - c0, d3);
        lemma_mod_add_right(c1 + c2 - c0, c3 - c2 - c1 + c0);
        assert(fadd(fadd(fadd(c0, d1), 0), 0) == c1);
    }
}

proof fn lemma_mod_sub_right(u: int, v: int)
    ensures
        fsub(u, v % modulus()) == (u - v) % modulus(),
{
    let p = modulus();
    vstd::arithmetic::div_mod::lemma_sub_mod_noop(u, v % p, p);
    vstd::arithmetic::div_mod::lemma_sub_mod_noop(u, v, p);
    vstd::arithmetic::div_mod::lemma_mod_twice(v, p);
}

/// The second and third constraints of the incomplete addition hold of
/// the advice, whatever the slope `l`.
proof fn lemma_madd_constraints(x1: int, y1: int, x2: int, l: int)
    requires
        0 <= x1 < modulus(),
        0 <= y1 < modulus(),
        0 <= x2 < modulus(),
        0 <= l < modulus(),
    ensures
        ({
            let sx = fsub(fsub(fsub(fmul(mont_b(), fmul(l, l)), mont_a()), x1), x2);
            let sy = fneg(fadd(y1, fmul(l, fsub(sx, x1))));
            &&& fmul(fmul(l, mont_b()), l) == fadd(fadd(fadd(mont_a(), x1), x2), sx)
            &&& fmul(l, fsub(x1, sx)) == fadd(y1, sy)
        }),
{
    let p = modulus();
    let (a, b) = (mont_a(), mont_b());
    let u = b * l * l;
    vstd::arithmetic::div_mod::lemma_mul_mod_noop_left(l * b, l, p);
    assert(l * b * l == u) by (nonlinear_arith)
        requires u == b * l * l;
    vstd::arithmetic::div_mod::lemma_mul_mod_noop_right(b, l * l, p);
    assert(b * (l * l) == u) by (nonlinear_arith)
        requires u == b * l * l;
    lemma_mod_sub_left(u, a);
    lemma_mod_sub_left(u - a, x1);
    lemma_mod_sub_left(u - a - x1, x2);
    let sx = fsub(fsub(fsub(fmul(b, fmul(l, l)), a), x1), x2);
    assert(sx == (u - a - x1 - x2) % p);
    lemma_mod_add_left(a + x1, x2);
    assert(fadd(fadd(fadd(a, x1), x2), sx) == ((a + x1 + x2) % p + (u - a - x1 - x2) % p) % p);
    vstd::arithmetic::div_mod::lemma_add_mod_noop(a + x1 + x2, u - a - x1 - x2, p);
    // the third constraint
    lemma_canonical(sx);
    vstd::arithmetic::div_mod::lemma_mul_mod_noop_right(l, x1 - sx, p);
    vstd::arithmetic::div_mod::lemma_mul_mod_noop_right(l, sx - x1, p);
    let t = l * (sx - x1);
    lemma_mod_add_right(y1, t);
    lemma_mod_sub_right(0, y1 + t);
    let sy = fneg(fadd(y1, fmul(l, fsub(sx, x1))));
    assert(sy == (-(y1 + t)) % p);
    lemma_mod_add_right(y1, -(y1 + t));
    assert(l * (x1 - sx) == y1 + -(y1 + t)) by (nonlinear_arith)
        requires t == l * (sx - x1);
}

/// The bound sign correction `(b - 1/2) * (-2 y)` equals `y` for a clear bit
/// and `-y` for a set one.
pub proof fn lemma_sign_correction(b: bool, y: int, half: int)
    requires
        0 <= y < modulus(),
        0 <= half < modulus(),
        fmul(half, 2) == 1,
    ensures
        fmul(fsub(bit(b), half), fneg(fadd(y, y))) == signed(b, y),
{
    let p = modulus();
    lemma_canonical(y);
    lemma_canonical(bit(b));
    // -(y + y) modulo p
    vstd::arithmetic::div_mod::lemma_sub_mod_noop(0, y + y, p);
    lemma_canonical(0);
    assert(fneg(fadd(y, y)) == (-2 * y) % p);
    lemma_mod_mul(bit(b) - half, -2 * y);
    assert(fsub(bit(b), half) == (bit(b) - half) % p);
    // 2 half y == y modulo p
    vstd::arithmetic::div_mod::lemma_mul_mod_noop_left(half * 2, y, p);
    lemma_canonical(1);
    assert((half * 2 * y) % p == y);
    let bb = bit(b);
    assert((bb - half) * (-2 * y) == -2 * bb * y + half * 2 * y) by (nonlinear_arith);
    vstd::arithmetic::div_mod::lemma_add_mod_noop(-2 * bit(b) * y, half * 2 * y, p);
    vstd::arithmetic::div_mod::lemma_add_mod_noop(-2 * bit(b) * y, y, p);
    if b {
        assert(-2 * bit(b) * y + y == -y);
    } else {
        assert(-2 * bit(b) * y + y == y);
    }
}

/// From `before` to `after` the private and constraint counts grew by at
/// most `n`, the constant and public counts stayed, and an unsatisfied
/// circuit stayed unsatisfied.
pub open spec fn grew_by_at_most(before: Circuit, after: Circuit, n: int) -> bool {
    &&& after.num_constants == before.num_constants
    &&& after.num_public == before.num_public
    &&& before.num_private <= after.num_private <= before.num_private + n
    &&& before.num_constraints <= after.num_constraints <= before.num_constraints + n
    &&& (after.satisfied ==> before.satisfied)
}

/// The Montgomery forms of `B, 2B, 3B, 4B` for a constant base `B`, as
/// constants; the additions and divisions between constants emit nothing.
fn montgomery_candidates(cs: &mut Circuit, base: &Group) -> (r: (Vec<Fe>, Vec<Fe>))
    requires
        base.wf(),
        base.is_constant(),
        old(cs).room(8),
    ensures
        r.0@.len() == 4,
        r.1@.len() == 4,
        forall|k: int|
            #![trigger r.0@[k]]
            0 <= k < 4 ==> r.0@[k].wf() && r.1@[k].wf() && (r.0@[k].value(), r.1@[k].value()) == candidate(
                base.point(),
                k,
            ),
        final(cs).same_counts(*old(cs)),
        final(cs).satisfied == (old(cs).satisfied && candidates_ok(base.point())),
{
    let mut xs: Vec<Fe> = Vec::new();
    let mut ys: Vec<Fe> = Vec::new();
    let mut acc = *base;
    let one = Field::one();
    let mut k: usize = 0;
    while k < 4
        invariant
            0 <= k <= 4,
            base.wf(),
            base.is_constant(),
            one.wf() && one.val() == 1 && one.constant,
            acc.wf(),
            acc.is_constant(),
            k < 4 ==> acc.point() == multiple(base.point(), (k + 1) as nat),
            xs@.len() == k,
            ys@.len() == k,
            forall|i: int|
                #![trigger xs@[i]]
                0 <= i < k ==> xs@[i].wf() && ys@[i].wf() && (xs@[i].value(), ys@[i].value()) == candidate(
                    base.point(),
                    i,
                ),
            cs.same_counts(*old(cs)),
            cs.satisfied == (old(cs).satisfied && ladder_ok(base.point(), k as nat)),
            old(cs).room(8),
        decreases 4 - k,
    {
        let x = cs.div(&one.plus(&acc.y), &one.minus(&acc.y));
        let y = cs.div(&x, &acc.x);
        let ghost xs0 = xs@;
        let ghost ys0 = ys@;
        xs.push(x.value);
        ys.push(y.value);
        proof {
            assert((x.val(), y.val()) == candidate(base.point(), k as int));
            assert forall|i: int|
                #![trigger xs@[i]]
                0 <= i < k + 1 implies xs@[i].wf() && ys@[i].wf() && (xs@[i].value(), ys@[i].value())
                == candidate(base.point(), i) by {
                if i == k as int {
                    assert(xs@[i] == x.value);
                    assert(ys@[i] == y.value);
                } else {
                    assert(xs@[i] == xs0[i]);
                    assert(ys@[i] == ys0[i]);
                }
            }
        }
        if k < 3 {
            acc = cs.group_add(&acc, base);
        }
        k = k + 1;
    }
    (xs, ys)
}

/// The branch-free selection of one of four constant candidates by the
/// bits `b0`, `b1` and their conjunction `b01`; it only scales and adds.
pub fn select(b0: &Field, b1: &Field, b01: &Field, c: &Vec<Fe>) -> (r: Field)
    requires
        b0.wf(),
        b1.wf(),
        b01.wf(),
        c@.len() == 4,
        forall|k: int| 0 <= k < 4 ==> c@[k].wf(),
    ensures
        r.wf(),
        r.val() == interpolate(b0.val(), b1.val(), b01.val(), c@[0].value(), c@[1].value(), c@[2].value(), c@[3].value()),
        r.constant == (b0.constant && b1.constant && b01.constant),
{
    let c0 = Field::constant(c[0]);
    let t0 = b0.scaled(&c[1].sub(&c[0]));
    let t1 = b1.scaled(&c[2].sub(&c[0]));
    let t2 = b01.scaled(&c[3].sub(&c[2]).sub(&c[1]).add(&c[0]));
    c0.plus(&t0).plus(&t1).plus(&t2)
}

/// The sign correction: advice `y` or `-y` by the bit `b`, bound by the
/// one constraint `(b - 1/2) * (-2 y) == advice`, which the advice meets.
pub fn conditional_negation(cs: &mut Circuit, b: &Boolean, y: &Field) -> (r: Field)
    requires
        y.wf(),
        old(cs).room(2),
    ensures
        r.wf(),
        r.val() == signed(b.value, y.val()),
        r.constant == (b.constant && y.constant),
        final(cs).satisfied == old(cs).satisfied,
        final(cs).num_constants == old(cs).num_constants,
        final(cs).num_public == old(cs).num_public,
        final(cs).num_private == old(cs).num_private + (if b.constant && y.constant { 0int } else { 1 }),
        final(cs).num_constraints == old(cs).num_constraints + (if b.constant && y.constant { 0int } else { 1 }),
{
    let half = Fe::half();
    let advice = if b.value { y.value.neg() } else { y.value };
    let w = cs.witness(advice, b.constant && y.constant);
    let fb = Field::from_boolean(b);
    let lhs = fb.minus(&Field::constant(half));
    let rhs = y.plus(y).negated();
    proof {
        lemma_sign_correction(b.value, y.val(), half.value());
    }
    cs.enforce(&lhs, &rhs, &w);
    w
}

/// Incomplete addition of two Montgomery points; each coordinate of the
/// sum and the slope are advice bound by one constraint each:
/// `l (x2 - x1) == y2 - y1`, `(b l) l == a + x1 + x2 + x3`,
/// `l (x1 - x3) == y1 + y3`. Between constants nothing is emitted.
pub fn montgomery_add(cs: &mut Circuit, p: &(Field, Field), q: &(Field, Field)) -> (r: (Field, Field))
    requires
        p.0.wf() && p.1.wf() && q.0.wf() && q.1.wf(),
        old(cs).room(6),
    ensures
        r.0.wf() && r.1.wf(),
        (r.0.val(), r.1.val()) == madd((p.0.val(), p.1.val()), (q.0.val(), q.1.val())),
        ({
            let c = p.0.constant && p.1.constant && q.0.constant && q.1.constant;
            &&& r.0.constant == c
            &&& r.1.constant == c
            &&& final(cs).num_private == old(cs).num_private + (if c { 0int } else { 3 })
            &&& final(cs).num_constraints == old(cs).num_constraints + (if c { 0int } else { 3 })
        }),
        final(cs).num_constants == old(cs).num_constants,
        final(cs).num_public == old(cs).num_public,
        final(cs).satisfied == (old(cs).satisfied && madd_ok((p.0.val(), p.1.val()), (q.0.val(), q.1.val()))),
{
    let c = p.0.constant && p.1.constant && q.0.constant && q.1.constant;
    let a = montgomery_a();
    let b = montgomery_b();
    let (x1, y1) = (&p.0.value, &p.1.value);
    let (x2, y2) = (&q.0.value, &q.1.value);
    let dx = x2.sub(x1);
    let inv = dx.inverse_or_zero();
    let l = y2.sub(y1).mul(&inv);
    proof {
        if dx.value() != 0 {
            crate::field::lemma_mul_inverse_cancels(fsub(y2.value(), y1.value()), dx.value(), inv.value());
        }
    }
    let lambda = cs.witness(l, c);
    cs.enforce(&lambda, &q.0.minus(&p.0), &q.1.minus(&p.1));
    let sx = b.mul(&l.mul(&l)).sub(&a).sub(x1).sub(x2);
    let sum_x = cs.witness(sx, c);
    let sy = y1.add(&l.mul(&sx.sub(x1))).neg();
    proof {
        lemma_madd_constraints(x1.value(), y1.value(), x2.value(), l.value());
    }
    cs.enforce(&lambda.scaled(&b), &lambda, &Field::constant(a).plus(&p.0).plus(&q.0).plus(&sum_x));
    let sum_y = cs.witness(sy, c);
    cs.enforce(&lambda, &p.0.minus(&sum_x), &p.1.plus(&sum_y));
    // the slope cannot be computed where the two x-coordinates meet
    cs.satisfied = cs.satisfied && !dx.is_zero();
    (sum_x, sum_y)
}

/// The Montgomery point of the chunk `(c0, c1, c2)` with the constant base
/// `base`: the branch-free selection among its four candidates, with the sign
/// correction by `c2`.
fn chunk_point_of(cs: &mut Circuit, c0: &Boolean, c1: &Boolean, c2: &Boolean, base: &Group) -> (r: (Field, Field))
    requires
        base.wf(),
        base.is_constant(),
        old(cs).room(16),
    ensures
        r.0.wf() && r.1.wf(),
        (r.0.val(), r.1.val()) == chunk_point(c0.value, c1.value, c2.value, base.point()),
        grew_by_at_most(*old(cs), *final(cs), 2),
        final(cs).satisfied == (old(cs).satisfied && candidates_ok(base.point())),
        !c0.constant ==> {
            &&& !r.0.constant && !r.1.constant
            &&& final(cs).num_private == old(cs).num_private + chunk_cost(c1.constant) - 3
            &&& final(cs).num_constraints == old(cs).num_constraints + chunk_cost(c1.constant) - 3
        },
        c0.constant && c1.constant && c2.constant ==> {
            &&& r.0.constant && r.1.constant
            &&& final(cs).num_private == old(cs).num_private
            &&& final(cs).num_constraints == old(cs).num_constraints
        },
{
    let (xs, ys) = montgomery_candidates(cs, base);
    let b0 = Field::from_boolean(c0);
    let b1 = Field::from_boolean(c1);
    let b01 = Field::from_boolean(&cs.and(c0, c1));
    let x = select(&b0, &b1, &b01, &xs);
    let y = select(&b0, &b1, &b01, &ys);
    proof {
        lemma_selection(c0.value, c1.value, xs@[0].value(), xs@[1].value(), xs@[2].value(), xs@[3].value());
        lemma_selection(c0.value, c1.value, ys@[0].value(), ys@[1].value(), ys@[2].value(), ys@[3].value());
        let k = bit(c0.value) + 2 * bit(c1.value);
        assert(0 <= k < 4);
        assert(x.val() == xs@[k].value());
        assert(y.val() == ys@[k].value());
    }
    let y_signed = conditional_negation(cs, c2, &y);
    (x, y_signed)
}

/// Adds the Montgomery point of the chunk `(c0, c1, c2)` with the constant
/// base `base` into the window sum `acc`.
fn chunk_step(cs: &mut Circuit, acc: &(Field, Field), c0: &Boolean, c1: &Boolean, c2: &Boolean, base: &Group) -> (r: (
    Field,
    Field,
))
    requires
        acc.0.wf() && acc.1.wf(),
        base.wf(),
        base.is_constant(),
        old(cs).room(16),
    ensures
        r.0.wf() && r.1.wf(),
        (r.0.val(), r.1.val()) == madd(
            (acc.0.val(), acc.1.val()),
            chunk_point(c0.value, c1.value, c2.value, base.point()),
        ),
        grew_by_at_most(*old(cs), *final(cs), 5),
        final(cs).satisfied == (old(cs).satisfied && candidates_ok(base.point()) && madd_ok(
            (acc.0.val(), acc.1.val()),
            chunk_point(c0.value, c1.value, c2.value, base.point()),
        )),
        !c0.constant ==> {
            &&& !r.0.constant && !r.1.constant
            &&& final(cs).num_private == old(cs).num_private + chunk_cost(c1.constant)
            &&& final(cs).num_constraints == old(cs).num_constraints + chunk_cost(c1.constant)
        },
        c0.constant && c1.constant && c2.constant && acc.0.constant && acc.1.constant ==> {
            &&& r.0.constant && r.1.constant
            &&& final(cs).num_private == old(cs).num_private
            &&& final(cs).num_constraints == old(cs).num_constraints
        },
{
    let pt = chunk_point_of(cs, c0, c1, c2, base);
    montgomery_add(cs, acc, &pt)
}

/// The variables (and constraints) that one chunk emits where its first bit
/// is a variable: four, and one more for the conjunction unless the second bit
/// is a constant.
pub open spec fn chunk_cost(second_constant: bool) -> int {
    if second_constant { 4 } else { 5 }
}

/// The cost of the first `g` chunks of `bits`.
pub open spec fn prefix_cost(bits: Seq<Boolean>, g: nat) -> int
    decreases g,
{
    if g == 0 {
        0
    } else {
        prefix_cost(bits, (g - 1) as nat) + chunk_cost(bits[3 * (g - 1) + 1].constant)
    }
}

/// The number of chunks in the windows before window `w`.
pub open spec fn chunks_before(c: int, ws: int, w: int) -> int {
    if w * ws < c { w * ws } else { c }
}

/// The private variables that hashing `len` variable bits emits: five per
/// chunk but one where the second bit of the last chunk is padding, three
/// fewer for the first chunk of a window (it is not added to anything), six
/// per window for its Edwards form, and those of the additions of the windows.
pub open spec fn hash_private_cost(len: int, ws: int) -> int {
    let c = (len + 2) / 3;
    5 * c - (if len % 3 == 1 { 1int } else { 0 }) + 10 * num_windows(c, ws) - 4
}

/// The constraints that hashing `len` variable bits emits: as the private
/// variables, and one more per window for the curve check.
pub open spec fn hash_constraint_cost(len: int, ws: int) -> int {
    hash_private_cost(len, ws) + num_windows((len + 2) / 3, ws)
}

/// The chunk costs of padded variable bits: five per chunk, but four for the
/// last one where it holds two padding bits.
proof fn lemma_prefix_cost(bits: Seq<Boolean>, len: int, g: nat)
    requires
        bits.len() % 3 == 0,
        0 <= len,
        bits.len() - 2 <= len <= bits.len(),
        forall|i: int| 0 <= i < len ==> !(#[trigger] bits[i]).constant,
        forall|i: int| len <= i < bits.len() ==> (#[trigger] bits[i]).constant,
        g <= bits.len() / 3,
    ensures
        prefix_cost(bits, g) == 5 * g - (if g == bits.len() / 3 && len % 3 == 1 { 1int } else { 0 }),
    decreases g,
{
    if g > 0 {
        lemma_prefix_cost(bits, len, (g - 1) as nat);
        let k = 3 * (g - 1) + 1;
        let c = bits.len() / 3;
        assert(bits.len() == 3 * c);
        assert(prefix_cost(bits, g) == prefix_cost(bits, (g - 1) as nat) + chunk_cost(bits[k].constant));
        if g == c && len % 3 == 1 {
            assert(len == 3 * c - 2);
            assert(bits[k].constant);
        } else {
            assert(!bits[k].constant);
        }
    }
}

/// Facts on the window count `nw = ceil(c / ws)`.
proof fn lemma_window_count(c: int, ws: int, nwin: int)
    requires
        ws > 0,
        ws < c <= nwin * ws,
    ensures
        num_windows(c, ws) <= nwin,
        num_windows(c, ws) * ws < c + ws,
        c <= num_windows(c, ws) * ws,
        forall|w: int| 0 <= w < num_windows(c, ws) ==> #[trigger] (w * ws) < c && (w + 1) * ws <= num_windows(c, ws) * ws,
{
    let q = num_windows(c, ws);
    vstd::arithmetic::div_mod::lemma_fundamental_div_mod(c + ws - 1, ws);
    let r = (c + ws - 1) % ws;
    assert(c + ws - 1 == ws * q + r);
    assert(q * ws < c + ws) by (nonlinear_arith)
        requires c + ws - 1 == ws * q + r, 0 <= r;
    assert(c <= q * ws) by (nonlinear_arith)
        requires c + ws - 1 == ws * q + r, r < ws;
    assert(q <= nwin) by (nonlinear_arith)
        requires q * ws < c + ws, c <= nwin * ws, ws > 0;
    assert forall|w: int| 0 <= w < q implies #[trigger] (w * ws) < c && (w + 1) * ws <= q * ws by {
        assert((w + 1) * ws <= q * ws) by (nonlinear_arith)
            requires w + 1 <= q, ws > 0;
        assert(w * ws + ws == (w + 1) * ws) by (nonlinear_arith);
        assert(ws * q + r >= q * ws) by (nonlinear_arith)
            requires r >= 0;
    }
}

/// The input followed by constant zeros up to a multiple of three bits.
fn pad_input(cs: &mut Circuit, input: &[Boolean]) -> (r: Vec<Boolean>)
    requires
        old(cs).room(2),
    ensures
        r@.len() == input@.len() + (3 - input@.len() % 3) % 3,
        forall|i: int| 0 <= i < input@.len() ==> r@[i] == input@[i],
        forall|i: int| input@.len() <= i < r@.len() ==> !(#[trigger] r@[i]).value && r@[i].constant,
        final(cs).num_constants == old(cs).num_constants + (3 - input@.len() % 3) % 3,
        final(cs).num_public == old(cs).num_public,
        final(cs).num_private == old(cs).num_private,
        final(cs).num_constraints == old(cs).num_constraints,
        final(cs).satisfied == old(cs).satisfied,
{
    let len = input.len();
    let mut bits: Vec<Boolean> = Vec::new();
    let mut i: usize = 0;
    while i < len
        invariant
            len == input@.len(),
            i <= len,
            bits@ == input@.subrange(0, i as int),
        decreases len - i,
    {
        bits.push(input[i]);
        i = i + 1;
    }
    let padding = (BHP_CHUNK_SIZE - len % BHP_CHUNK_SIZE) % BHP_CHUNK_SIZE;
    let ghost c0 = *cs;
    let mut k: usize = 0;
    while k < padding
        invariant
            len == input@.len(),
            padding == (3 - len % 3) % 3,
            k <= padding,
            bits@.len() == len + k,
            bits@.subrange(0, len as int) == input@,
            forall|m: int| len <= m < len + k ==> !(#[trigger] bits@[m]).value && bits@[m].constant,
            cs.num_constants == c0.num_constants + k,
            cs.num_public == c0.num_public,
            cs.num_private == c0.num_private,
            cs.num_constraints == c0.num_constraints,
            cs.satisfied == c0.satisfied,
            c0.room(2),
        decreases padding - k,
    {
        let z = cs.new_boolean(Mode::Constant, false);
        bits.push(z);
        proof {
            assert(bits@.subrange(0, len as int) =~= input@);
        }
        k = k + 1;
    }
    assert forall|i: int| 0 <= i < len implies bits@[i] == input@[i] by {
        assert(bits@[i] == bits@.subrange(0, len as int)[i]);
    }
    bits
}

/// The values of a sequence of circuit booleans.
pub open spec fn bit_values(bits: Seq<Boolean>) -> Seq<bool> {
    bits.map_values(|b: Boolean| b.value)
}

/// A parameter set: for each of `NUM_WINDOWS` windows, at least
/// `WINDOW_SIZE` constant base points on the curve, one for each chunk of the window.
pub struct BHPCRH<const NUM_WINDOWS: usize, const WINDOW_SIZE: usize> {
    pub bases: Vec<Vec<Group>>,
}

impl<const NUM_WINDOWS: usize, const WINDOW_SIZE: usize> BHPCRH<NUM_WINDOWS, WINDOW_SIZE> {
    pub open spec fn wf(self) -> bool {
        &&& self.bases@.len() == NUM_WINDOWS
        &&& WINDOW_SIZE * 3 <= usize::MAX
        &&& NUM_WINDOWS * WINDOW_SIZE * 3 <= usize::MAX
        &&& forall|w: int|
            #![trigger self.bases@[w]]
            0 <= w < NUM_WINDOWS ==> {
                &&& self.bases@[w]@.len() >= WINDOW_SIZE
                &&& forall|j: int|
                    #![trigger self.bases@[w]@[j]]
                    0 <= j < self.bases@[w]@.len() ==> self.bases@[w]@[j].wf() && self.bases@[w]@[j].is_constant()
                        && on_curve(self.bases@[w]@[j].x.val(), self.bases@[w]@[j].y.val())
            }
    }

    /// The coordinates of the base points, by window and chunk.
    pub open spec fn base_points(self) -> Seq<Seq<(int, int)>> {
        self.bases@.map_values(|v: Vec<Group>| v@.map_values(|g: Group| g.point()))
    }

    /// A parameter set from its base points: `None` unless there are
    /// `NUM_WINDOWS` windows of at least `WINDOW_SIZE` constant points on the
    /// curve with canonical coordinates each, and the capacity in bits fits in a `usize`.
    pub fn new(bases: Vec<Vec<Group>>) -> (r: Option<Self>)
        ensures
            r.is_some() <==> (Self { bases }).wf(),
            r.is_some() ==> r.unwrap().bases == bases,
    {
        let ghost s = Self { bases };
        let fits = match WINDOW_SIZE.checked_mul(BHP_CHUNK_SIZE) {
            Some(m) => NUM_WINDOWS.checked_mul(m).is_some(),
            None => false,
        };
        proof {
            assert(NUM_WINDOWS * (WINDOW_SIZE * 3) == NUM_WINDOWS * WINDOW_SIZE * 3) by (nonlinear_arith);
        }
        if !fits || bases.len() != NUM_WINDOWS {
            assert(!s.wf());
            return None;
        }
        assert(NUM_WINDOWS * WINDOW_SIZE * 3 <= usize::MAX);
        let mut w: usize = 0;
        while w < bases.len()
            invariant
                s.bases == bases,
                w <= bases@.len(),
                forall|v: int|
                    #![trigger bases@[v]]
                    0 <= v < w ==> {
                        &&& bases@[v]@.len() >= WINDOW_SIZE
                        &&& forall|j: int|
                            #![trigger bases@[v]@[j]]
                            0 <= j < bases@[v]@.len() ==> bases@[v]@[j].wf() && bases@[v]@[j].is_constant()
                                && on_curve(bases@[v]@[j].x.val(), bases@[v]@[j].y.val())
                    },
            decreases bases@.len() - w,
        {
            let window = &bases[w];
            if window.len() < WINDOW_SIZE {
                assert(!s.wf()) by {
                    assert(s.bases@[w as int]@.len() < WINDOW_SIZE);
                }
                return None;
            }
            let mut j: usize = 0;
            while j < window.len()
                invariant
                    s.bases == bases,
                    w < bases@.len(),
                    *window == bases@[w as int],
                    j <= window@.len(),
                    forall|i: int|
                        #![trigger window@[i]]
                        0 <= i < j ==> window@[i].wf() && window@[i].is_constant() && on_curve(
                            window@[i].x.val(),
                            window@[i].y.val(),
                        ),
                decreases window@.len() - j,
            {
                let g = &window[j];
                if !(g.x.constant && g.y.constant) || Fe::from_limbs(g.x.value.limbs()).is_none() || Fe::from_limbs(
                    g.y.value.limbs(),
                ).is_none() || !is_on_curve(&g.x.value, &g.y.value) {
                    assert(!s.wf()) by {
                        assert(s.bases@[w as int] == *window);
                        let b = s.bases@[w as int]@[j as int];
                        assert(!(b.wf() && b.is_constant() && on_curve(b.x.val(), b.y.val())));
                    }
                    return None;
                }
                j = j + 1;
            }
            w = w + 1;
        }
        Some(Self { bases })
    }

    /// The hash of `input`: the x-coordinate of the sum of the window
    /// points of the input padded to whole chunks. An input of at most
    /// `3 * WINDOW_SIZE` bits, or of more than `3 * NUM_WINDOWS * WINDOW_SIZE`,
    /// is rejected before anything is emitted. The padding bits are constants.
    /// Where some advice would divide by zero, the circuit is left
    /// unsatisfied and `ZeroDivisor` is returned.
    /// Where every input bit is a variable, the counts of variables and
    /// constraints depend on the input's length alone; where every input bit
    /// is a constant, nothing but the padding is emitted.
    pub fn hash(&self, cs: &mut Circuit, input: &[Boolean]) -> (r: Result<Field, HashError>)
        requires
            self.wf(),
            old(cs).room(16 * input@.len() as int + 64),
        ensures
            input@.len() <= WINDOW_SIZE * 3 ==> r == Err::<Field, HashError>(HashError::InputTooShort(
                (WINDOW_SIZE * 3) as usize,
            )) && *final(cs) == *old(cs),
            WINDOW_SIZE * 3 < input@.len() && input@.len() > NUM_WINDOWS * WINDOW_SIZE * 3 ==> r == Err::<
                Field,
                HashError,
            >(HashError::InputTooLong((NUM_WINDOWS * WINDOW_SIZE * 3) as usize)) && *final(cs) == *old(cs),
            WINDOW_SIZE * 3 < input@.len() <= NUM_WINDOWS * WINDOW_SIZE * 3 ==> {
                let ok = bhp_ok(bit_values(input@), self.base_points(), WINDOW_SIZE as int);
                &&& ok ==> r is Ok && r->Ok_0.wf() && r->Ok_0.val() == bhp_hash(
                    bit_values(input@),
                    self.base_points(),
                    WINDOW_SIZE as int,
                )
                &&& !ok ==> r == Err::<Field, HashError>(HashError::ZeroDivisor)
                &&& final(cs).satisfied == (old(cs).satisfied && ok)
                &&& final(cs).num_constants == old(cs).num_constants + (3 - input@.len() % 3) % 3
                &&& grew_by_at_most(
                    Circuit { num_constants: final(cs).num_constants, ..*old(cs) },
                    *final(cs),
                    16 * input@.len() as int + 64,
                )
                &&& (forall|i: int| 0 <= i < input@.len() ==> !(#[trigger] input@[i]).constant) ==> {
                    &&& final(cs).num_private == old(cs).num_private + hash_private_cost(
                        input@.len() as int,
                        WINDOW_SIZE as int,
                    )
                    &&& final(cs).num_constraints == old(cs).num_constraints + hash_constraint_cost(
                        input@.len() as int,
                        WINDOW_SIZE as int,
                    )
                }
                &&& (forall|i: int| 0 <= i < input@.len() ==> (#[trigger] input@[i]).constant) ==> {
                    &&& final(cs).num_private == old(cs).num_private
                    &&& final(cs).num_constraints == old(cs).num_constraints
                }
            },
    {
        let len = input.len();
        if len <= WINDOW_SIZE * BHP_CHUNK_SIZE {
            return Err(HashError::InputTooShort(WINDOW_SIZE * BHP_CHUNK_SIZE));
        }
        if len > NUM_WINDOWS * WINDOW_SIZE * BHP_CHUNK_SIZE {
            return Err(HashError::InputTooLong(NUM_WINDOWS * WINDOW_SIZE * BHP_CHUNK_SIZE));
        }
        let was_satisfied = cs.is_satisfied();
        cs.satisfied = true;
        let bits = pad_input(cs, input);
        let ghost bv = bit_values(bits@);
        assert(bv =~= pad(bit_values(input@))) by {
            assert forall|m: int| 0 <= m < bv.len() implies bv[m] == pad(bit_values(input@))[m] by {
                if m < len {
                    assert(bits@[m] == input@[m]);
                }
            }
        }
        proof {
            if forall|i: int| 0 <= i < input@.len() ==> !(#[trigger] input@[i]).constant {
                assert forall|i: int| 0 <= i < len implies !(#[trigger] bits@[i]).constant by {
                    assert(bits@[i] == input@[i]);
                }
            }
            if forall|i: int| 0 <= i < input@.len() ==> (#[trigger] input@[i]).constant {
                assert forall|i: int| 0 <= i < bits@.len() implies (#[trigger] bits@[i]).constant by {
                    if i < len {
                        assert(bits@[i] == input@[i]);
                    }
                }
            }
        }
        let sum = self.sum_windows(cs, &bits, len);
        let ok = cs.is_satisfied();
        cs.satisfied = was_satisfied && ok;
        if ok {
            Ok(sum.to_x_coordinate())
        } else {
            Err(HashError::ZeroDivisor)
        }
    }

    /// The complete sum of the window points of the padded bits `bits`,
    /// whose first `len` bits are the input.
    #[verifier::rlimit(40)]
    fn sum_windows(&self, cs: &mut Circuit, bits: &Vec<Boolean>, len: usize) -> (r: Group)
        requires
            self.wf(),
            WINDOW_SIZE * 3 < len <= NUM_WINDOWS * WINDOW_SIZE * 3,
            bits@.len() == len + (3 - len % 3) % 3,
            forall|i: int| len <= i < bits@.len() ==> (#[trigger] bits@[i]).constant,
            old(cs).room(16 * len as int + 62),
        ensures
            r.wf(),
            r.point() == hash_acc(
                bit_values(bits@),
                self.base_points(),
                WINDOW_SIZE as int,
                num_windows((bits@.len() / 3) as int, WINDOW_SIZE as int) as nat,
            ),
            grew_by_at_most(*old(cs), *final(cs), 16 * len as int + 62),
            final(cs).satisfied == (old(cs).satisfied && hash_ok(
                bit_values(bits@),
                self.base_points(),
                WINDOW_SIZE as int,
                num_windows((bits@.len() / 3) as int, WINDOW_SIZE as int) as nat,
            )),
            (forall|i: int| 0 <= i < len ==> !(#[trigger] bits@[i]).constant) ==> {
                &&& final(cs).num_private == old(cs).num_private + hash_private_cost(len as int, WINDOW_SIZE as int)
                &&& final(cs).num_constraints == old(cs).num_constraints + hash_constraint_cost(
                    len as int,
                    WINDOW_SIZE as int,
                )
            },
            (forall|i: int| 0 <= i < bits@.len() ==> (#[trigger] bits@[i]).constant) ==> {
                &&& final(cs).num_private == old(cs).num_private
                &&& final(cs).num_constraints == old(cs).num_constraints
            },
    {
        let ghost bv = bit_values(bits@);
        let ghost all_var = forall|i: int| 0 <= i < len ==> !(#[trigger] bits@[i]).constant;
        let ghost all_constant = forall|i: int| 0 <= i < bits@.len() ==> (#[trigger] bits@[i]).constant;
        let ghost c1 = *cs;
        let c = bits.len() / BHP_CHUNK_SIZE;
        let nw = (c + WINDOW_SIZE - 1) / WINDOW_SIZE;
        proof {
            assert(c <= NUM_WINDOWS * WINDOW_SIZE);
            lemma_window_count(c as int, WINDOW_SIZE as int, NUM_WINDOWS as int);
        }
        let mut acc = Group::zero();
        let mut w: usize = 0;
        while w < nw
            invariant
                self.wf(),
                bits@.len() % 3 == 0,
                c == bits@.len() / 3,
                3 * c <= len + 2,
                WINDOW_SIZE < c <= NUM_WINDOWS * WINDOW_SIZE,
                nw == num_windows(c as int, WINDOW_SIZE as int),
                nw <= NUM_WINDOWS,
                nw * WINDOW_SIZE < c + WINDOW_SIZE,
                c <= nw * WINDOW_SIZE,
                bv == bit_values(bits@),
                0 <= w <= nw,
                acc.wf(),
                acc.point() == hash_acc(bv, self.base_points(), WINDOW_SIZE as int, w as nat),
                cs.satisfied == (c1.satisfied && hash_ok(bv, self.base_points(), WINDOW_SIZE as int, w as nat)),
                grew_by_at_most(c1, *cs, 19 * w * WINDOW_SIZE),
                c1.room(16 * len as int + 62),
                all_var == forall|i: int| 0 <= i < len ==> !(#[trigger] bits@[i]).constant,
                all_constant == forall|i: int| 0 <= i < bits@.len() ==> (#[trigger] bits@[i]).constant,
                all_var ==> {
                    &&& acc.x.constant == (w == 0)
                    &&& acc.y.constant == (w == 0)
                    &&& cs.num_private == c1.num_private + prefix_cost(
                        bits@,
                        chunks_before(c as int, WINDOW_SIZE as int, w as int) as nat,
                    ) + (if w == 0 { 0int } else { 10 * w - 4 })
                    &&& cs.num_constraints == c1.num_constraints + prefix_cost(
                        bits@,
                        chunks_before(c as int, WINDOW_SIZE as int, w as int) as nat,
                    ) + (if w == 0 { 0int } else { 11 * w - 4 })
                },
                all_constant ==> {
                    &&& acc.is_constant()
                    &&& cs.num_private == c1.num_private
                    &&& cs.num_constraints == c1.num_constraints
                },
            decreases nw - w,
        {
            proof {
                lemma_window_count(c as int, WINDOW_SIZE as int, NUM_WINDOWS as int);
                assert((w as int) * (WINDOW_SIZE as int) < c);
                assert(((w + 1) as int) * (WINDOW_SIZE as int) <= (nw as int) * (WINDOW_SIZE as int));
                assert(19 * w * WINDOW_SIZE + 19 * WINDOW_SIZE == 19 * ((w + 1) * WINDOW_SIZE)) by (nonlinear_arith);
                assert(19 * ((w + 1) * WINDOW_SIZE) == 19 * (w + 1) * WINDOW_SIZE) by (nonlinear_arith);
                let start = w * WINDOW_SIZE;
                let end = start + window_len(c as int, WINDOW_SIZE as int, w as int);
                assert(((w + 1) as int) * (WINDOW_SIZE as int) == (w as int) * (WINDOW_SIZE as int) + WINDOW_SIZE)
                    by (nonlinear_arith);
                assert(chunks_before(c as int, WINDOW_SIZE as int, w as int) == start);
                assert(chunks_before(c as int, WINDOW_SIZE as int, (w + 1) as int) == end);
                if all_var {
                    assert forall|g: int| start <= g < end implies !(#[trigger] bits@[3 * g]).constant by {
                        assert(3 * g < len);
                    }
                }
            }
            let g = self.window(cs, bits, w);
            assert(acc.add_cost(g) <= 7);
            acc = cs.group_add(&acc, &g);
            w = w + 1;
        }
        proof {
            assert(19 * nw * WINDOW_SIZE == 19 * (nw * WINDOW_SIZE)) by (nonlinear_arith);
            assert(chunks_before(c as int, WINDOW_SIZE as int, nw as int) == c);
            assert(c == (len + 2) / 3);
            if all_var {
                lemma_prefix_cost(bits@, len as int, c as nat);
            }
        }
        acc
    }

    /// The Edwards point of window `w` of the padded bits `bits`.
    fn window(&self, cs: &mut Circuit, bits: &Vec<Boolean>, w: usize) -> (r: Group)
        requires
            self.wf(),
            bits@.len() % 3 == 0,
            w < NUM_WINDOWS,
            0 < WINDOW_SIZE,
            w * WINDOW_SIZE < bits@.len() / 3,
            old(cs).room(5 * WINDOW_SIZE + 16),
        ensures
            r.wf(),
            r.point() == window_point(bit_values(bits@), self.base_points(), WINDOW_SIZE as int, w as int),
            grew_by_at_most(*old(cs), *final(cs), 5 * WINDOW_SIZE + 7),
            final(cs).satisfied == (old(cs).satisfied && window_point_ok(
                bit_values(bits@),
                self.base_points(),
                WINDOW_SIZE as int,
                w as int,
            )),
            ({
                let start = w * WINDOW_SIZE;
                let end = start + window_len((bits@.len() / 3) as int, WINDOW_SIZE as int, w as int);
                (forall|g: int| start <= g < end ==> !(#[trigger] bits@[3 * g]).constant) ==> {
                    &&& !r.x.constant && !r.y.constant
                    &&& final(cs).num_private == old(cs).num_private + prefix_cost(bits@, end as nat) - prefix_cost(
                        bits@,
                        start as nat,
                    ) + 3
                    &&& final(cs).num_constraints == old(cs).num_constraints + prefix_cost(bits@, end as nat)
                        - prefix_cost(bits@, start as nat) + 4
                }
            }),
            (forall|i: int| 0 <= i < bits@.len() ==> (#[trigger] bits@[i]).constant) ==> {
                &&& r.is_constant()
                &&& final(cs).num_private == old(cs).num_private
                &&& final(cs).num_constraints == old(cs).num_constraints
            },
    {
        let c = bits.len() / 3;
        let start = w * WINDOW_SIZE;
        let n = if c - start < WINDOW_SIZE { c - start } else { WINDOW_SIZE };
        let ghost bv = bit_values(bits@);
        let ghost bp = self.base_points();
        let ghost c0 = *cs;
        let ghost leads = forall|g: int|
            start <= g < start + n ==> !(#[trigger] bits@[3 * g]).constant;
        let ghost all_constant = forall|i: int| 0 <= i < bits@.len() ==> (#[trigger] bits@[i]).constant;
        let bases = &self.bases[w];
        assert(bases@.len() >= WINDOW_SIZE);
        let mut acc = (Field::zero(), Field::zero());
        let mut j: usize = 0;
        while j < n
            invariant
                self.wf(),
                w < NUM_WINDOWS,
                bases == self.bases@[w as int],
                bv == bit_values(bits@),
                bp == self.base_points(),
                c == bits@.len() / 3,
                bits@.len() % 3 == 0,
                start == w * WINDOW_SIZE,
                n == window_len(c as int, WINDOW_SIZE as int, w as int),
                start + n <= c,
                n <= WINDOW_SIZE,
                0 <= j <= n,
                acc.0.wf() && acc.1.wf(),
                j > 0 ==> (acc.0.val(), acc.1.val()) == window_acc(bv, bp, WINDOW_SIZE as int, w as int, j as nat),
                cs.satisfied == (c0.satisfied && window_ok(bv, bp, WINDOW_SIZE as int, w as int, j as nat)),
                grew_by_at_most(c0, *cs, 5 * j),
                c0.room(5 * WINDOW_SIZE + 16),
                leads == forall|g: int| start <= g < start + n ==> !(#[trigger] bits@[3 * g]).constant,
                all_constant == forall|i: int| 0 <= i < bits@.len() ==> (#[trigger] bits@[i]).constant,
                leads && j > 0 ==> {
                    &&& !acc.0.constant && !acc.1.constant
                    &&& cs.num_private == c0.num_private + prefix_cost(bits@, (start + j) as nat) - prefix_cost(
                        bits@,
                        start as nat,
                    ) - 3
                    &&& cs.num_constraints == c0.num_constraints + prefix_cost(bits@, (start + j) as nat)
                        - prefix_cost(bits@, start as nat) - 3
                },
                j == 0 ==> cs.num_private == c0.num_private && cs.num_constraints == c0.num_constraints,
                all_constant ==> {
                    &&& acc.0.constant && acc.1.constant
                    &&& cs.num_private == c0.num_private
                    &&& cs.num_constraints == c0.num_constraints
                },
            decreases n - j,
        {
            let g = start + j;
            assert(g < c);
            assert(3 * g + 2 < bits.len());
            assert(bases@[j as int].wf() && bases@[j as int].is_constant());
            proof {
                assert(bp[w as int][j as int] == bases@[j as int].point());
                assert(bv[3 * g] == bits@[3 * g].value);
                assert(bv[3 * g + 1] == bits@[3 * g + 1].value);
                assert(bv[3 * g + 2] == bits@[3 * g + 2].value);
            }
            assert(leads ==> !bits@[3 * g].constant);
            assert(all_constant ==> bits@[3 * g].constant && bits@[3 * g + 1].constant && bits@[3 * g + 2].constant);
            if j == 0 {
                acc = chunk_point_of(cs, &bits[3 * g], &bits[3 * g + 1], &bits[3 * g + 2], &bases[j]);
            } else {
                acc = chunk_step(cs, &acc, &bits[3 * g], &bits[3 * g + 1], &bits[3 * g + 2], &bases[j]);
            }
            assert(prefix_cost(bits@, (g + 1) as nat) == prefix_cost(bits@, g as nat) + chunk_cost(
                bits@[3 * g + 1].constant,
            ));
            j = j + 1;
        }
        let one = Field::one();
        let ex = cs.div(&acc.0, &acc.1);
        let ey = cs.div(&acc.0.minus(&one), &acc.0.plus(&one));
        cs.group_from_xy(&ex, &ey)
    }
}

/// Padding is idempotent, so hashing an input equals hashing it padded
/// with zeros to whole chunks.
pub proof fn lemma_padding(bits: Seq<bool>, bases: Seq<Seq<(int, int)>>, ws: int)
    ensures
        pad(pad(bits)) == pad(bits),
        bhp_hash(pad(bits), bases, ws) == bhp_hash(bits, bases, ws),
{
    let p = pad(bits);
    assert(p.len() % 3 == 0);
    assert(pad(p) =~= p);
}

/// A rejected input length.
#[derive(Clone, Copy, Debug, PartialEq, Eq, Structural)]
pub enum HashError {
    /// The input has no more bits than this bound, one window's worth.
    InputTooShort(usize),
    /// The input has more bits than this bound, the parameters' capacity.
    InputTooLong(usize),
    /// Some advice divides by zero (two equal x-coordinates in an incomplete
    /// addition, a degenerate candidate or window sum), or a window point is
    /// off the curve: the circuit cannot be satisfied.
    ZeroDivisor,
}

} // verus!
