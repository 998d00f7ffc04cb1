//! Exact non-negative rational arithmetic for the layout engine.
//!
//! Every geometric quantity (coordinate, extent, surface) is a fraction of
//! two machine integers. Specification-level reasoning happens over `(int,
//! int)` pairs, so sums and products never overflow in proofs; executable
//! operations reduce by a common divisor and report failure instead of
//! overflowing.

use vstd::prelude::*;
use vstd::arithmetic::div_mod::{lemma_add_mod_noop, lemma_fundamental_div_mod,
    lemma_mod_multiples_basic, lemma_small_mod};

verus! {

/// A rational value `p.0 / p.1` at the specification level.
pub open spec fn rq_wf(p: (int, int)) -> bool {
    p.0 >= 0 && p.1 >= 1
}

/// The two pairs denote the same rational value.
pub open spec fn rq_eq(a: (int, int), b: (int, int)) -> bool {
    a.0 * b.1 == b.0 * a.1
}

/// `a` is at most `b` as rational values (denominators positive).
pub open spec fn rq_le(a: (int, int), b: (int, int)) -> bool {
    a.0 * b.1 <= b.0 * a.1
}

pub open spec fn rq_add(a: (int, int), b: (int, int)) -> (int, int) {
    (a.0 * b.1 + b.0 * a.1, a.1 * b.1)
}

pub open spec fn rq_sub(a: (int, int), b: (int, int)) -> (int, int) {
    (a.0 * b.1 - b.0 * a.1, a.1 * b.1)
}

pub open spec fn rq_mul(a: (int, int), b: (int, int)) -> (int, int) {
    (a.0 * b.0, a.1 * b.1)
}

pub open spec fn rq_div(a: (int, int), b: (int, int)) -> (int, int) {
    (a.0 * b.1, a.1 * b.0)
}

pub proof fn lemma_rq_eq_sym(a: (int, int), b: (int, int))
    requires
        rq_eq(a, b),
    ensures
        rq_eq(b, a),
{
}

pub proof fn lemma_rq_eq_trans(a: (int, int), b: (int, int), c: (int, int))
    requires
        rq_wf(a),
        rq_wf(b),
        rq_wf(c),
        rq_eq(a, b),
        rq_eq(b, c),
    ensures
        rq_eq(a, c),
{
    assert(a.0 * c.1 == c.0 * a.1) by (nonlinear_arith)
        requires
            a.0 * b.1 == b.0 * a.1,
            b.0 * c.1 == c.0 * b.1,
            b.1 >= 1,
    ;
}

/// Replacing both operands by equal-valued pairs leaves the sum's value
/// unchanged.
pub proof fn lemma_rq_add_eq(a: (int, int), b: (int, int), x: (int, int), y: (int, int))
    requires
        rq_wf(a),
        rq_wf(b),
        rq_wf(x),
        rq_wf(y),
        rq_eq(a, x),
        rq_eq(b, y),
    ensures
        rq_eq(rq_add(a, b), rq_add(x, y)),
{
    assert(a.0 * b.1 * (x.1 * y.1) == x.0 * y.1 * (a.1 * b.1)) by (nonlinear_arith)
        requires
            a.0 * x.1 == x.0 * a.1,
    ;
    assert(b.0 * a.1 * (x.1 * y.1) == y.0 * x.1 * (a.1 * b.1)) by (nonlinear_arith)
        requires
            b.0 * y.1 == y.0 * b.1,
    ;
    assert((a.0 * b.1 + b.0 * a.1) * (x.1 * y.1) == (x.0 * y.1 + y.0 * x.1) * (a.1 * b.1))
        by (nonlinear_arith)
        requires
            a.0 * b.1 * (x.1 * y.1) == x.0 * y.1 * (a.1 * b.1),
            b.0 * a.1 * (x.1 * y.1) == y.0 * x.1 * (a.1 * b.1),
    ;
}

/// `rq_le` respects value equality on both sides.
pub proof fn lemma_rq_le_eq(a: (int, int), b: (int, int), x: (int, int), y: (int, int))
    requires
        rq_wf(a),
        rq_wf(b),
        rq_wf(x),
        rq_wf(y),
        rq_eq(a, x),
        rq_eq(b, y),
        rq_le(a, b),
    ensures
        rq_le(x, y),
{
    assert(x.0 * y.1 <= y.0 * x.1) by (nonlinear_arith)
        requires
            a.0 * x.1 == x.0 * a.1,
            b.0 * y.1 == y.0 * b.1,
            a.0 * b.1 <= b.0 * a.1,
            a.1 >= 1,
            b.1 >= 1,
            x.1 >= 1,
            y.1 >= 1,
    ;
}

pub proof fn lemma_rq_le_trans(a: (int, int), b: (int, int), c: (int, int))
    requires
        rq_wf(a),
        rq_wf(b),
        rq_wf(c),
        rq_le(a, b),
        rq_le(b, c),
    ensures
        rq_le(a, c),
{
    assert(a.0 * c.1 <= c.0 * a.1) by (nonlinear_arith)
        requires
            a.0 * b.1 <= b.0 * a.1,
            b.0 * c.1 <= c.0 * b.1,
            a.1 >= 1,
            b.1 >= 1,
            c.1 >= 1,
            a.0 >= 0,
            c.0 >= 0,
    ;
}

/// Positivity carries across value equality.
pub proof fn lemma_rq_eq_pos(a: (int, int), b: (int, int))
    requires
        rq_wf(a),
        rq_wf(b),
        rq_eq(a, b),
        a.0 >= 1,
    ensures
        b.0 >= 1,
{
    assert(b.0 >= 1) by (nonlinear_arith)
        requires
            a.0 * b.1 == b.0 * a.1,
            a.0 >= 1,
            a.1 >= 1,
            b.1 >= 1,
            b.0 >= 0,
    ;
}

/// A value equal to a quotient multiplies back to the dividend: from
/// `h == s / w` follows `w * h == s`.
pub proof fn lemma_rq_div_exact(s: (int, int), w: (int, int), h: (int, int))
    requires
        rq_wf(s),
        rq_wf(w),
        rq_wf(h),
        w.0 >= 1,
        rq_eq(h, rq_div(s, w)),
    ensures
        rq_eq(rq_mul(w, h), s),
{
    assert((w.0 * h.0) * s.1 == s.0 * (w.1 * h.1)) by (nonlinear_arith)
        requires
            h.0 * (s.1 * w.0) == s.0 * w.1 * h.1,
    ;
}

/// Sum of a sequence of rational pairs, left to right.
pub open spec fn rq_sum(s: Seq<(int, int)>) -> (int, int)
    decreases s.len(),
{
    if s.len() == 0 {
        (0, 1)
    } else {
        rq_add(rq_sum(s.drop_last()), s.last())
    }
}

pub open spec fn rq_all_wf(s: Seq<(int, int)>) -> bool {
    forall|i: int| 0 <= i < s.len() ==> rq_wf(#[trigger] s[i])
}

pub proof fn lemma_rq_sum_wf(s: Seq<(int, int)>)
    requires
        rq_all_wf(s),
    ensures
        rq_wf(rq_sum(s)),
    decreases s.len(),
{
    if s.len() > 0 {
        assert(rq_all_wf(s.drop_last()));
        lemma_rq_sum_wf(s.drop_last());
        let a = rq_sum(s.drop_last());
        let b = s.last();
        assert(rq_wf(rq_add(a, b))) by (nonlinear_arith)
            requires
                rq_wf(a),
                rq_wf(b),
        ;
    }
}

/// Two pointwise equal-valued sequences have equal-valued sums.
pub proof fn lemma_rq_sum_eq(s: Seq<(int, int)>, t: Seq<(int, int)>)
    requires
        s.len() == t.len(),
        rq_all_wf(s),
        rq_all_wf(t),
        forall|i: int| 0 <= i < s.len() ==> rq_eq(#[trigger] s[i], t[i]),
    ensures
        rq_eq(rq_sum(s), rq_sum(t)),
    decreases s.len(),
{
    if s.len() == 0 {
    } else {
        assert(rq_all_wf(s.drop_last()));
        assert(rq_all_wf(t.drop_last()));
        assert(forall|i: int|
            0 <= i < s.drop_last().len() ==> rq_eq(#[trigger] s.drop_last()[i], t.drop_last()[i]));
        lemma_rq_sum_eq(s.drop_last(), t.drop_last());
        lemma_rq_sum_wf(s.drop_last());
        lemma_rq_sum_wf(t.drop_last());
        assert(rq_eq(s.last(), t.last()));
        lemma_rq_add_eq(rq_sum(s.drop_last()), s.last(), rq_sum(t.drop_last()), t.last());
    }
}

/// Replacing both factors by equal-valued pairs leaves the product's
/// value unchanged.
pub proof fn lemma_rq_mul_eq(a: (int, int), b: (int, int), x: (int, int), y: (int, int))
    requires
        rq_wf(a),
        rq_wf(b),
        rq_wf(x),
        rq_wf(y),
        rq_eq(a, x),
        rq_eq(b, y),
    ensures
        rq_wf(rq_mul(a, b)),
        rq_wf(rq_mul(x, y)),
        rq_eq(rq_mul(a, b), rq_mul(x, y)),
{
    assert((a.0 * b.0) * (x.1 * y.1) == (x.0 * y.0) * (a.1 * b.1) && a.1 * b.1 >= 1 && x.1 * y.1
        >= 1 && a.0 * b.0 >= 0 && x.0 * y.0 >= 0) by (nonlinear_arith)
        requires
            a.0 * x.1 == x.0 * a.1,
            b.0 * y.1 == y.0 * b.1,
            a.1 >= 1,
            b.1 >= 1,
            x.1 >= 1,
            y.1 >= 1,
            a.0 >= 0,
            b.0 >= 0,
            x.0 >= 0,
            y.0 >= 0,
    ;
}

/// Replacing dividend and divisor by equal-valued pairs leaves the
/// quotient's value unchanged.
pub proof fn lemma_rq_div_eq(a: (int, int), b: (int, int), x: (int, int), y: (int, int))
    requires
        rq_wf(a),
        rq_wf(b),
        rq_wf(x),
        rq_wf(y),
        rq_eq(a, x),
        rq_eq(b, y),
    ensures
        rq_eq(rq_div(a, b), rq_div(x, y)),
{
    assert((a.0 * b.1) * (x.1 * y.0) == (x.0 * y.1) * (a.1 * b.0)) by (nonlinear_arith)
        requires
            a.0 * x.1 == x.0 * a.1,
            b.0 * y.1 == y.0 * b.1,
    ;
}

/// The order is total: what is not below is above.
pub proof fn lemma_rq_le_total(a: (int, int), b: (int, int))
    requires
        rq_wf(a),
        rq_wf(b),
        !rq_le(a, b),
    ensures
        rq_le(b, a),
{
}

/// Mutually bounded values are equal.
pub proof fn lemma_rq_le_antisym(a: (int, int), b: (int, int))
    requires
        rq_wf(a),
        rq_wf(b),
        rq_le(a, b),
        rq_le(b, a),
    ensures
        rq_eq(a, b),
{
}

/// Multiplying both sides of an inequality by the same non-negative value
/// keeps it.
pub proof fn lemma_rq_mul_le_mono(c: (int, int), a: (int, int), b: (int, int))
    requires
        rq_wf(c),
        rq_wf(a),
        rq_wf(b),
        rq_le(a, b),
    ensures
        rq_le(rq_mul(c, a), rq_mul(c, b)),
{
    assert((c.0 * a.0) * (c.1 * b.1) <= (c.0 * b.0) * (c.1 * a.1)) by (nonlinear_arith)
        requires
            a.0 * b.1 <= b.0 * a.1,
            c.0 >= 0,
            c.1 >= 1,
    ;
}

/// Stepping a repeated band width: `k` bands and one more make `k + 1`.
pub proof fn lemma_rq_mul_int_succ(k: int, x: (int, int))
    requires
        k >= 0,
        rq_wf(x),
    ensures
        rq_eq(rq_add(rq_mul((k, 1int), x), x), rq_mul((k + 1, 1int), x)),
{
    assert((k * x.0 * x.1 + x.0 * (x.1 * 1)) * (x.1 * 1) == (k + 1) * x.0 * ((x.1 * 1) * x.1))
        by (nonlinear_arith)
    ;
}

/// A sum of positive rationals is positive.
pub proof fn lemma_rq_sum_pos(s: Seq<(int, int)>)
    requires
        rq_all_wf(s),
        s.len() >= 1,
        forall|i: int| 0 <= i < s.len() ==> (#[trigger] s[i]).0 >= 1,
    ensures
        rq_wf(rq_sum(s)),
        rq_sum(s).0 >= 1,
    decreases s.len(),
{
    lemma_rq_sum_wf(s);
    let a = rq_sum(s.drop_last());
    let b = s.last();
    if s.len() == 1 {
        assert(rq_sum(s.drop_last()) == (0int, 1int));
        assert(rq_sum(s).0 == 0 * b.1 + b.0 * 1);
    } else {
        assert(rq_all_wf(s.drop_last()));
        lemma_rq_sum_pos(s.drop_last());
        assert(rq_sum(s).0 >= 1) by (nonlinear_arith)
            requires
                rq_sum(s) == rq_add(a, b),
                a.0 >= 1,
                a.1 >= 1,
                b.0 >= 1,
                b.1 >= 1,
        ;
    }
}

/// Plain integer sum of the numerators of a sequence.
pub open spec fn rq_num_sum(s: Seq<(int, int)>) -> int
    decreases s.len(),
{
    if s.len() == 0 {
        0
    } else {
        rq_num_sum(s.drop_last()) + s.last().0
    }
}

/// A sum over a common denominator collapses to the sum of numerators.
pub proof fn lemma_rq_sum_common_den(s: Seq<(int, int)>, d: int)
    requires
        d >= 1,
        forall|i: int| 0 <= i < s.len() ==> (#[trigger] s[i]).1 == d && s[i].0 >= 0,
    ensures
        rq_wf(rq_sum(s)),
        rq_num_sum(s) >= 0,
        rq_eq(rq_sum(s), (rq_num_sum(s), d)),
    decreases s.len(),
{
    if s.len() == 0 {
        assert(0int * d == 0int * 1int) by (nonlinear_arith);
        assert(rq_eq((0int, 1int), (0int, d)));
    } else {
        let s0 = s.drop_last();
        assert(forall|i: int| 0 <= i < s0.len() ==> (#[trigger] s0[i]).1 == d && s0[i].0 >= 0);
        lemma_rq_sum_common_den(s0, d);
        let a = rq_sum(s0);
        let b = s.last();
        let n0 = rq_num_sum(s0);
        assert(rq_wf(rq_add(a, b)) && rq_eq(rq_add(a, b), (n0 + b.0, d))) by (nonlinear_arith)
            requires
                rq_wf(a),
                rq_eq(a, (n0, d)),
                n0 >= 0,
                b.1 == d,
                b.0 >= 0,
                d >= 1,
        ;
    }
}

/// An executable non-negative rational: `num / den` with `den >= 1`.
#[derive(Clone, Copy, Debug)]
pub struct Frac {
    pub num: u64,
    pub den: u64,
}

/// Greatest common divisor, Euclid's recursion.
pub open spec fn gcd_spec(a: nat, b: nat) -> nat
    decreases b,
{
    if b == 0 {
        a
    } else {
        gcd_spec(b, a % b)
    }
}

/// A value divisible by `b` and one divisible by `d` combine, over any
/// multiplier, into a value divisible by `d` when `b` is.
proof fn lemma_divides_linear(q: int, b: int, r: int, d: int)
    requires
        d >= 1,
        b % d == 0,
        r % d == 0,
    ensures
        (q * b + r) % d == 0,
{
    let k = b / d;
    lemma_fundamental_div_mod(b, d);
    assert(q * b == (q * k) * d) by (nonlinear_arith)
        requires
            b == d * k,
    ;
    lemma_mod_multiples_basic(q * k, d);
    assert((q * b) % d == 0);
    lemma_add_mod_noop(q * b, r, d);
    assert(((q * b) % d + r % d) % d == (q * b + r) % d);
    lemma_small_mod(0nat, d as nat);
    assert((q * b + r) % d == 0);
}

#[verifier::rlimit(50)]
proof fn lemma_gcd_divides(a: nat, b: nat)
    requires
        a >= 1,
    ensures
        gcd_spec(a, b) >= 1,
        a as int % (gcd_spec(a, b) as int) == 0,
        b as int % (gcd_spec(a, b) as int) == 0,
    decreases b,
{
    if b == 0 {
    } else {
        lemma_gcd_divides(b, a % b);
        let g = gcd_spec(b, a % b) as int;
        assert(gcd_spec(a, b) == gcd_spec(b, a % b));
        lemma_fundamental_div_mod(a as int, b as int);
        lemma_divides_linear(a as int / b as int, b as int, a as int % b as int, g);
        assert(a as int == (a as int / b as int) * (b as int) + (a as int % b as int))
            by (nonlinear_arith)
            requires
                a as int == (b as int) * (a as int / b as int) + (a as int % b as int),
        ;
        assert(a as int % g == 0);
    }
}

fn gcd_u128(a: u128, b: u128) -> (g: u128)
    requires
        a >= 1,
    ensures
        g == gcd_spec(a as nat, b as nat),
        g >= 1,
        a as int % g as int == 0,
        b as int % g as int == 0,
    decreases b,
{
    proof {
        lemma_gcd_divides(a as nat, b as nat);
    }
    if b == 0 {
        a
    } else {
        gcd_u128(b, a % b)
    }
}

/// Whether the fraction `n / d` still fits the machine representation once
/// reduced by the greatest common divisor.
pub open spec fn reducible(n: int, d: int) -> bool {
    n / gcd_spec(d as nat, n as nat) as int <= u64::MAX as int && d / gcd_spec(
        d as nat,
        n as nat,
    ) as int <= u64::MAX as int
}

/// The canonical representation of a non-negative rational pair: both
/// parts divided by their greatest common divisor.
pub open spec fn canon(p: (int, int)) -> (int, int) {
    let g = gcd_spec(p.1 as nat, p.0 as nat) as int;
    (p.0 / g, p.1 / g)
}

/// What exact addition of two represented rationals produces: the
/// canonical sum, or nothing exactly when an intermediate product or the
/// reduced result leaves the machine range.
pub open spec fn add_spec(a: (int, int), b: (int, int)) -> Option<(int, int)> {
    let p = rq_add(a, b);
    if p.0 > u128::MAX as int || !reducible(p.0, p.1) {
        None
    } else {
        Some(canon(p))
    }
}

/// What exact subtraction produces: the canonical difference, or nothing
/// exactly when the difference is negative or leaves the machine range.
pub open spec fn sub_spec(a: (int, int), b: (int, int)) -> Option<(int, int)> {
    let p = rq_sub(a, b);
    if p.0 < 0 || !reducible(p.0, p.1) {
        None
    } else {
        Some(canon(p))
    }
}

/// What exact multiplication produces: the canonical product, or nothing
/// exactly when the reduced result leaves the machine range.
pub open spec fn mul_spec(a: (int, int), b: (int, int)) -> Option<(int, int)> {
    let p = rq_mul(a, b);
    if !reducible(p.0, p.1) {
        None
    } else {
        Some(canon(p))
    }
}

/// What exact division produces: the canonical quotient, or nothing
/// exactly when the reduced result leaves the machine range.
pub open spec fn div_spec(a: (int, int), b: (int, int)) -> Option<(int, int)> {
    let p = rq_div(a, b);
    if !reducible(p.0, p.1) {
        None
    } else {
        Some(canon(p))
    }
}

/// Reduce `n / d` by the greatest common divisor and pack it into a `Frac`
/// if it fits; `None` exactly when the reduced parts exceed the machine
/// range.
fn reduce(n: u128, d: u128) -> (r: Option<Frac>)
    requires
        d >= 1,
    ensures
        match r {
            Some(f) => f.wf() && rq_eq(f@, (n as int, d as int)) && reducible(n as int, d as int)
                && f@ == canon((n as int, d as int)),
            None => !reducible(n as int, d as int),
        },
{
    let g = gcd_u128(d, n);
    let rn = n / g;
    let rd = d / g;
    proof {
        lemma_fundamental_div_mod(n as int, g as int);
        lemma_fundamental_div_mod(d as int, g as int);
        assert(rd >= 1) by (nonlinear_arith)
            requires
                d as int == g as int * (d as int / g as int) + 0,
                g >= 1,
                d >= 1,
                rd == d / g,
        ;
        assert(rn as int * d as int == n as int * rd as int) by (nonlinear_arith)
            requires
                n as int == g as int * rn as int,
                d as int == g as int * rd as int,
                g >= 1,
        ;
    }
    if rn <= u64::MAX as u128 && rd <= u64::MAX as u128 {
        Some(Frac { num: rn as u64, den: rd as u64 })
    } else {
        None
    }
}

impl View for Frac {
    type V = (int, int);

    open spec fn view(&self) -> (int, int) {
        (self.num as int, self.den as int)
    }
}

impl Frac {
    /// The denominator is positive.
    pub open spec fn wf(self) -> bool {
        self.den >= 1
    }

    pub fn from_u64(n: u64) -> (r: Frac)
        ensures
            r.wf(),
            r@ == (n as int, 1int),
    {
        Frac { num: n, den: 1 }
    }

    pub fn zero() -> (r: Frac)
        ensures
            r.wf(),
            r@ == (0int, 1int),
    {
        Frac { num: 0, den: 1 }
    }

    pub fn is_zero(&self) -> (r: bool)
        requires
            self.wf(),
        ensures
            r == (self@.0 == 0),
    {
        self.num == 0
    }

    /// Exact product; `None` only when the reduced result leaves the
    /// machine range.
    pub fn mul(&self, o: &Frac) -> (r: Option<Frac>)
        requires
            self.wf(),
            o.wf(),
        ensures
            match r {
                Some(f) => f.wf() && rq_eq(f@, rq_mul(self@, o@)) && reducible(
                    rq_mul(self@, o@).0,
                    rq_mul(self@, o@).1,
                ) && mul_spec(self@, o@) == Some(f@),
                None => !reducible(rq_mul(self@, o@).0, rq_mul(self@, o@).1) && mul_spec(
                    self@,
                    o@,
                ) is None,
            },
    {
        proof {
            lemma_u64_mul_fits(self.num, o.num);
            lemma_u64_mul_fits(self.den, o.den);
        }
        let n: u128 = (self.num as u128) * (o.num as u128);
        let d: u128 = (self.den as u128) * (o.den as u128);
        proof {
            assert(d >= 1) by (nonlinear_arith)
                requires
                    self.den >= 1,
                    o.den >= 1,
                    d == self.den as int * o.den as int,
            ;
        }
        reduce(n, d)
    }

    /// Exact quotient; the divisor must be a positive value.
    pub fn div(&self, o: &Frac) -> (r: Option<Frac>)
        requires
            self.wf(),
            o.wf(),
            o@.0 >= 1,
        ensures
            match r {
                Some(f) => f.wf() && rq_eq(f@, rq_div(self@, o@)) && reducible(
                    rq_div(self@, o@).0,
                    rq_div(self@, o@).1,
                ) && div_spec(self@, o@) == Some(f@),
                None => !reducible(rq_div(self@, o@).0, rq_div(self@, o@).1) && div_spec(
                    self@,
                    o@,
                ) is None,
            },
    {
        proof {
            lemma_u64_mul_fits(self.num, o.den);
            lemma_u64_mul_fits(self.den, o.num);
        }
        let n: u128 = (self.num as u128) * (o.den as u128);
        let d: u128 = (self.den as u128) * (o.num as u128);
        proof {
            assert(d >= 1) by (nonlinear_arith)
                requires
                    self.den >= 1,
                    o.num >= 1,
                    d == self.den as int * o.num as int,
            ;
        }
        reduce(n, d)
    }

    /// Exact sum; `None` exactly when the result leaves the machine range.
    pub fn add(&self, o: &Frac) -> (r: Option<Frac>)
        requires
            self.wf(),
            o.wf(),
        ensures
            match r {
                Some(f) => f.wf() && rq_eq(f@, rq_add(self@, o@)) && rq_add(self@, o@).0
                    <= u128::MAX as int && reducible(rq_add(self@, o@).0, rq_add(self@, o@).1)
                    && add_spec(self@, o@) == Some(f@),
                None => (rq_add(self@, o@).0 > u128::MAX as int || !reducible(
                    rq_add(self@, o@).0,
                    rq_add(self@, o@).1,
                )) && add_spec(self@, o@) is None,
            },
    {
        proof {
            lemma_u64_mul_fits(self.num, o.den);
            lemma_u64_mul_fits(o.num, self.den);
            lemma_u64_mul_fits(self.den, o.den);
        }
        let n1: u128 = (self.num as u128) * (o.den as u128);
        let n2: u128 = (o.num as u128) * (self.den as u128);
        let d: u128 = (self.den as u128) * (o.den as u128);
        proof {
            assert(d >= 1) by (nonlinear_arith)
                requires
                    self.den >= 1,
                    o.den >= 1,
                    d == self.den as int * o.den as int,
            ;
        }
        match n1.checked_add(n2) {
            Some(n) => reduce(n, d),
            None => None,
        }
    }

    /// Exact difference; `None` exactly when the difference would be
    /// negative or leaves the machine range.
    pub fn sub(&self, o: &Frac) -> (r: Option<Frac>)
        requires
            self.wf(),
            o.wf(),
        ensures
            match r {
                Some(f) => f.wf() && rq_eq(f@, rq_sub(self@, o@)) && rq_le(o@, self@) && reducible(
                    rq_sub(self@, o@).0,
                    rq_sub(self@, o@).1,
                ) && sub_spec(self@, o@) == Some(f@),
                None => (rq_sub(self@, o@).0 < 0 || !reducible(
                    rq_sub(self@, o@).0,
                    rq_sub(self@, o@).1,
                )) && sub_spec(self@, o@) is None,
            },
    {
        proof {
            lemma_u64_mul_fits(self.num, o.den);
            lemma_u64_mul_fits(o.num, self.den);
            lemma_u64_mul_fits(self.den, o.den);
        }
        let n1: u128 = (self.num as u128) * (o.den as u128);
        let n2: u128 = (o.num as u128) * (self.den as u128);
        let d: u128 = (self.den as u128) * (o.den as u128);
        if n1 < n2 {
            None
        } else {
            proof {
                assert(d >= 1) by (nonlinear_arith)
                    requires
                        self.den >= 1,
                        o.den >= 1,
                        d == self.den as int * o.den as int,
                ;
            }
            reduce(n1 - n2, d)
        }
    }

    /// Exact comparison by cross multiplication; never fails.
    pub fn le(&self, o: &Frac) -> (r: bool)
        requires
            self.wf(),
            o.wf(),
        ensures
            r == rq_le(self@, o@),
    {
        proof {
            lemma_u64_mul_fits(self.num, o.den);
            lemma_u64_mul_fits(o.num, self.den);
        }
        (self.num as u128) * (o.den as u128) <= (o.num as u128) * (self.den as u128)
    }

    /// Exact value equality by cross multiplication; never fails.
    pub fn eq_value(&self, o: &Frac) -> (r: bool)
        requires
            self.wf(),
            o.wf(),
        ensures
            r == rq_eq(self@, o@),
    {
        proof {
            lemma_u64_mul_fits(self.num, o.den);
            lemma_u64_mul_fits(o.num, self.den);
        }
        (self.num as u128) * (o.den as u128) == (o.num as u128) * (self.den as u128)
    }
}

/// The product of two 64-bit values fits in 128 bits.
proof fn lemma_u64_mul_fits(a: u64, b: u64)
    ensures
        a as int * b as int <= u128::MAX as int,
        a as int * b as int >= 0,
{
    assert(a as int * b as int <= u128::MAX as int && a as int * b as int >= 0)
        by (nonlinear_arith)
        requires
            0 <= a as int <= u64::MAX as int,
            0 <= b as int <= u64::MAX as int,
    ;
}

} // verus!
