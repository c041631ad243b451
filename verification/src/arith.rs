//! Exact rational arithmetic at the specification level.
//!
//! A duration is a fraction of a whole note, so the mathematical model of the
//! library is the rational numbers.  This module defines divisibility, the
//! Euclidean greatest common divisor, fractions as pairs of naturals, value
//! equality and ordering by cross multiplication, and reduction to lowest
//! terms, together with the laws that make a reduced fraction a canonical
//! representative of its rational value.

use vstd::prelude::*;

verus! {

use vstd::arithmetic::div_mod::{
    lemma_fundamental_div_mod,
    lemma_fundamental_div_mod_converse_mod,
    lemma_div_nonincreasing,
    lemma_div_multiples_vanish,
};

/// `d` divides `n`.
pub open spec fn divides(d: nat, n: nat) -> bool {
    exists|k: int| n == #[trigger] (k * d)
}

/// Greatest common divisor by the Euclidean recursion.
pub open spec fn spec_gcd(a: nat, b: nat) -> nat
    decreases a,
{
    if a == 0 {
        b
    } else {
        spec_gcd(b % a, a)
    }
}

/// Least common multiple.
pub open spec fn spec_lcm(a: nat, b: nat) -> nat {
    (a * b) / spec_gcd(a, b)
}

/// The greatest common divisor divides both of its arguments.
pub proof fn lemma_gcd_divides(a: nat, b: nat)
    ensures
        divides(spec_gcd(a, b), a),
        divides(spec_gcd(a, b), b),
    decreases a,
{
    if a == 0 {
        assert(a == 0 * spec_gcd(0, b));
        assert(b == 1 * b);
    } else {
        lemma_gcd_divides(b % a, a);
        let g = spec_gcd(b % a, a);
        let k1 = choose|k: int| (b % a) as int == #[trigger] (k * g);
        let k2 = choose|k: int| a as int == #[trigger] (k * g);
        lemma_fundamental_div_mod(b as int, a as int);
        assert(b == a * (b as int / a as int) + (b % a));
        let q = b as int / a as int;
        assert(b as int == (k2 * q + k1) * g) by (nonlinear_arith)
            requires
                b == a * q + (b % a),
                (b % a) as int == k1 * g,
                a as int == k2 * g,
        ;
    }
}

/// The greatest common divisor of two numbers, at least one nonzero, is positive.
pub proof fn lemma_gcd_pos(a: nat, b: nat)
    requires
        a > 0 || b > 0,
    ensures
        spec_gcd(a, b) > 0,
    decreases a,
{
    if a != 0 {
        lemma_gcd_pos(b % a, a);
    }
}

/// Every common divisor of two numbers divides their greatest common divisor.
pub proof fn lemma_common_divides_gcd(a: nat, b: nat, d: nat)
    requires
        divides(d, a),
        divides(d, b),
    ensures
        divides(d, spec_gcd(a, b)),
    decreases a,
{
    if a != 0 {
        let ka = choose|k: int| a == #[trigger] (k * d);
        let kb = choose|k: int| b == #[trigger] (k * d);
        lemma_fundamental_div_mod(b as int, a as int);
        let q = b as int / a as int;
        assert((b % a) as int == (kb - q * ka) * d) by (nonlinear_arith)
            requires
                b == a * q + (b % a),
                a as int == ka * d,
                b as int == kb * d,
        ;
        lemma_common_divides_gcd(b % a, a, d);
    }
}

/// The greatest common divisor scales with a common factor.
pub proof fn lemma_gcd_mul(k: nat, a: nat, b: nat)
    requires
        k > 0,
    ensures
        spec_gcd(k * a, k * b) == k * spec_gcd(a, b),
    decreases a,
{
    if a == 0 {
        assert(k * a == 0);
    } else {
        lemma_fundamental_div_mod(b as int, a as int);
        let q = b as int / a as int;
        assert(k * b == (k * a) * q + k * (b % a) && 0 <= k * (b % a) < k * a)
            by (nonlinear_arith)
            requires
                b == a * q + (b % a),
                k > 0,
                a > 0,
                0 <= b % a < a,
        ;
        assert(k * a != 0) by (nonlinear_arith)
            requires
                k > 0,
                a > 0,
        ;
        assert((k * b) as int == q * ((k * a) as int) + ((k * (b % a)) as int))
            by (nonlinear_arith)
            requires
                k * b == (k * a) * q + k * (b % a),
        ;
        lemma_fundamental_div_mod_converse_mod(
            (k * b) as int,
            (k * a) as int,
            q,
            (k * (b % a)) as int,
        );
        assert((k * b) % (k * a) == k * (b % a));
        lemma_gcd_mul(k, b % a, a);
        assert(spec_gcd(k * a, k * b) == spec_gcd((k * b) % (k * a), k * a));
    }
}

/// Euclid's lemma: a number coprime to `b` can be cancelled from a product
/// that `b` divides.
pub proof fn lemma_coprime_divides(a: nat, b: nat, c: nat)
    requires
        spec_gcd(a, b) == 1,
        divides(b, a * c),
    ensures
        divides(b, c),
{
    if b == 0 {
        // gcd(a, 0) == 1 forces a == 1, and 0 dividing a * c forces c == 0.
        if a == 0 {
            assert(spec_gcd(a, b) == 0);
        } else {
            assert(spec_gcd(a, b) == spec_gcd(0, a));
            assert(a == 1);
            let k = choose|k: int| a * c == #[trigger] (k * 0);
            assert(a * c == 0);
            assert(c == 0) by (nonlinear_arith)
                requires
                    a * c == 0,
                    a == 1,
            ;
            assert(c == 0 * b);
        }
    } else if c == 0 {
        assert(c == 0 * b);
    } else {
        lemma_gcd_mul(c, a, b);
        assert(c * a == a * c && c * b == b * c) by (nonlinear_arith);
        assert(c * b == 1 * (c * b));
        lemma_common_divides_gcd(c * a, c * b, b);
        assert(divides(b, c * 1));
    }
}

/// Two reduced fractions with the same rational value are identical.
pub proof fn lemma_reduced_unique(a: nat, b: nat, c: nat, d: nat)
    requires
        b > 0,
        d > 0,
        spec_gcd(a, b) == 1,
        spec_gcd(c, d) == 1,
        a * d == c * b,
    ensures
        a == c,
        b == d,
{
    assert(a * d == c * b);
    assert(divides(b, a * d)) by {
        assert(a * d == c * b);
    }
    lemma_coprime_divides(a, b, d);
    assert(divides(d, c * b)) by {
        assert(c * b == a * d);
    }
    lemma_coprime_divides(c, d, b);
    let k1 = choose|k: int| d == #[trigger] (k * b);
    let k2 = choose|k: int| b == #[trigger] (k * d);
    assert(b == d) by (nonlinear_arith)
        requires
            d as int == k1 * b,
            b as int == k2 * d,
            b > 0,
            d > 0,
    ;
    assert(a == c) by (nonlinear_arith)
        requires
            a * d == c * b,
            b == d,
            d > 0,
    ;
}

/// A fraction of naturals; the rational value it stands for is `n / d`.
pub ghost struct Frac {
    pub n: nat,
    pub d: nat,
}

/// The canonical representation of zero.
pub open spec fn frac_zero() -> Frac {
    Frac { n: 0, d: 1 }
}

/// A fraction in lowest terms with a positive denominator.
pub open spec fn reduced(f: Frac) -> bool {
    f.d > 0 && spec_gcd(f.n, f.d) == 1
}

/// Reduction to lowest terms.
pub open spec fn reduce(f: Frac) -> Frac {
    let g = spec_gcd(f.n, f.d);
    Frac { n: f.n / g, d: f.d / g }
}

/// Equality of rational values, by cross multiplication.
pub open spec fn eq_val(a: Frac, b: Frac) -> bool {
    a.n * b.d == b.n * a.d
}

/// Ordering of rational values, by cross multiplication.
pub open spec fn le_val(a: Frac, b: Frac) -> bool {
    a.n * b.d <= b.n * a.d
}

/// Strict ordering of rational values, by cross multiplication.
pub open spec fn lt_val(a: Frac, b: Frac) -> bool {
    a.n * b.d < b.n * a.d
}

/// The sum, before reduction.
pub open spec fn add_val(a: Frac, b: Frac) -> Frac {
    Frac { n: a.n * b.d + b.n * a.d, d: a.d * b.d }
}

/// The difference, before reduction; meaningful only when `le_val(b, a)`.
pub open spec fn sub_val(a: Frac, b: Frac) -> Frac {
    Frac { n: (a.n * b.d - b.n * a.d) as nat, d: a.d * b.d }
}

/// The sum, in lowest terms.
pub open spec fn frac_add(a: Frac, b: Frac) -> Frac {
    reduce(add_val(a, b))
}

/// The difference, in lowest terms; meaningful only when `le_val(b, a)`.
pub open spec fn frac_sub(a: Frac, b: Frac) -> Frac {
    reduce(sub_val(a, b))
}

/// Whether both components fit in a machine word.
pub open spec fn frac_fits(f: Frac) -> bool {
    f.n <= u32::MAX && f.d <= u32::MAX
}

/// Reduction yields a reduced fraction of the same rational value, with
/// components no larger than the original.
pub proof fn lemma_reduce_props(f: Frac)
    requires
        f.d > 0,
    ensures
        reduced(reduce(f)),
        eq_val(reduce(f), f),
        reduce(f).n <= f.n,
        reduce(f).d <= f.d,
{
    let g = spec_gcd(f.n, f.d);
    lemma_gcd_pos(f.n, f.d);
    lemma_gcd_divides(f.n, f.d);
    let kn = choose|k: int| f.n == #[trigger] (k * g);
    let kd = choose|k: int| f.d == #[trigger] (k * g);
    assert(kn >= 0 && kd >= 1) by (nonlinear_arith)
        requires
            f.n == kn * g,
            f.d == kd * g,
            g > 0,
            f.d > 0,
    ;
    lemma_div_multiples_vanish(kn, g as int);
    lemma_div_multiples_vanish(kd, g as int);
    assert(g * kn == kn * g && g * kd == kd * g) by (nonlinear_arith);
    assert(f.n as int / g as int == kn);
    assert(f.d as int / g as int == kd);
    assert(spec_gcd(kn as nat, kd as nat) == 1) by {
        lemma_gcd_mul(g, kn as nat, kd as nat);
        assert(g * kn as nat == f.n && g * kd as nat == f.d) by (nonlinear_arith)
            requires
                f.n == kn * g,
                f.d == kd * g,
                kn >= 0,
                kd >= 0,
        ;
        assert(g * spec_gcd(kn as nat, kd as nat) == g);
        assert(spec_gcd(kn as nat, kd as nat) == 1) by (nonlinear_arith)
            requires
                g * spec_gcd(kn as nat, kd as nat) == g,
                g > 0,
        ;
    }
    assert(eq_val(reduce(f), f)) by (nonlinear_arith)
        requires
            reduce(f).n == kn,
            reduce(f).d == kd,
            f.n == kn * g,
            f.d == kd * g,
    ;
    lemma_div_nonincreasing(f.n as int, g as int);
    lemma_div_nonincreasing(f.d as int, g as int);
}

/// A reduced fraction is its own reduction.
pub proof fn lemma_reduced_fixed(f: Frac)
    requires
        reduced(f),
    ensures
        reduce(f) == f,
{
    assert(f.n as int / 1 == f.n) by (nonlinear_arith);
    assert(f.d as int / 1 == f.d) by (nonlinear_arith);
}

/// Two reduced fractions of the same rational value are identical.
pub proof fn lemma_eq_val_unique(a: Frac, b: Frac)
    requires
        reduced(a),
        reduced(b),
        eq_val(a, b),
    ensures
        a == b,
{
    lemma_reduced_unique(a.n, a.d, b.n, b.d);
}

/// Value equality is transitive (through a fraction with positive denominator).
pub proof fn lemma_eq_val_trans(a: Frac, b: Frac, c: Frac)
    requires
        b.d > 0,
        eq_val(a, b),
        eq_val(b, c),
    ensures
        eq_val(a, c),
{
    assert(a.n * c.d == c.n * a.d) by (nonlinear_arith)
        requires
            a.n * b.d == b.n * a.d,
            b.n * c.d == c.n * b.d,
            b.d > 0,
    ;
}

/// The value ordering is transitive (through a fraction with positive
/// denominator).
pub proof fn lemma_le_val_trans(a: Frac, b: Frac, c: Frac)
    requires
        b.d > 0,
        le_val(a, b),
        le_val(b, c),
    ensures
        le_val(a, c),
{
    assert(a.n * c.d <= c.n * a.d) by (nonlinear_arith)
        requires
            a.n * b.d <= b.n * a.d,
            b.n * c.d <= c.n * b.d,
            b.d > 0,
    ;
}

/// Value equality respects the ordering.
pub proof fn lemma_le_val_congruence(a: Frac, b: Frac, a2: Frac, b2: Frac)
    requires
        a.d > 0,
        b.d > 0,
        a2.d > 0,
        b2.d > 0,
        eq_val(a, a2),
        eq_val(b, b2),
    ensures
        le_val(a, b) == le_val(a2, b2),
{
    assert((a.n * b.d <= b.n * a.d) == (a2.n * b2.d <= b2.n * a2.d)) by (nonlinear_arith)
        requires
            a.n * a2.d == a2.n * a.d,
            b.n * b2.d == b2.n * b.d,
            a.d > 0,
            b.d > 0,
            a2.d > 0,
            b2.d > 0,
    ;
}

/// The reduced sum is reduced and has the value of the sum.
pub proof fn lemma_frac_add_props(a: Frac, b: Frac)
    requires
        a.d > 0,
        b.d > 0,
    ensures
        reduced(frac_add(a, b)),
        eq_val(frac_add(a, b), add_val(a, b)),
        add_val(a, b).d > 0,
        le_val(a, add_val(a, b)),
        le_val(b, add_val(a, b)),
        le_val(a, frac_add(a, b)),
        le_val(b, frac_add(a, b)),
{
    assert(a.d * b.d > 0) by (nonlinear_arith)
        requires
            a.d > 0,
            b.d > 0,
    ;
    lemma_reduce_props(add_val(a, b));
    let s = add_val(a, b);
    assert(le_val(a, s) && le_val(b, s)) by (nonlinear_arith)
        requires
            s.n == a.n * b.d + b.n * a.d,
            s.d == a.d * b.d,
            a.d > 0,
            b.d > 0,
    ;
    lemma_le_val_congruence(a, s, a, frac_add(a, b));
    lemma_le_val_congruence(b, s, b, frac_add(a, b));
}

/// The reduced difference is reduced and has the value of the difference.
pub proof fn lemma_frac_sub_props(a: Frac, b: Frac)
    requires
        a.d > 0,
        b.d > 0,
        le_val(b, a),
    ensures
        reduced(frac_sub(a, b)),
        eq_val(frac_sub(a, b), sub_val(a, b)),
        sub_val(a, b).d > 0,
        le_val(sub_val(a, b), a),
        le_val(frac_sub(a, b), a),
{
    assert(a.d * b.d > 0) by (nonlinear_arith)
        requires
            a.d > 0,
            b.d > 0,
    ;
    lemma_reduce_props(sub_val(a, b));
    let s = sub_val(a, b);
    assert(le_val(s, a)) by (nonlinear_arith)
        requires
            le_val(b, a),
            s.n == (a.n * b.d - b.n * a.d) as nat,
            s.d == a.d * b.d,
            a.d > 0,
            b.d > 0,
    ;
    lemma_le_val_congruence(s, a, frac_sub(a, b), a);
}

/// A reduced fraction with numerator zero is the canonical zero.
pub proof fn lemma_zero_reduced(f: Frac)
    requires
        reduced(f),
        f.n == 0,
    ensures
        f == frac_zero(),
{
    assert(spec_gcd(0, f.d) == f.d);
}

/// Subtracting a fraction from itself yields the canonical zero.
pub proof fn lemma_sub_self(a: Frac)
    requires
        a.d > 0,
    ensures
        frac_sub(a, a) == frac_zero(),
{
    let s = sub_val(a, a);
    assert(s.n == 0);
    assert(a.d * a.d > 0) by (nonlinear_arith)
        requires
            a.d > 0,
    ;
    lemma_reduce_props(s);
    lemma_zero_reduced(reduce(s));
}

/// Zero is a neutral element of the reduced sum.
pub proof fn lemma_add_zero(a: Frac)
    requires
        reduced(a),
    ensures
        frac_add(a, frac_zero()) == a,
        frac_add(frac_zero(), a) == a,
{
    assert(add_val(a, frac_zero()) == a) by {
        assert(a.n * 1 == a.n && 0 * a.d == 0 && a.d * 1 == a.d) by (nonlinear_arith);
    }
    assert(add_val(frac_zero(), a) == a) by {
        assert(0 * a.d == 0 && a.n * 1 == a.n && 1 * a.d == a.d) by (nonlinear_arith);
    }
    lemma_reduced_fixed(a);
}

/// Adding then subtracting a fraction returns to the start: the round trip
/// of the duration arithmetic, as an exact rational identity on canonical
/// representatives.
pub proof fn lemma_add_sub_roundtrip(a: Frac, b: Frac)
    requires
        reduced(a),
        reduced(b),
    ensures
        frac_sub(frac_add(a, b), b) == a,
{
    let s = frac_add(a, b);
    lemma_frac_add_props(a, b);
    assert(le_val(b, s)) by {
        lemma_frac_add_props(a, b);
    }
    lemma_frac_sub_props(s, b);
    // The difference has the value of `a`.
    let sn = s.n;
    let sd = s.d;
    let an = a.n;
    let ad = a.d;
    let bn = b.n;
    let bd = b.d;
    assert(sn * (ad * bd) == (an * bd + bn * ad) * sd);
    assert((sn * bd - bn * sd) * ad == an * (sd * bd)) by (nonlinear_arith)
        requires
            sn * (ad * bd) == (an * bd + bn * ad) * sd,
    ;
    assert(bn * sd <= sn * bd);
    assert(eq_val(sub_val(s, b), a));
    lemma_eq_val_trans(frac_sub(s, b), sub_val(s, b), a);
    lemma_eq_val_unique(frac_sub(s, b), a);
}

/// Subtraction commutes with an added remainder: if `p` is `c` plus `s`,
/// then taking `t` from `p` is taking `t` from `c` and adding `s` back.
pub proof fn lemma_sub_add_shuffle(p: Frac, c: Frac, s: Frac, t: Frac)
    requires
        reduced(p),
        reduced(c),
        reduced(t),
        s.d > 0,
        p == frac_add(c, s),
        le_val(t, c),
    ensures
        frac_sub(p, t) == frac_add(frac_sub(c, t), s),
{
    lemma_frac_add_props(c, s);
    assert(le_val(t, p)) by {
        lemma_le_val_congruence(t, add_val(c, s), t, p);
        assert(le_val(t, add_val(c, s))) by (nonlinear_arith)
            requires
                le_val(t, c),
                t.d > 0,
                c.d > 0,
                s.d > 0,
                add_val(c, s).n == c.n * s.d + s.n * c.d,
                add_val(c, s).d == c.d * s.d,
        ;
    }
    lemma_frac_sub_props(p, t);
    lemma_frac_sub_props(c, t);
    lemma_frac_add_props(frac_sub(c, t), s);
    let lhs = frac_sub(p, t);
    let rhs = frac_add(frac_sub(c, t), s);
    // Pass to raw values on both sides and compare by cross multiplication.
    let pn = p.n;
    let pd = p.d;
    let cn = c.n;
    let cd = c.d;
    let sn = s.n;
    let sd = s.d;
    let tn = t.n;
    let td = t.d;
    assert(pn * (cd * sd) == (cn * sd + sn * cd) * pd);
    assert(tn * cd <= cn * td);
    assert(tn * pd <= pn * td);
    // Scale the hypothesis, expand both sides, and match monomials.
    assert((pn * cd) * (sd * (td * td)) == (cn * sd) * (pd * (td * td)) + (sn * cd) * (pd
        * (td * td))) by (nonlinear_arith)
        requires
            pn * (cd * sd) == (cn * sd + sn * cd) * pd,
    ;
    let lhs_i = (pn * td - tn * pd) * ((cd * td) * sd);
    let rhs_i = ((cn * td - tn * cd) * sd + sn * (cd * td)) * (pd * td);
    assert((pn * td - tn * pd) * ((cd * td) * sd) == (pn * td) * ((cd * td) * sd) - (tn * pd)
        * ((cd * td) * sd)) by (nonlinear_arith);
    assert(((cn * td - tn * cd) * sd + sn * (cd * td)) * (pd * td) == ((cn * td) * sd) * (pd
        * td) - ((tn * cd) * sd) * (pd * td) + (sn * (cd * td)) * (pd * td))
        by (nonlinear_arith);
    assert((pn * td) * ((cd * td) * sd) == (pn * cd) * (sd * (td * td))) by (nonlinear_arith);
    assert(((cn * td) * sd) * (pd * td) == (cn * sd) * (pd * (td * td))) by (nonlinear_arith);
    assert((tn * pd) * ((cd * td) * sd) == ((tn * cd) * sd) * (pd * td)) by (nonlinear_arith);
    assert((sn * (cd * td)) * (pd * td) == (sn * cd) * (pd * (td * td))) by (nonlinear_arith);
    assert(lhs_i == rhs_i);
    assert(eq_val(sub_val(p, t), add_val(sub_val(c, t), s)));
    // lhs ~ sub_val(p, t) ~ add_val(sub_val(c, t), s) and the last has the
    // value of add_val(frac_sub(c, t), s) ~ rhs.
    assert(eq_val(add_val(sub_val(c, t), s), add_val(frac_sub(c, t), s))) by {
        let x = sub_val(c, t);
        let y = frac_sub(c, t);
        assert(eq_val(add_val(x, s), add_val(y, s))) by (nonlinear_arith)
            requires
                eq_val(y, x),
                x.d > 0,
                y.d > 0,
                s.d > 0,
                add_val(x, s).n == x.n * s.d + s.n * x.d,
                add_val(x, s).d == x.d * s.d,
                add_val(y, s).n == y.n * s.d + s.n * y.d,
                add_val(y, s).d == y.d * s.d,
        ;
    }
    assert(sub_val(c, t).d > 0 && add_val(sub_val(c, t), s).d > 0) by (nonlinear_arith)
        requires
            c.d > 0,
            t.d > 0,
            s.d > 0,
            sub_val(c, t).d == c.d * t.d,
            add_val(sub_val(c, t), s).d == sub_val(c, t).d * s.d,
    ;
    lemma_eq_val_trans(lhs, sub_val(p, t), add_val(sub_val(c, t), s));
    lemma_eq_val_trans(lhs, add_val(sub_val(c, t), s), add_val(frac_sub(c, t), s));
    lemma_eq_val_trans(lhs, add_val(frac_sub(c, t), s), rhs);
    lemma_eq_val_unique(lhs, rhs);
}

} // verus!
