//! Exact ratios of counts, and the scores built from them.
use vstd::prelude::*;

verus! {

/// A ratio of two counts, `numerator / denominator`. A zero denominator stands for an infinite
/// ratio when the numerator is positive.
#[derive(Debug, Clone, Copy, PartialEq, Eq, Structural)]
pub struct Ratio {
    pub numerator: usize,
    pub denominator: usize,
}

/// A range score: a coverage ratio plus a whole-number continuity bonus.
#[derive(Debug, Clone, Copy, PartialEq, Eq, Structural)]
pub struct RangeScore {
    pub continuity: usize,
    pub coverage: Ratio,
}

/// Whether `a` is at least `b`, for a ratio `b` with a positive denominator.
pub open spec fn ratio_at_least(a: Ratio, b: Ratio) -> bool {
    if a.denominator == 0 {
        a.numerator > 0
    } else {
        a.numerator * b.denominator >= b.numerator * a.denominator
    }
}

/// Whether `a` is less than `b`, for ratios with positive denominators.
pub open spec fn ratio_less(a: Ratio, b: Ratio) -> bool {
    a.numerator * b.denominator < b.numerator * a.denominator
}

/// Whether a score is infinite (its coverage has a zero denominator).
pub open spec fn score_is_infinite(s: RangeScore) -> bool {
    s.coverage.denominator == 0
}

/// The value of a finite score scaled by its coverage denominator.
pub open spec fn scaled_score(s: RangeScore) -> int {
    s.continuity * s.coverage.denominator + s.coverage.numerator
}

/// Whether score `a` is greater than score `b`; an infinite score is greater than every finite
/// one and not greater than another infinite one.
pub open spec fn score_greater(a: RangeScore, b: RangeScore) -> bool {
    if score_is_infinite(a) {
        !score_is_infinite(b)
    } else if score_is_infinite(b) {
        false
    } else {
        scaled_score(a) * b.coverage.denominator > scaled_score(b) * a.coverage.denominator
    }
}

/// Whether two finite scores are equal.
pub open spec fn score_tied(a: RangeScore, b: RangeScore) -> bool {
    !score_is_infinite(a) && !score_is_infinite(b) && scaled_score(a) * b.coverage.denominator
        == scaled_score(b) * a.coverage.denominator
}

/// Comparing finite scores by whole part first and then by fraction gives the exact comparison.
proof fn lemma_score_decomposition(ca: int, na: int, da: int, cb: int, nb: int, db: int)
    requires
        ca >= 0,
        na >= 0,
        da > 0,
        cb >= 0,
        nb >= 0,
        db > 0,
    ensures
        ((ca * da + na) * db > (cb * db + nb) * da) == ((ca + na / da > cb + nb / db) || (ca
            + na / da == cb + nb / db && (na % da) * db > (nb % db) * da)),
        ((ca * da + na) * db == (cb * db + nb) * da) == (ca + na / da == cb + nb / db && (na % da)
            * db == (nb % db) * da),
{
    let ia = ca + na / da;
    let ib = cb + nb / db;
    let fa = na % da;
    let fb = nb % db;
    vstd::arithmetic::div_mod::lemma_fundamental_div_mod(na, da);
    vstd::arithmetic::div_mod::lemma_fundamental_div_mod(nb, db);
    assert(0 <= fa < da && 0 <= fb < db);
    assert(ca * da + na == ia * da + fa) by (nonlinear_arith)
        requires
            na == da * (na / da) + fa,
            ia == ca + na / da,
    ;
    assert(cb * db + nb == ib * db + fb) by (nonlinear_arith)
        requires
            nb == db * (nb / db) + fb,
            ib == cb + nb / db,
    ;
    assert((ia * da + fa) * db == ia * (da * db) + fa * db) by (nonlinear_arith);
    assert((ib * db + fb) * da == ib * (da * db) + fb * da) by (nonlinear_arith);
    assert(0 <= fa * db < da * db) by (nonlinear_arith)
        requires
            0 <= fa < da,
            db > 0,
    ;
    assert(0 <= fb * da < da * db) by (nonlinear_arith)
        requires
            0 <= fb < db,
            da > 0,
    ;
    if ia > ib {
        assert(ia * (da * db) >= ib * (da * db) + da * db) by (nonlinear_arith)
            requires
                ia >= ib + 1,
                da * db > 0,
        ;
    } else if ia < ib {
        assert(ib * (da * db) >= ia * (da * db) + da * db) by (nonlinear_arith)
            requires
                ib >= ia + 1,
                da * db > 0,
        ;
    }
}

/// The exact product of two counts.
fn wide_product(x: usize, y: usize) -> (product: u128)
    ensures
        product == x * y,
{
    assert(x * y <= 0xffff_ffff_ffff_ffff_ffff_ffff_ffff_ffff) by (nonlinear_arith)
        requires
            x <= 0xffff_ffff_ffff_ffff,
            y <= 0xffff_ffff_ffff_ffff,
    ;
    (x as u128) * (y as u128)
}

/// Whether `a` is at least `b`: see `ratio_at_least`.
pub fn ratio_at_least_exec(a: Ratio, b: Ratio) -> (at_least: bool)
    ensures
        at_least == ratio_at_least(a, b),
{
    if a.denominator == 0 {
        a.numerator > 0
    } else {
        wide_product(a.numerator, b.denominator) >= wide_product(b.numerator, a.denominator)
    }
}

/// Whether `a` is less than `b`: see `ratio_less`.
pub fn ratio_less_exec(a: Ratio, b: Ratio) -> (less: bool)
    ensures
        less == ratio_less(a, b),
{
    wide_product(a.numerator, b.denominator) < wide_product(b.numerator, a.denominator)
}

/// The whole part and the remainder of a finite score.
fn score_parts(s: RangeScore) -> (parts: (u128, u128))
    requires
        !score_is_infinite(s),
    ensures
        parts.0 == s.continuity + s.coverage.numerator / s.coverage.denominator,
        parts.1 == s.coverage.numerator % s.coverage.denominator,
{
    (
        s.continuity as u128 + (s.coverage.numerator / s.coverage.denominator) as u128,
        (s.coverage.numerator % s.coverage.denominator) as u128,
    )
}

/// Whether score `a` is greater than score `b`: see `score_greater`.
pub fn score_greater_exec(a: RangeScore, b: RangeScore) -> (greater: bool)
    ensures
        greater == score_greater(a, b),
{
    if a.coverage.denominator == 0 {
        return b.coverage.denominator != 0;
    }
    if b.coverage.denominator == 0 {
        return false;
    }
    let (ia, fa) = score_parts(a);
    let (ib, fb) = score_parts(b);
    proof {
        lemma_score_decomposition(
            a.continuity as int,
            a.coverage.numerator as int,
            a.coverage.denominator as int,
            b.continuity as int,
            b.coverage.numerator as int,
            b.coverage.denominator as int,
        );
    }
    assert(fa * b.coverage.denominator < 0x1_0000_0000_0000_0000_0000_0000_0000_0000) by (nonlinear_arith)
        requires
            fa < a.coverage.denominator,
            b.coverage.denominator <= usize::MAX,
            a.coverage.denominator <= usize::MAX,
    ;
    assert(fb * a.coverage.denominator < 0x1_0000_0000_0000_0000_0000_0000_0000_0000) by (nonlinear_arith)
        requires
            fb < b.coverage.denominator,
            b.coverage.denominator <= usize::MAX,
            a.coverage.denominator <= usize::MAX,
    ;
    ia > ib || (ia == ib && fa * (b.coverage.denominator as u128) > fb * (
    a.coverage.denominator as u128))
}

/// Whether scores `a` and `b` are tied: see `score_tied`.
pub fn score_tied_exec(a: RangeScore, b: RangeScore) -> (tied: bool)
    ensures
        tied == score_tied(a, b),
{
    if a.coverage.denominator == 0 || b.coverage.denominator == 0 {
        return false;
    }
    let (ia, fa) = score_parts(a);
    let (ib, fb) = score_parts(b);
    proof {
        lemma_score_decomposition(
            a.continuity as int,
            a.coverage.numerator as int,
            a.coverage.denominator as int,
            b.continuity as int,
            b.coverage.numerator as int,
            b.coverage.denominator as int,
        );
    }
    assert(fa * b.coverage.denominator < 0x1_0000_0000_0000_0000_0000_0000_0000_0000) by (nonlinear_arith)
        requires
            fa < a.coverage.denominator,
            b.coverage.denominator <= usize::MAX,
            a.coverage.denominator <= usize::MAX,
    ;
    assert(fb * a.coverage.denominator < 0x1_0000_0000_0000_0000_0000_0000_0000_0000) by (nonlinear_arith)
        requires
            fb < b.coverage.denominator,
            b.coverage.denominator <= usize::MAX,
            a.coverage.denominator <= usize::MAX,
    ;
    ia == ib && fa * (b.coverage.denominator as u128) == fb * (a.coverage.denominator as u128)
}


/// Cross-multiplied comparisons of fractions with positive denominators chain.
proof fn lemma_fraction_chain(a: int, da: int, b: int, db: int, c: int, dc: int)
    requires
        da > 0,
        db > 0,
        dc > 0,
    ensures
        a * db <= b * da && b * dc <= c * db ==> a * dc <= c * da,
        a * db < b * da && b * dc <= c * db ==> a * dc < c * da,
        a * db <= b * da && b * dc < c * db ==> a * dc < c * da,
{
    if a * db <= b * da && b * dc <= c * db {
        assert(a * db * dc <= b * da * dc) by (nonlinear_arith)
            requires
                a * db <= b * da,
                dc > 0,
        ;
        assert(b * dc * da <= c * db * da) by (nonlinear_arith)
            requires
                b * dc <= c * db,
                da > 0,
        ;
        assert(a * dc * db <= c * da * db) by (nonlinear_arith)
            requires
                a * db * dc <= b * da * dc,
                b * dc * da <= c * db * da,
        ;
        assert(a * dc <= c * da) by (nonlinear_arith)
            requires
                a * dc * db <= c * da * db,
                db > 0,
        ;
    }
    if a * db < b * da && b * dc <= c * db {
        assert(a * db * dc < b * da * dc) by (nonlinear_arith)
            requires
                a * db < b * da,
                dc > 0,
        ;
        assert(b * dc * da <= c * db * da) by (nonlinear_arith)
            requires
                b * dc <= c * db,
                da > 0,
        ;
        assert(a * dc * db < c * da * db) by (nonlinear_arith)
            requires
                a * db * dc < b * da * dc,
                b * dc * da <= c * db * da,
        ;
        assert(a * dc < c * da) by (nonlinear_arith)
            requires
                a * dc * db < c * da * db,
                db > 0,
        ;
    }
    if a * db <= b * da && b * dc < c * db {
        assert(a * db * dc <= b * da * dc) by (nonlinear_arith)
            requires
                a * db <= b * da,
                dc > 0,
        ;
        assert(b * dc * da < c * db * da) by (nonlinear_arith)
            requires
                b * dc < c * db,
                da > 0,
        ;
        assert(a * dc * db < c * da * db) by (nonlinear_arith)
            requires
                a * db * dc <= b * da * dc,
                b * dc * da < c * db * da,
        ;
        assert(a * dc < c * da) by (nonlinear_arith)
            requires
                a * dc * db < c * da * db,
                db > 0,
        ;
    }
}

/// How `score_greater` and `score_tied` chain: a score that beats, or ties with, a score that
/// nothing in a set beats is itself unbeaten by that set, and a score neither greater than nor
/// tied with an unbeaten score beats nothing it does not beat.
pub proof fn lemma_score_order(x: RangeScore, e: RangeScore, s: RangeScore, i: RangeScore)
    ensures
        !score_greater(s, s),
        !score_greater(x, e) && score_greater(s, e) ==> !score_greater(x, s),
        !score_greater(x, e) && score_tied(s, e) ==> !score_greater(x, s),
        score_tied(s, e) && !score_greater(e, i) ==> !score_greater(s, i),
        !score_greater(s, e) && !score_tied(s, e) && !score_greater(e, i) ==> !score_greater(s, i),
{
    let (vx, dx) = (scaled_score(x), x.coverage.denominator as int);
    let (ve, de) = (scaled_score(e), e.coverage.denominator as int);
    let (vs, ds) = (scaled_score(s), s.coverage.denominator as int);
    let (vi, di) = (scaled_score(i), i.coverage.denominator as int);
    if dx > 0 && de > 0 && ds > 0 {
        lemma_fraction_chain(vx, dx, ve, de, vs, ds);
        lemma_fraction_chain(vs, ds, ve, de, vx, dx);
    }
    if de > 0 && ds > 0 && di > 0 {
        lemma_fraction_chain(vs, ds, ve, de, vi, di);
        lemma_fraction_chain(vi, di, ve, de, vs, ds);
    }
    if dx > 0 && de > 0 && ds > 0 {
        lemma_fraction_chain(vx, dx, vs, ds, ve, de);
        lemma_fraction_chain(ve, de, vs, ds, vx, dx);
    }
}

} // verus!
