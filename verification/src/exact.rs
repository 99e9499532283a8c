//! Where floating-point arithmetic is exact: on integers that the significand can
//! hold, as long as the result is one too.

use crate::float::{
    difference, double, from_ratio, known, lemma_nearest_even, lemma_pow2_mono, lemma_rounded, less,
    magnitude, nearest_even, negated, number_of_bits32, of_integer, product, quotient, remainder, rounded, signed,
    single, spacing, sum, to_integer, unit_gap, widened, Float32, Format, Number, Toward,
};
use vstd::arithmetic::div_mod::{
    lemma_div_pos_is_pos, lemma_fundamental_div_mod, lemma_fundamental_div_mod_converse,
    lemma_mod_bound,
};
use vstd::arithmetic::mul::{lemma_mul_is_commutative, lemma_mul_strict_inequality};
use vstd::arithmetic::power2::{
    lemma2_to64, lemma_pow2_adds, lemma_pow2_pos, lemma_pow2_unfold, pow2,
};
use vstd::prelude::*;

verus! {

/// The magnitude fits into the significand.
pub open spec fn holds(f: Format, i: int) -> bool {
    magnitude(i) < pow2(f.precision as nat)
}

/// The number with the value of an integer.
pub open spec fn integer(f: Format, i: int) -> Number {
    Number::Finite { negative: i < 0, units: magnitude(i) * pow2(f.scale as nat) }
}

proof fn lemma_spacing_exists(p: nat, a: nat, b: nat, k: nat) -> (l: nat)
    requires
        a < b * pow2(p + k),
    ensures
        l <= k,
        spacing(p, a, b, l),
    decreases k,
{
    if k == 0 || b * pow2((p + k - 1) as nat) <= a {
        k
    } else {
        lemma_spacing_exists(p, a, b, (k - 1) as nat)
    }
}

/// What has an exact counterpart in the format is that counterpart.
pub proof fn lemma_exact(f: Format, negative: bool, m: nat, k: nat, b: nat)
    requires
        known(f),
        m < pow2(f.precision as nat),
        k <= f.top,
        b > 0,
    ensures
        from_ratio(f, negative, (m * pow2(k)) * b, b) == (Number::Finite {
            negative,
            units: m * pow2(k),
        }),
{
    let p = f.precision as nat;
    let v = m * pow2(k);
    let a = v * b;
    lemma_pow2_pos(k);
    lemma_pow2_adds(p, k);
    lemma_mul_strict_inequality(m as int, pow2(p) as int, pow2(k) as int);
    assert(a < b * pow2(p + k)) by (nonlinear_arith)
        requires
            a == v * b,
            v < pow2(p + k),
            b > 0,
    ;
    let l = lemma_spacing_exists(p, a, b, k);
    let rest = (k - l) as nat;
    lemma_pow2_adds(rest, l);
    lemma_pow2_pos(l);
    lemma_rounded(p, a, b, l);
    let t = m * pow2(rest);
    let c = b * pow2(l);
    assert(c > 0) by (nonlinear_arith)
        requires
            c == b * pow2(l),
            b > 0,
            pow2(l) > 0,
    ;
    assert(a == t * c) by (nonlinear_arith)
        requires
            a == (m * pow2(k)) * b,
            pow2(k) == pow2(rest) * pow2(l),
            t == m * pow2(rest),
            c == b * pow2(l),
    ;
    let ti = t as int;
    let ci = c as int;
    assert((2 * ti - 1) * ci == 2 * (ti * ci) - ci) by (nonlinear_arith);
    assert((2 * ti + 1) * ci == 2 * (ti * ci) + ci) by (nonlinear_arith);
    lemma_nearest_even(a, c, t);
    assert(t * pow2(l) == v) by (nonlinear_arith)
        requires
            t == m * pow2(rest),
            pow2(k) == pow2(rest) * pow2(l),
            v == m * pow2(k),
    ;
    lemma_pow2_mono(p + k, p + f.top as nat);
}

/// An integer that fits is converted exactly.
pub proof fn law_integers_are_exact(f: Format, i: int)
    requires
        known(f),
        holds(f, i),
    ensures
        of_integer(f, i) == integer(f, i),
{
    reveal(of_integer);
    let v = magnitude(i) * pow2(f.scale as nat);
    lemma_exact(f, i < 0, magnitude(i), f.scale as nat, 1);
    assert(v * 1 == v) by (nonlinear_arith);
}

/// The sum of two integers is exact where it fits, but for the sign of a zero.
pub proof fn law_integer_sums_are_exact(f: Format, i: int, j: int)
    requires
        known(f),
        holds(f, i + j),
    ensures
        sum(f, integer(f, i), integer(f, j)) == integer(f, i + j),
{
    reveal(sum);
    let one = pow2(f.scale as nat);
    lemma_pow2_pos(f.scale as nat);
    let exact = signed(i < 0, magnitude(i) * one) + signed(j < 0, magnitude(j) * one);
    assert(exact == (i + j) * one) by (nonlinear_arith)
        requires
            exact == (if i < 0 {
                -((-i) * one)
            } else {
                i * one
            }) + (if j < 0 {
                -((-j) * one)
            } else {
                j * one
            }),
    ;
    let m = magnitude(i + j);
    assert(magnitude(exact) == m * one) by (nonlinear_arith)
        requires
            exact == (i + j) * one,
            one > 0,
            m == magnitude(i + j),
    ;
    if i + j == 0 {
        assert(exact == 0) by (nonlinear_arith)
            requires
                exact == (i + j) * one,
                i + j == 0,
        ;
        assert(0 * one == 0) by (nonlinear_arith);
    } else {
        assert(exact != 0 && (exact < 0) == (i + j < 0)) by (nonlinear_arith)
            requires
                exact == (i + j) * one,
                i + j != 0,
                one > 0,
        ;
        lemma_exact(f, i + j < 0, m, f.scale as nat, 1);
        assert((m * one) * 1 == m * one) by (nonlinear_arith);
    }
}

/// The product of two integers of one sign is exact where it fits.
pub proof fn law_integer_products_are_exact(f: Format, i: int, j: int)
    requires
        known(f),
        i >= 0,
        j >= 0,
        holds(f, i * j),
    ensures
        product(f, integer(f, i), integer(f, j)) == integer(f, i * j),
{
    reveal(product);
    let one = pow2(f.scale as nat);
    lemma_pow2_pos(f.scale as nat);
    assert(i * j >= 0) by (nonlinear_arith)
        requires
            i >= 0,
            j >= 0,
    ;
    let m = (i * j) as nat;
    lemma_exact(f, false, m, f.scale as nat, one);
    assert((i as nat * one) * (j as nat * one) == (m * one) * one) by (nonlinear_arith)
        requires
            m == i * j,
            i >= 0,
            j >= 0,
    ;
}

/// One divides every number that fits without a trace.
pub proof fn law_division_by_one_is_exact(f: Format, i: int)
    requires
        known(f),
        holds(f, i),
    ensures
        quotient(f, integer(f, i), integer(f, 1)) == integer(f, i),
{
    reveal(quotient);
    let one = pow2(f.scale as nat);
    lemma_pow2_pos(f.scale as nat);
    assert(1 * one == one) by (nonlinear_arith);
    lemma_exact(f, i < 0, magnitude(i), f.scale as nat, one);
}

/// Multiplication by one changes no number that fits.
pub proof fn law_multiplication_by_one_is_exact(f: Format, i: int)
    requires
        known(f),
        holds(f, i),
    ensures
        product(f, integer(f, i), integer(f, 1)) == integer(f, i),
{
    reveal(product);
    let one = pow2(f.scale as nat);
    lemma_pow2_pos(f.scale as nat);
    assert(1 * one == one) by (nonlinear_arith);
    lemma_exact(f, i < 0, magnitude(i), f.scale as nat, one);
}

/// A number that is an integer converts to that integer, whatever the direction.
pub proof fn law_integers_come_back(f: Format, toward: Toward, i: int, low: int, high: int)
    requires
        known(f),
        low <= i <= high,
    ensures
        to_integer(f, toward, integer(f, i), low, high) == i,
{
    reveal(to_integer);
    let one = pow2(f.scale as nat);
    lemma_pow2_pos(f.scale as nat);
    lemma_fundamental_div_mod_converse(
        (magnitude(i) * one) as int,
        one as int,
        magnitude(i) as int,
        0,
    );
}

/// The pattern of the 32-bit one is the integer one, and stays it when widened.
pub proof fn lemma_one()
    ensures
        (Float32 { bits: 0x3f80_0000 })@ == integer(single(), 1),
        widened((Float32 { bits: 0x3f80_0000 })@) == integer(double(), 1),
{
    reveal(widened);
    reveal(number_of_bits32);
    lemma2_to64();
    lemma_pow2_adds(23, 126);
    lemma_pow2_adds(149, unit_gap());
    assert(pow2(23) == 0x80_0000);
    assert(1 * pow2(149) == pow2(149)) by (nonlinear_arith);
    assert(1 * pow2(1074) == pow2(1074)) by (nonlinear_arith);
    assert(number_of_bits32(0x3f80_0000) == (Number::Finite {
        negative: false,
        units: 0x80_0000 * pow2(126),
    }));
}

/// A zero of either sign.
pub open spec fn zero_with(negative: bool) -> Number {
    Number::Finite { negative, units: 0 }
}

/// An integer times zero is a zero with the sign of the integer.
pub proof fn lemma_times_zero(f: Format, i: int)
    requires
        known(f),
    ensures
        product(f, integer(f, i), integer(f, 0)) == zero_with(i < 0),
{
    reveal(product);
    let one = pow2(f.scale as nat);
    lemma_pow2_pos(f.scale as nat);
    lemma_pow2_pos(f.precision as nat);
    assert(0 * one == 0) by (nonlinear_arith);
    assert((magnitude(i) * one) * 0 == 0 && (0 * one) * one == 0) by (nonlinear_arith);
    lemma_exact(f, i < 0, 0, f.scale as nat, one);
}

/// A zero times zero is a zero.
pub proof fn lemma_zero_times_zero(f: Format, negative: bool)
    requires
        known(f),
    ensures
        product(f, zero_with(negative), integer(f, 0)) == zero_with(negative),
{
    reveal(product);
    let one = pow2(f.scale as nat);
    lemma_pow2_pos(f.scale as nat);
    lemma_pow2_pos(f.precision as nat);
    assert(0 * one == 0 && (0 * one) * one == 0) by (nonlinear_arith);
    lemma_exact(f, negative, 0, f.scale as nat, one);
}

/// A zero of either sign changes no integer that it is added to.
pub proof fn lemma_plus_zero(f: Format, i: int, negative: bool)
    requires
        known(f),
        holds(f, i),
    ensures
        sum(f, integer(f, i), zero_with(negative)) == integer(f, i),
        sum(f, zero_with(negative), integer(f, i)) == integer(f, i),
{
    reveal(sum);
    let one = pow2(f.scale as nat);
    let m = magnitude(i);
    lemma_pow2_pos(f.scale as nat);
    if i == 0 {
        assert(m * one == 0) by (nonlinear_arith)
            requires
                m == 0,
        ;
    } else {
        assert(m * one > 0) by (nonlinear_arith)
            requires
                m > 0,
                one > 0,
        ;
        assert((m * one) * 1 == m * one) by (nonlinear_arith);
        lemma_exact(f, i < 0, m, f.scale as nat, 1);
    }
}

/// The difference of two small integers.
pub proof fn lemma_small_difference(i: int, j: int)
    requires
        -0x1000 <= i <= 0x1000,
        0 <= j <= 0x1000,
    ensures
        difference(single(), integer(single(), i), integer(single(), j)) == integer(
            single(),
            i - j,
        ),
{
    let f = single();
    lemma2_to64();
    if j == 0 {
        assert(0 * pow2(149) == 0) by (nonlinear_arith);
        assert(negated(integer(f, 0)) == zero_with(true));
        lemma_plus_zero(f, i, true);
    } else {
        assert(negated(integer(f, j)) == integer(f, -j));
        law_integer_sums_are_exact(f, i, -j);
    }
}

/// A multiple of an integer divided by that integer.
pub proof fn lemma_exact_quotient(f: Format, a: int, b: int)
    requires
        known(f),
        a >= 0,
        b > 0,
        holds(f, a),
    ensures
        quotient(f, integer(f, a * b), integer(f, b)) == integer(f, a),
{
    reveal(quotient);
    let one = pow2(f.scale as nat);
    let v = b as nat * one;
    let m = a as nat;
    lemma_pow2_pos(f.scale as nat);
    assert(a * b >= 0 && v > 0 && ((a * b) as nat * one) * one == (m * one) * v) by (nonlinear_arith)
        requires
            v == b as nat * one,
            m == a,
            a >= 0,
            b > 0,
            one > 0,
    ;
    lemma_exact(f, false, m, f.scale as nat, v);
}

/// An integer divided by itself is one.
pub proof fn lemma_over_itself(f: Format, i: int)
    requires
        known(f),
        i > 0,
    ensures
        quotient(f, integer(f, i), integer(f, i)) == integer(f, 1),
{
    reveal(quotient);
    let one = pow2(f.scale as nat);
    let v = i as nat * one;
    lemma_pow2_pos(f.scale as nat);
    assert(v > 0) by (nonlinear_arith)
        requires
            v == i as nat * one,
            i > 0,
            one > 0,
    ;
    assert((1 * one) * v == v * one) by (nonlinear_arith);
    lemma_pow2_mono(1, f.precision as nat);
    lemma2_to64();
    lemma_exact(f, false, 1, f.scale as nat, v);
}

/// The pattern of the 32-bit half.
pub proof fn lemma_half()
    ensures
        (Float32 { bits: 0x3f00_0000 })@ == (Number::Finite { negative: false, units: pow2(148) }),
{
    reveal(number_of_bits32);
    lemma2_to64();
    lemma_pow2_adds(23, 125);
    assert(pow2(23) == 0x80_0000);
    assert((Float32 { bits: 0x3f00_0000 })@ == (Number::Finite {
        negative: false,
        units: 0x80_0000 * pow2(125),
    }));
}

/// So many halves as a 32-bit number.
pub open spec fn halves(m: int) -> Number {
    Number::Finite { negative: m < 0, units: magnitude(m) * pow2(148) }
}

/// An integer is twice as many halves, and half of it as many halves as it counts.
pub proof fn lemma_halves(i: int)
    requires
        -0x100_0000 < i < 0x100_0000,
    ensures
        integer(single(), i) == halves(2 * i),
        (Float32 { bits: 0x3f00_0000 })@ == halves(1),
        i >= 0 ==> product(
            single(),
            integer(single(), i),
            (Float32 { bits: 0x3f00_0000 })@,
        ) == halves(i),
{
    reveal(product);
    lemma_half();
    lemma2_to64();
    lemma_pow2_adds(148, 1);
    let (one, p) = (pow2(149), pow2(148));
    lemma_pow2_pos(148);
    let m = magnitude(i);
    assert(m * one == magnitude(2 * i) * p && 1 * p == p && (m * one) * p == (m * p) * one)
        by (nonlinear_arith)
        requires
            one == p * 2,
            magnitude(2 * i) == 2 * m,
    ;
    if i >= 0 {
        lemma_exact(single(), false, m, 148, one);
    }
}

/// The sum and difference of halves, where they fit.
pub proof fn lemma_sum_of_halves(i: int, j: int)
    requires
        j >= 0,
    ensures
        -0x100_0000 < i + j < 0x100_0000 ==> sum(single(), halves(i), halves(j)) == halves(i + j),
        -0x100_0000 < i - j < 0x100_0000 ==> difference(single(), halves(i), halves(j)) == halves(
            i - j,
        ),
{
    if -0x100_0000 < i + j < 0x100_0000 {
        lemma_signed_halves(i, j, false);
    }
    if -0x100_0000 < i - j < 0x100_0000 {
        lemma_signed_halves(i, -j, j == 0);
    }
    let p = pow2(148);
    assert(0 * p == 0) by (nonlinear_arith);
}

/// The sum of halves, the second of which may be a zero with a minus sign.
pub proof fn lemma_signed_halves(i: int, j: int, minus: bool)
    requires
        -0x100_0000 < i + j < 0x100_0000,
        minus ==> j == 0,
    ensures
        sum(
            single(),
            halves(i),
            Number::Finite { negative: j < 0 || minus, units: magnitude(j) * pow2(148) },
        ) == halves(i + j),
{
    reveal(sum);
    let p = pow2(148);
    let f = single();
    lemma2_to64();
    lemma_pow2_pos(148);
    let (a, b) = (magnitude(i) * p, magnitude(j) * p);
    let exact = signed(i < 0, a) + signed(j < 0 || minus, b);
    assert(exact == (i + j) * p && (a == 0 <==> i == 0)) by (nonlinear_arith)
        requires
            exact == (if i < 0 {
                -(a as int)
            } else {
                a as int
            }) + (if j < 0 || minus {
                -(b as int)
            } else {
                b as int
            }),
            a == (if i < 0 {
                -i
            } else {
                i
            }) * p,
            b == (if j < 0 {
                -j
            } else {
                j
            }) * p,
            minus ==> j == 0,
            p > 0,
    ;
    let n = i + j;
    let m = magnitude(n);
    if n == 0 {
        assert(n * p == 0 && m * p == 0) by (nonlinear_arith)
            requires
                n == 0,
                m == 0,
        ;
    } else {
        assert(magnitude(n * p) == m * p && (n * p < 0 <==> n < 0) && n * p != 0 && (m * p) * 1 == m
            * p) by (nonlinear_arith)
            requires
                m == (if n < 0 {
                    -n
                } else {
                    n
                }),
                n != 0,
                p > 0,
                magnitude(n * p) == (if n * p < 0 {
                    -(n * p)
                } else {
                    n * p
                }),
        ;
        lemma_exact(f, n < 0, m, 148, 1);
    }
}

/// Halves times one and over one, and times zero.
pub proof fn lemma_halves_alone(i: int)
    requires
        -0x100_0000 < i < 0x100_0000,
    ensures
        product(single(), halves(i), integer(single(), 1)) == halves(i),
        quotient(single(), halves(i), integer(single(), 1)) == halves(i),
        product(single(), halves(i), integer(single(), 0)) == zero_with(i < 0),
        sum(single(), halves(i), zero_with(true)) == halves(i),
        sum(single(), halves(i), zero_with(false)) == halves(i),
        sum(single(), zero_with(true), halves(i)) == halves(i),
        sum(single(), zero_with(false), halves(i)) == halves(i),
{
    reveal(product);
    reveal(quotient);
    reveal(sum);
    let (one, p) = (pow2(149), pow2(148));
    let m = magnitude(i);
    lemma2_to64();
    lemma_pow2_pos(149);
    lemma_pow2_pos(148);
    assert(1 * one == one && 0 * one == 0 && (m * p) * 0 == 0 && (0 * p) * one == 0 && 0 * p == 0
        && (m * p) * 1 == m * p) by (nonlinear_arith);
    lemma_exact(single(), i < 0, m, 148, one);
    lemma_exact(single(), i < 0, 0, 148, one);
    if i == 0 {
        assert(m * p == 0);
    } else {
        assert(m * p > 0) by (nonlinear_arith)
            requires
                m > 0,
                p > 0,
        ;
        lemma_exact(single(), i < 0, m, 148, 1);
    }
}

/// Half of an integer of either sign, and half as a quotient.
pub proof fn lemma_half_of(i: int)
    requires
        -0x100_0000 < i < 0x100_0000,
    ensures
        product(single(), integer(single(), i), halves(1)) == halves(i),
        0 < i < 0x80_0000 ==> quotient(single(), integer(single(), i), integer(single(), 2 * i))
            == halves(1),
{
    reveal(product);
    reveal(quotient);
    lemma2_to64();
    lemma_pow2_adds(148, 1);
    let (one, p) = (pow2(149), pow2(148));
    lemma_pow2_pos(148);
    let m = magnitude(i);
    assert(1 * p == p && (m * one) * p == (m * p) * one) by (nonlinear_arith);
    lemma_exact(single(), i < 0, m, 148, one);
    if 0 < i < 0x80_0000 {
        let v = (2 * i) as nat * one;
        assert(v > 0 && (m * one) * one == (1 * p) * v) by (nonlinear_arith)
            requires
                v == (2 * i) as nat * one,
                m == i,
                i > 0,
                one == p * 2,
                p > 0,
        ;
        lemma_exact(single(), false, 1, 148, v);
    }
}

/// Halves are ordered as they are counted, and come back without what is left of one.
pub proof fn lemma_halves_in_order(i: int, j: int)
    ensures
        less(halves(i), halves(j)) == (i < j),
        0 <= i < 0x100_0000 ==> to_integer(
            single(),
            Toward::Zero,
            halves(i),
            i32::MIN as int,
            i32::MAX as int,
        ) == i / 2,
{
    reveal(less);
    reveal(to_integer);
    let (one, p) = (pow2(149), pow2(148));
    lemma_pow2_pos(148);
    lemma2_to64();
    lemma_pow2_adds(148, 1);
    assert(signed(i < 0, magnitude(i) * p) == i * p) by (nonlinear_arith)
        requires
            magnitude(i) == (if i < 0 {
                -i
            } else {
                i
            }),
    ;
    assert(signed(j < 0, magnitude(j) * p) == j * p) by (nonlinear_arith)
        requires
            magnitude(j) == (if j < 0 {
                -j
            } else {
                j
            }),
    ;
    assert((i * p < j * p) == (i < j)) by (nonlinear_arith)
        requires
            p > 0,
    ;
    if 0 <= i < 0x100_0000 {
        let r = (i % 2) * p;
        assert(i * p == one * (i / 2) + r && 0 <= r < one) by (nonlinear_arith)
            requires
                one == p * 2,
                r == (i % 2) * p,
                i == 2 * (i / 2) + i % 2,
                0 <= i % 2 < 2,
                p > 0,
        ;
        lemma_mul_is_commutative(one as int, i / 2);
        lemma_fundamental_div_mod_converse(i * p, one as int, i / 2, r);
    }
}

/// Integers are ordered as numbers as they are as integers.
pub proof fn lemma_integers_in_order(f: Format, i: int, j: int)
    ensures
        less(integer(f, i), integer(f, j)) == (i < j),
{
    reveal(less);
    let one = pow2(f.scale as nat);
    lemma_pow2_pos(f.scale as nat);
    assert(signed(i < 0, magnitude(i) * one) == i * one) by (nonlinear_arith)
        requires
            magnitude(i) == (if i < 0 {
                -i
            } else {
                i
            }),
    ;
    assert(signed(j < 0, magnitude(j) * one) == j * one) by (nonlinear_arith)
        requires
            magnitude(j) == (if j < 0 {
                -j
            } else {
                j
            }),
    ;
    assert((i * one < j * one) == (i < j)) by (nonlinear_arith)
        requires
            one > 0,
    ;
}

/// The patterns of the 32-bit zero and of a ten thousandth and a thousandth: the first
/// is the integer zero, the others lie between it and one.
pub proof fn lemma_small_patterns()
    ensures
        (Float32 { bits: 0 })@ == integer(single(), 0),
        !less(integer(single(), 1), (Float32 { bits: 0x38d1_b717 })@),
        !less(integer(single(), 1), (Float32 { bits: 0x3a83_126f })@),
        !less((Float32 { bits: 0x3a83_126f })@, integer(single(), 0)),
        (Float32 { bits: 0x3a83_126f })@ != Number::Nan,
{
    reveal(number_of_bits32);
    reveal(less);
    lemma2_to64();
    lemma_pow2_adds(24, 125);
    lemma_pow2_pos(125);
    let one = pow2(149);
    assert(0 * one == 0 && 1 * one == one) by (nonlinear_arith);
    assert((Float32 { bits: 0x38d1_b717 })@ == (Number::Finite {
        negative: false,
        units: 0xd1_b717 * pow2(112),
    }));
    assert((Float32 { bits: 0x3a83_126f })@ == (Number::Finite {
        negative: false,
        units: 0x83_126f * pow2(116),
    }));
    lemma_pow2_mono(112, 125);
    lemma_pow2_mono(116, 125);
    assert(0xd1_b717 * pow2(112) <= one && 0x83_126f * pow2(116) <= one) by (nonlinear_arith)
        requires
            one == 0x100_0000 * pow2(125),
            pow2(112) <= pow2(125),
            pow2(116) <= pow2(125),
            pow2(125) > 0,
    ;
}

/// The number has no minus sign.
pub open spec fn unsigned(x: Number) -> bool {
    match x {
        Number::Nan => true,
        Number::Infinite { negative } => !negative,
        Number::Finite { negative, .. } => !negative,
    }
}

/// Numbers without a minus sign give such numbers, and integers that are not
/// negative.
pub proof fn lemma_unsigned(f: Format, x: Number, y: Number, i: int)
    requires
        unsigned(x),
        unsigned(y),
        i >= 0,
    ensures
        unsigned(of_integer(f, i)),
        unsigned(product(f, x, y)),
        unsigned(quotient(f, x, y)),
        unsigned(remainder(x, y)),
        to_integer(f, Toward::Zero, x, i64::MIN as int, i64::MAX as int) >= 0,
{
    reveal(of_integer);
    reveal(product);
    reveal(quotient);
    reveal(remainder);
    reveal(to_integer);
    lemma_pow2_pos(f.scale as nat);
    if let Number::Finite { negative, units } = x {
        lemma_div_pos_is_pos(units as int, pow2(f.scale as nat) as int);
    }
}

proof fn lemma_power_exceeds(n: nat)
    ensures
        n < pow2(n),
    decreases n,
{
    if n == 0 {
        lemma2_to64();
    } else {
        lemma_power_exceeds((n - 1) as nat);
        lemma_pow2_unfold(n);
    }
}

proof fn lemma_some_spacing(p: nat, a: nat, b: nat) -> (k: nat)
    requires
        b > 0,
    ensures
        spacing(p, a, b, k),
{
    lemma_power_exceeds(a);
    lemma_pow2_mono(a, p + a);
    assert(a < b * pow2(p + a)) by (nonlinear_arith)
        requires
            a < pow2(p + a),
            b > 0,
    ;
    lemma_spacing_exists(p, a, b, a)
}

/// Rounding moves a magnitude by no more than its `2^p`th part and one unit.
pub proof fn lemma_rounded_bound(p: nat, a: nat, b: nat)
    requires
        p >= 1,
        b > 0,
    ensures
        (rounded(p, a, b) * b) * pow2(p) <= a * (pow2(p) + 1) + b * pow2(p),
        a * pow2(p) <= (rounded(p, a, b) * b) * pow2(p) + a + b * pow2(p),
{
    let k = lemma_some_spacing(p, a, b);
    lemma_rounded(p, a, b, k);
    let g = pow2(k);
    let c = b * g;
    let w = pow2(p);
    lemma_pow2_pos(k);
    lemma_pow2_pos(p);
    assert(c > 0) by (nonlinear_arith)
        requires
            c == b * g,
            b > 0,
            g > 0,
    ;
    let t = nearest_even(a, c);
    let q = a / c;
    let r = a % c;
    lemma_fundamental_div_mod(a as int, c as int);
    lemma_mod_bound(a as int, c as int);
    assert(2 * (t * c) <= 2 * a + c && 2 * a <= 2 * (t * c) + c) by {
        if t == q + 1 {
            assert(t * c == q * c + c) by (nonlinear_arith)
                requires
                    t == q + 1,
            ;
            lemma_mul_is_commutative(c as int, q as int);
        } else {
            lemma_mul_is_commutative(c as int, q as int);
        }
    }
    assert((t * g) * b == t * c) by (nonlinear_arith)
        requires
            c == b * g,
    ;
    if k == 0 {
        lemma2_to64();
        assert(c == b) by (nonlinear_arith)
            requires
                c == b * g,
                g == 1,
        ;
        assert((t * c) * w <= a * (w + 1) + b * w) by (nonlinear_arith)
            requires
                2 * (t * c) <= 2 * a + b,
                w > 0,
                a >= 0,
                b > 0,
        ;
        assert(a * w <= (t * c) * w + a + b * w) by (nonlinear_arith)
            requires
                2 * a <= 2 * (t * c) + b,
                w > 0,
                a >= 0,
                b > 0,
        ;
    } else {
        let l = pow2((p + k - 1) as nat);
        lemma_pow2_adds((p - 1) as nat, k);
        lemma_pow2_unfold(p);
        let v = pow2((p - 1) as nat);
        assert(c * v <= a) by (nonlinear_arith)
            requires
                b * l <= a,
                l == v * g,
                c == b * g,
        ;
        assert((t * c) * w <= a * (w + 1) + b * w) by (nonlinear_arith)
            requires
                2 * (t * c) <= 2 * a + c,
                w == 2 * v,
                c * v <= a,
                v >= 0,
                b >= 0,
        ;
        assert(a * w <= (t * c) * w + a + b * w) by (nonlinear_arith)
            requires
                2 * a <= 2 * (t * c) + c,
                w == 2 * v,
                c * v <= a,
                v >= 0,
                b >= 0,
        ;
    }
}

/// Rounding does not pass a number of the format.
pub proof fn lemma_rounded_within(p: nat, a: nat, b: nat, m: nat, k: nat)
    requires
        p >= 1,
        b > 0,
        m < pow2(p),
        a <= (m * pow2(k)) * b,
    ensures
        rounded(p, a, b) <= m * pow2(k),
{
    let l = lemma_some_spacing(p, a, b);
    lemma_rounded(p, a, b, l);
    lemma_pow2_pos(k);
    lemma_pow2_pos(l);
    let (gk, gl) = (pow2(k), pow2(l));
    if l > k {
        lemma_pow2_adds(p, k);
        lemma_pow2_mono(p + k, (p + l - 1) as nat);
        let top = pow2(p + k);
        assert((m * gk) * b < top * b) by (nonlinear_arith)
            requires
                m < pow2(p),
                top == pow2(p) * gk,
                gk > 0,
                b > 0,
        ;
        assert(b * top <= b * pow2((p + l - 1) as nat)) by (nonlinear_arith)
            requires
                top <= pow2((p + l - 1) as nat),
        ;
        lemma_mul_is_commutative(b as int, top as int);
    } else {
        let rest = pow2((k - l) as nat);
        lemma_pow2_adds((k - l) as nat, l);
        let c = b * gl;
        let t = m * rest;
        assert(c > 0 && (m * gk) * b == t * c && t * gl == m * gk) by (nonlinear_arith)
            requires
                c == b * gl,
                b > 0,
                gl > 0,
                gk == rest * gl,
                t == m * rest,
        ;
        let q = (a / c) as int;
        let r = (a % c) as int;
        lemma_fundamental_div_mod(a as int, c as int);
        lemma_mod_bound(a as int, c as int);
        let n = nearest_even(a, c);
        assert(n <= t) by (nonlinear_arith)
            requires
                a == c * q + r,
                0 <= r < c,
                a <= t * c,
                n == q || (n == q + 1 && r > 0),
        ;
        assert(n * gl <= t * gl) by (nonlinear_arith)
            requires
                n <= t,
        ;
    }
}

/// Where the quotient of two whole numbers lies between two neighbouring whole numbers, it
/// stays between them when it is rounded.
pub proof fn lemma_quotient_between(f: Format, a: nat, b: nat) -> (units: nat)
    requires
        known(f),
        b > 0,
        holds(f, a as int),
        holds(f, b as int),
    ensures
        quotient(f, integer(f, a as int), integer(f, b as int)) == (Number::Finite {
            negative: false,
            units,
        }),
        (a / b) * pow2(f.scale as nat) <= units < (a / b + 1) * pow2(f.scale as nat),
        a % b == 0 <==> units == (a / b) * pow2(f.scale as nat),
{
    reveal(quotient);
    let u = pow2(f.scale as nat);
    let w = pow2(f.precision as nat);
    let (q, r) = (a / b, a % b);
    lemma_pow2_pos(f.scale as nat);
    lemma_pow2_pos(f.precision as nat);
    lemma_fundamental_div_mod(a as int, b as int);
    lemma_mod_bound(a as int, b as int);
    assert(b * u > 0) by (nonlinear_arith)
        requires
            b > 0,
            u > 0,
    ;
    assert(q <= a) by (nonlinear_arith)
        requires
            a == b * q + r,
            b >= 1,
            q >= 0,
            r >= 0,
    ;
    if r == 0 {
        assert((a * u) * u == (q * u) * (b * u)) by (nonlinear_arith)
            requires
                a == b * q,
        ;
        lemma_exact(f, false, q, f.scale as nat, b * u);
        assert(q * u < (q + 1) * u) by (nonlinear_arith)
            requires
                u > 0,
        ;
        return q * u;
    }
    let units = rounded(f.precision as nat, (a * u) * u, b * u);
    lemma_rounded_bound(f.precision as nat, (a * u) * u, b * u);
    assert(units * b * w <= a * u * (w + 1) + b * w && a * u * w <= units * b * w + a * u + b * w)
        by (nonlinear_arith)
        requires
            (units * (b * u)) * w <= ((a * u) * u) * (w + 1) + (b * u) * w,
            ((a * u) * u) * w <= (units * (b * u)) * w + (a * u) * u + (b * u) * w,
            u > 0,
    ;
    // The unit is far smaller than what is left over.
    lemma_pow2_adds(f.precision as nat, f.precision as nat);
    lemma_pow2_mono((f.precision + f.precision) as nat, f.scale as nat);
    assert(b * w < u) by (nonlinear_arith)
        requires
            b < w,
            w * w <= u,
            w > 0,
    ;
    assert(a * u + b * w < u * w) by (nonlinear_arith)
        requires
            a <= w - 1,
            b * w < u,
            u > 0,
    ;
    assert(units < (q + 1) * u) by (nonlinear_arith)
        requires
            units * b * w <= a * u * (w + 1) + b * w,
            a * u + b * w < u * w,
            a == b * q + r,
            r <= b - 1,
            w > 0,
            b > 0,
            u > 0,
    ;
    assert(q * u < units) by (nonlinear_arith)
        requires
            a * u * w <= units * b * w + a * u + b * w,
            a * u + b * w < u * w,
            a == b * q + r,
            r >= 1,
            w > 0,
            b > 0,
            u > 0,
    ;
    lemma_pow2_adds(f.precision as nat, f.scale as nat);
    lemma_pow2_mono((f.precision + f.scale) as nat, (f.precision + f.top) as nat);
    assert((q + 1) * u <= w * u) by (nonlinear_arith)
        requires
            q + 1 <= w,
            u > 0,
    ;
    units
}

/// The quotient of two whole numbers, made whole: rounding never takes it past the whole
/// number next to it.
pub proof fn law_whole_quotients(f: Format, a: int, b: int, low: int, high: int)
    requires
        known(f),
        a >= 0,
        b > 0,
        holds(f, a),
        holds(f, b),
        low <= 0,
        a < high,
    ensures
        to_integer(
            f,
            Toward::Zero,
            quotient(f, integer(f, a), integer(f, b)),
            low,
            high,
        ) == a / b,
        to_integer(
            f,
            Toward::Above,
            quotient(f, integer(f, a), integer(f, b)),
            low,
            high,
        ) == (a + b - 1) / b,
{
    reveal(to_integer);
    let u = pow2(f.scale as nat) as int;
    lemma_pow2_pos(f.scale as nat);
    let units = lemma_quotient_between(f, a as nat, b as nat);
    let (q, r) = (a / b, a % b);
    lemma_fundamental_div_mod(a, b);
    lemma_mod_bound(a, b);
    let rest = units - q * u;
    assert(units == u * q + rest && 0 <= rest < u) by (nonlinear_arith)
        requires
            rest == units - q * u,
            q * u <= units < (q + 1) * u,
    ;
    lemma_mul_is_commutative(u, q);
    lemma_fundamental_div_mod_converse(units as int, u, q, rest);
    assert(0 <= q <= a) by (nonlinear_arith)
        requires
            a == b * q + r,
            b >= 1,
            0 <= r < b,
            a >= 0,
    ;
    let up = if r == 0 {
        q
    } else {
        q + 1
    };
    let left = a + b - 1 - b * up;
    assert(a + b - 1 == up * b + left && 0 <= left < b) by (nonlinear_arith)
        requires
            left == a + b - 1 - b * up,
            a == b * q + r,
            0 <= r < b,
            up == (if r == 0 {
                q
            } else {
                q + 1
            }),
    ;
    lemma_fundamental_div_mod_converse(a + b - 1, b, up, left);
}

/// Rounding a number that was rounded changes nothing.
pub proof fn lemma_rounded_again(p: nat, a: nat, b: nat)
    requires
        p >= 1,
        b > 0,
    ensures
        rounded(p, rounded(p, a, b), 1) == rounded(p, a, b),
{
    let k = lemma_some_spacing(p, a, b);
    lemma_rounded(p, a, b, k);
    let g = pow2(k);
    let c = b * g;
    lemma_pow2_pos(k);
    lemma_pow2_pos(p);
    assert(c > 0) by (nonlinear_arith)
        requires
            c == b * g,
            b > 0,
            g > 0,
    ;
    let t = nearest_even(a, c);
    lemma_fundamental_div_mod(a as int, c as int);
    lemma_mod_bound(a as int, c as int);
    lemma_pow2_adds(p, k);
    let (q, r) = ((a / c) as int, (a % c) as int);
    assert(q < pow2(p)) by (nonlinear_arith)
        requires
            a == c * q + r,
            0 <= r,
            a < b * (pow2(p) * g),
            c == b * g,
            c > 0,
    ;
    let v = t * g;
    // The number that was rounded is its own counterpart.
    if t < pow2(p) {
        lemma_rounded_of_format(p, t, k);
    } else {
        lemma_pow2_unfold(p);
        lemma_pow2_adds(1, k);
        lemma2_to64();
        let h = pow2((p - 1) as nat);
        lemma_pow2_pos((p - 1) as nat);
        assert(t == 2 * h);
        assert(v == h * pow2(k + 1)) by (nonlinear_arith)
            requires
                v == t * g,
                t == 2 * h,
                pow2(k + 1) == 2 * g,
        ;
        lemma_rounded_of_format(p, h, k + 1);
    }
}

/// A number of the format is not changed by rounding.
proof fn lemma_rounded_of_format(p: nat, m: nat, k: nat)
    requires
        p >= 1,
        m < pow2(p),
    ensures
        rounded(p, m * pow2(k), 1) == m * pow2(k),
{
    let v = m * pow2(k);
    lemma_pow2_pos(k);
    lemma_pow2_adds(p, k);
    assert(v < 1 * pow2(p + k)) by (nonlinear_arith)
        requires
            v == m * pow2(k),
            m < pow2(p),
            pow2(p + k) == pow2(p) * pow2(k),
            pow2(k) > 0,
    ;
    let l = lemma_spacing_exists(p, v, 1, k);
    let rest = (k - l) as nat;
    lemma_pow2_adds(rest, l);
    lemma_pow2_pos(l);
    lemma_rounded(p, v, 1, l);
    let t = m * pow2(rest);
    let c = 1 * pow2(l);
    assert(v == t * c) by (nonlinear_arith)
        requires
            v == m * pow2(k),
            pow2(k) == pow2(rest) * pow2(l),
            t == m * pow2(rest),
            c == 1 * pow2(l),
    ;
    let (ti, ci) = (t as int, c as int);
    assert((2 * ti - 1) * ci == 2 * (ti * ci) - ci) by (nonlinear_arith);
    assert((2 * ti + 1) * ci == 2 * (ti * ci) + ci) by (nonlinear_arith);
    lemma_nearest_even(v, c, t);
}

/// Rounding takes no more than half of a magnitude of at least one unit.
pub proof fn lemma_rounded_above(p: nat, a: nat, b: nat)
    requires
        p >= 1,
        b > 0,
        a >= b,
    ensures
        2 * (rounded(p, a, b) * b) >= a,
{
    let k = lemma_some_spacing(p, a, b);
    lemma_rounded(p, a, b, k);
    let g = pow2(k);
    let c = b * g;
    lemma_pow2_pos(k);
    assert(c > 0) by (nonlinear_arith)
        requires
            c == b * g,
            b > 0,
            g > 0,
    ;
    assert(c <= a) by {
        if k == 0 {
            lemma2_to64();
            assert(c == b) by (nonlinear_arith)
                requires
                    c == b * g,
                    g == 1,
            ;
        } else {
            lemma_pow2_mono(k, (p + k - 1) as nat);
            assert(b * g <= b * pow2((p + k - 1) as nat)) by (nonlinear_arith)
                requires
                    g <= pow2((p + k - 1) as nat),
                    b > 0,
            ;
        }
    }
    lemma_fundamental_div_mod(a as int, c as int);
    lemma_mod_bound(a as int, c as int);
    let t = nearest_even(a, c);
    let q = (a / c) as int;
    assert(2 * (t * c) >= 2 * a - c) by {
        if t == q + 1 {
            assert(t * c == q * c + c) by (nonlinear_arith)
                requires
                    t == q + 1,
            ;
            lemma_mul_is_commutative(c as int, q);
        } else {
            lemma_mul_is_commutative(c as int, q);
        }
    }
    assert((t * g) * b == t * c) by (nonlinear_arith)
        requires
            c == b * g,
    ;
}

} // verus!
