//! Binary floating-point numbers as plain bit patterns.
//!
//! A number of a format is a whole count of the format's smallest positive
//! magnitude, so every finite value is a sign and a natural number. The
//! operations round the exact result to the nearest number of the format, ties
//! to even, as IEEE 754 prescribes.

use vstd::arithmetic::div_mod::{
    lemma_fundamental_div_mod, lemma_fundamental_div_mod_converse, lemma_mod_bound,
};
use vstd::arithmetic::mul::{
    lemma_mul_inequality, lemma_mul_is_associative, lemma_mul_is_commutative,
    lemma_mul_strict_inequality, lemma_mul_strictly_positive,
};
use vstd::arithmetic::power2::{
    lemma2_to64, lemma2_to64_rest, lemma_pow2_adds, lemma_pow2_pos, lemma_pow2_strictly_increases,
    lemma_pow2_unfold, pow2,
};
use vstd::prelude::*;

verus! {

/// The value that a bit pattern stands for. `units` counts multiples of the
/// smallest positive magnitude of the format.
pub enum Number {
    Nan,
    Infinite { negative: bool },
    Finite { negative: bool, units: nat },
}

/// A binary format: the significand has `precision` bits, exponents count from
/// the smallest magnitude up to `top`, and one unit is two to the power `-scale`.
#[derive(Clone, Copy)]
pub struct Format {
    pub precision: u32,
    pub top: u32,
    pub scale: u32,
}

/// The 32-bit format.
pub open spec fn single() -> Format {
    Format { precision: 24, top: 253, scale: 149 }
}

/// The 64-bit format.
pub open spec fn double() -> Format {
    Format { precision: 53, top: 2045, scale: 1074 }
}

pub open spec fn known(f: Format) -> bool {
    f == single() || f == double()
}

/// `a / b` rounded to the nearest integer, ties to the even one.
pub open spec fn nearest_even(a: nat, b: nat) -> nat {
    let q = a / b;
    let r = a % b;
    if 2 * r < b || (2 * r == b && q % 2 == 0) {
        q
    } else {
        q + 1
    }
}

/// `2^k` is the spacing of the numbers of precision `p` around `a / b`.
pub open spec fn spacing(p: nat, a: nat, b: nat, k: nat) -> bool {
    &&& a < b * pow2(p + k)
    &&& k == 0 || b * pow2((p + k - 1) as nat) <= a
}

/// `a / b` units rounded to the nearest magnitude with a significand of `p` bits.
pub open spec fn rounded(p: nat, a: nat, b: nat) -> nat {
    let k = choose|k: nat| spacing(p, a, b, k);
    nearest_even(a, b * pow2(k)) * pow2(k)
}

/// The number of the format nearest to plus or minus `a / b` units.
pub open spec fn from_ratio(f: Format, negative: bool, a: nat, b: nat) -> Number {
    let units = rounded(f.precision as nat, a, b);
    if units >= pow2((f.precision + f.top) as nat) {
        Number::Infinite { negative }
    } else {
        Number::Finite { negative, units }
    }
}

pub proof fn lemma_pow2_mono(a: nat, b: nat)
    requires
        a <= b,
    ensures
        pow2(a) <= pow2(b),
        0 < pow2(a),
{
    lemma_pow2_pos(a);
    if a < b {
        lemma_pow2_strictly_increases(a, b);
    }
}

proof fn lemma_spacing_unique(p: nat, a: nat, b: nat, k: nat, l: nat)
    requires
        p >= 1,
        b > 0,
        spacing(p, a, b, k),
        spacing(p, a, b, l),
    ensures
        k == l,
{
    lemma_spacing_order(p, a, b, k, l);
    lemma_spacing_order(p, a, b, l, k);
}

proof fn lemma_spacing_order(p: nat, a: nat, b: nat, k: nat, l: nat)
    requires
        p >= 1,
        b > 0,
        spacing(p, a, b, k),
        spacing(p, a, b, l),
    ensures
        l <= k,
{
    if k < l {
        lemma_pow2_mono(p + k, (p + l - 1) as nat);
        assert(b * pow2(p + k) <= b * pow2((p + l - 1) as nat)) by (nonlinear_arith)
            requires
                pow2(p + k) <= pow2((p + l - 1) as nat),
                b > 0,
        ;
    }
}

pub proof fn lemma_rounded(p: nat, a: nat, b: nat, k: nat)
    requires
        p >= 1,
        b > 0,
        spacing(p, a, b, k),
    ensures
        rounded(p, a, b) == nearest_even(a, b * pow2(k)) * pow2(k),
{
    let c = choose|k: nat| spacing(p, a, b, k);
    lemma_spacing_unique(p, a, b, k, c);
}

/// What makes `t` the nearest integer to `a / b`, without a division.
pub open spec fn is_nearest_even(a: int, b: int, t: int) -> bool {
    ||| (2 * t - 1) * b < 2 * a < (2 * t + 1) * b
    ||| (t % 2 == 0 && ((2 * t - 1) * b == 2 * a || 2 * a == (2 * t + 1) * b))
}

pub proof fn lemma_nearest_even(a: nat, b: nat, t: nat)
    requires
        b > 0,
        is_nearest_even(a as int, b as int, t as int),
    ensures
        nearest_even(a, b) == t,
{
    let q = (a / b) as int;
    let r = (a % b) as int;
    lemma_fundamental_div_mod(a as int, b as int);
    lemma_mod_bound(a as int, b as int);
    let ti = t as int;
    let bi = b as int;
    let ai = a as int;
    assert(ai == bi * q + r);
    assert((2 * ti - 1) * bi == 2 * (bi * ti) - bi) by (nonlinear_arith);
    assert((2 * ti + 1) * bi == 2 * (bi * ti) + bi) by (nonlinear_arith);
    if ti < q {
        assert(bi * ti + bi <= bi * q) by (nonlinear_arith)
            requires
                ti + 1 <= q,
                bi > 0,
        ;
    } else if ti > q + 1 {
        assert(bi * ti >= bi * q + 2 * bi) by (nonlinear_arith)
            requires
                ti >= q + 2,
                bi > 0,
        ;
    } else if ti == q + 1 {
        assert(bi * ti == bi * q + bi) by (nonlinear_arith)
            requires
                ti == q + 1,
        ;
    }
}

/// The power of two that keeps the exponents of exact results non-negative.
pub open spec fn lift() -> nat {
    8192
}

/// `a / b` is `n` times two to the power `j`, or, with `sticky`, strictly
/// between that and `n + 1` times it.
pub open spec fn brackets(a: nat, b: nat, n: nat, j: int, sticky: bool) -> bool {
    let big = a * pow2(lift());
    let step = b * pow2((j + lift()) as nat);
    if sticky {
        n * step < big < (n + 1) * step
    } else {
        big == n * step
    }
}

proof fn lemma_brackets_spacing(
    p: nat,
    a: nat,
    b: nat,
    n: nat,
    j: int,
    sticky: bool,
    len: nat,
    k: nat,
)
    requires
        p >= 1,
        b > 0,
        len >= 1,
        j + lift() >= 0,
        pow2((len - 1) as nat) <= n < pow2(len),
        brackets(a, b, n, j, sticky),
        k >= len + j - p,
        k > 0 ==> k == len + j - p,
    ensures
        spacing(p, a, b, k),
{
    let up = pow2(lift());
    let e = (j + lift()) as nat;
    let step = b * pow2(e);
    let big = a * up;
    lemma_pow2_pos(lift());
    lemma_pow2_pos(e);
    assert(step > 0) by (nonlinear_arith)
        requires
            step == b * pow2(e),
            b > 0,
            pow2(e) > 0,
    ;
    // Upper bound.
    let l = pow2(len);
    assert(big < l * step) by (nonlinear_arith)
        requires
            n + 1 <= l,
            step > 0,
            big == n * step || big < (n + 1) * step,
    ;
    lemma_pow2_adds(len, e);
    lemma_pow2_mono(len + e, p + k + lift());
    lemma_pow2_adds(p + k, lift());
    let hi = pow2(p + k);
    lemma_mul_swap(l as int, b as int, pow2(e) as int);
    assert(b * (l * pow2(e)) <= b * (hi * up)) by (nonlinear_arith)
        requires
            l * pow2(e) <= hi * up,
            b > 0,
    ;
    lemma_mul_is_associative(b as int, hi as int, up as int);
    lemma_unscaled(a as int, (b * hi) as int, up as int);
    // Lower bound.
    if k > 0 {
        let lo = pow2((p + k - 1) as nat);
        let h = pow2((len - 1) as nat);
        lemma_pow2_adds((len - 1) as nat, e);
        lemma_pow2_adds((p + k - 1) as nat, lift());
        assert((len - 1) as nat + e == (p + k - 1) as nat + lift());
        assert(h * step <= n * step) by (nonlinear_arith)
            requires
                h <= n,
                step > 0,
        ;
        lemma_mul_swap(h as int, b as int, pow2(e) as int);
        lemma_mul_is_associative(b as int, lo as int, up as int);
        assert(b * lo <= a) by (nonlinear_arith)
            requires
                (b * lo) * up <= a * up,
                up > 0,
        ;
    }
}

/// Dropping the low `s` bits of `n` and looking at what was dropped gives the
/// nearest integer.
proof fn lemma_brackets_nearest(
    a: nat,
    b: nat,
    n: nat,
    j: int,
    sticky: bool,
    k: nat,
    s: nat,
    q: nat,
    r: nat,
    t: nat,
)
    requires
        b > 0,
        s >= 1,
        j + lift() >= 0,
        s + j == k,
        brackets(a, b, n, j, sticky),
        n == q * pow2(s) + r,
        r < pow2(s),
        ({
            let half = pow2((s - 1) as nat);
            if r > half || (r == half && (sticky || q % 2 == 1)) {
                t == q + 1
            } else {
                t == q
            }
        }),
    ensures
        nearest_even(a, b * pow2(k)) == t,
{
    let up = pow2(lift());
    let e = (j + lift()) as nat;
    let step = b * pow2(e);
    let half = pow2((s - 1) as nat);
    let w = pow2(s);
    let c = b * pow2(k);
    lemma_pow2_pos(lift());
    lemma_pow2_pos(e);
    lemma_pow2_pos(k);
    lemma_pow2_unfold(s);
    assert(w == 2 * half);
    lemma_pow2_adds(s, e);
    lemma_pow2_adds(k, lift());
    assert(s + e == k + lift());
    assert(step > 0) by (nonlinear_arith)
        requires
            step == b * pow2(e),
            b > 0,
            pow2(e) > 0,
    ;
    assert(c > 0) by (nonlinear_arith)
        requires
            c == b * pow2(k),
            b > 0,
            pow2(k) > 0,
    ;
    assert(c * up == w * step) by (nonlinear_arith)
        requires
            c == b * pow2(k),
            step == b * pow2(e),
            w * pow2(e) == pow2(k) * up,
    ;
    let ai = a as int;
    let ti = t as int;
    let ci = c as int;
    let ui = up as int;
    let si = step as int;
    // Everything is compared after scaling by `up`.
    let lo = (2 * ti - 1) * ci;
    let hi = (2 * ti + 1) * ci;
    assert(lo * ui == ((2 * ti - 1) * (w as int)) * si) by (nonlinear_arith)
        requires
            lo == (2 * ti - 1) * ci,
            ci * ui == (w as int) * si,
    ;
    assert(hi * ui == ((2 * ti + 1) * (w as int)) * si) by (nonlinear_arith)
        requires
            hi == (2 * ti + 1) * ci,
            ci * ui == (w as int) * si,
    ;
    let qw = (q * w) as int;
    assert((2 * ti - 1) * (w as int) == 2 * (ti * (w as int)) - w as int) by (nonlinear_arith);
    assert((2 * ti + 1) * (w as int) == 2 * (ti * (w as int)) + w as int) by (nonlinear_arith);
    assert(t == q + 1 ==> ti * (w as int) == qw + w) by (nonlinear_arith)
        requires
            qw == q * w,
            ti == t,
    ;
    assert(t == q ==> ti * (w as int) == qw);
    let cl = (2 * ti - 1) * (w as int);
    let ch = (2 * ti + 1) * (w as int);
    let n2 = 2 * (n as int);
    let ab = ai * ui;
    assert(2 * (n * si) == n2 * si) by (nonlinear_arith)
        requires
            n2 == 2 * (n as int),
    ;
    assert(2 * ((n + 1) * si) == (n2 + 2) * si) by (nonlinear_arith)
        requires
            n2 == 2 * (n as int),
    ;
    lemma_scaled(cl, n2, si);
    lemma_scaled(n2 + 2, ch, si);
    lemma_scaled(n2, ch, si);
    if sticky {
        assert(lo * ui < (2 * ai) * ui) by (nonlinear_arith)
            requires
                lo * ui <= 2 * ab,
                lo * ui < 2 * ab,
                ab == ai * ui,
        ;
        assert((2 * ai) * ui < hi * ui) by (nonlinear_arith)
            requires
                2 * ab < hi * ui,
                ab == ai * ui,
        ;
        lemma_unscaled(lo, 2 * ai, ui);
        lemma_unscaled(2 * ai, hi, ui);
    } else {
        assert((2 * ai) * ui == n2 * si) by (nonlinear_arith)
            requires
                2 * (ai * ui) == n2 * si,
        ;
        if cl < n2 {
            assert(lo * ui < (2 * ai) * ui) by (nonlinear_arith)
                requires
                    lo * ui == cl * si,
                    (2 * ai) * ui == n2 * si,
                    cl < n2,
                    si > 0,
            ;
            lemma_unscaled(lo, 2 * ai, ui);
        } else {
            assert(cl == n2);
            assert(lo == 2 * ai) by (nonlinear_arith)
                requires
                    lo * ui == (2 * ai) * ui,
                    ui > 0,
            ;
        }
        if n2 < ch {
            assert((2 * ai) * ui < hi * ui) by (nonlinear_arith)
                requires
                    hi * ui == ch * si,
                    (2 * ai) * ui == n2 * si,
                    n2 < ch,
                    si > 0,
            ;
            lemma_unscaled(2 * ai, hi, ui);
        } else {
            assert(ch == n2);
            assert(hi == 2 * ai) by (nonlinear_arith)
                requires
                    hi * ui == (2 * ai) * ui,
                    ui > 0,
            ;
        }
    }
    lemma_nearest_even(a, c, t);
}

proof fn lemma_mul_swap(x: int, y: int, z: int)
    ensures
        x * (y * z) == y * (x * z),
{
    lemma_mul_is_associative(x, y, z);
    lemma_mul_is_commutative(x, y);
    lemma_mul_is_associative(y, x, z);
}

proof fn lemma_scaled(x: int, y: int, s: int)
    requires
        s > 0,
    ensures
        x <= y ==> x * s <= y * s,
{
    if x <= y {
        lemma_mul_inequality(x, y, s);
    }
}

proof fn lemma_unscaled(x: int, y: int, s: int)
    requires
        s > 0,
        x * s < y * s,
    ensures
        x < y,
{
    if x >= y {
        lemma_mul_inequality(y, x, s);
    }
}

/// A bit pattern taken apart: a finite number is `m` times two to the power `k`
/// units.
#[derive(Clone, Copy)]
pub enum Parts {
    Nan,
    Infinite { negative: bool },
    Finite { negative: bool, m: u64, k: u32 },
}

impl Parts {
    pub open spec fn number(self) -> Number {
        match self {
            Parts::Nan => Number::Nan,
            Parts::Infinite { negative } => Number::Infinite { negative },
            Parts::Finite { negative, m, k } => Number::Finite {
                negative,
                units: m as nat * pow2(k as nat),
            },
        }
    }

    /// The significand is as long as the format allows, or the exponent is at
    /// its lowest.
    pub open spec fn canonical(self, f: Format) -> bool {
        match self {
            Parts::Finite { m, k, .. } => {
                &&& m < pow2(f.precision as nat)
                &&& k <= f.top
                &&& k == 0 || pow2((f.precision - 1) as nat) <= m
            },
            _ => true,
        }
    }
}

proof fn lemma_pow2_127()
    ensures
        pow2(63) == 0x8000_0000_0000_0000,
        pow2(64) == 0x1_0000_0000_0000_0000,
        pow2(126) == 0x4000_0000_0000_0000_0000_0000_0000_0000,
        pow2(127) == 0x8000_0000_0000_0000_0000_0000_0000_0000,
{
    lemma2_to64_rest();
    lemma_pow2_adds(63, 63);
    lemma_pow2_adds(63, 64);
}

fn power_of_two(k: u32) -> (r: u128)
    requires
        k <= 127,
    ensures
        r == pow2(k as nat),
        r > 0,
{
    let low: u32 = if k < 63 {
        k
    } else {
        63
    };
    let high: u32 = k - low;
    proof {
        lemma_pow2_127();
        lemma_pow2_pos(k as nat);
        lemma_pow2_mono(low as nat, 63);
        lemma_pow2_mono(high as nat, 64);
        lemma_pow2_mono(k as nat, 127);
        lemma_pow2_adds(low as nat, high as nat);
    }
    if high == 64 {
        return 0x8000_0000_0000_0000_0000_0000_0000_0000;
    }
    proof {
        lemma_pow2_mono(high as nat, 63);
        vstd::bits::lemma_u64_shl_is_mul(1, low as u64);
        vstd::bits::lemma_u64_shl_is_mul(1, high as u64);
    }
    let a: u64 = 1u64 << (low as u64);
    let b: u64 = 1u64 << (high as u64);
    assert(a == pow2(low as nat));
    assert(b == pow2(high as nat));
    (a as u128) * (b as u128)
}

/// The number of binary digits of `n`.
fn bit_length(n: u128) -> (len: u32)
    requires
        0 < n < pow2(127),
    ensures
        1 <= len <= 127,
        pow2((len - 1) as nat) <= n < pow2(len as nat),
{
    let mut len: u32 = 1;
    let mut bound: u128 = 2;
    proof {
        lemma2_to64();
        lemma_pow2_127();
    }
    while bound <= n
        invariant
            0 < n < pow2(127),
            1 <= len <= 127,
            bound == pow2(len as nat),
            pow2((len - 1) as nat) <= n,
        decreases 127 - len,
    {
        proof {
            lemma_pow2_127();
            if len == 127 {
            } else {
                lemma_pow2_unfold((len + 1) as nat);
                lemma_pow2_mono((len + 1) as nat, 127);
            }
        }
        bound = bound * 2;
        len = len + 1;
    }
    len
}

/// Packs a rounded significand: a carry moves into the exponent, and an exponent
/// past the top is an infinity.
fn settle(f: Format, negative: bool, m: u64, k: u32) -> (r: Parts)
    requires
        known(f),
        k <= 10000,
        m <= pow2(f.precision as nat),
        k == 0 || pow2((f.precision - 1) as nat) <= m,
    ensures
        r.canonical(f),
        r.number() == (if m as nat * pow2(k as nat) >= pow2((f.precision + f.top) as nat) {
            Number::Infinite { negative }
        } else {
            Number::Finite { negative, units: m as nat * pow2(k as nat) }
        }),
{
    let p: u32 = f.precision;
    let full: u64 = power_of_two_64(p);
    let half: u64 = power_of_two_64(p - 1);
    proof {
        lemma_pow2_unfold(p as nat);
    }
    let mut m2: u64 = m;
    let mut k2: u32 = k;
    if m == full {
        m2 = half;
        k2 = k + 1;
        proof {
            lemma_pow2_unfold((k + 1) as nat);
            assert(half as nat * pow2((k + 1) as nat) == m as nat * pow2(k as nat))
                by (nonlinear_arith)
                requires
                    m == 2 * half,
                    pow2((k + 1) as nat) == 2 * pow2(k as nat),
            ;
        }
    }
    let ghost units = m2 as nat * pow2(k2 as nat);
    if k2 > f.top {
        proof {
            lemma_pow2_adds((p - 1) as nat, k2 as nat);
            lemma_pow2_mono((p + f.top) as nat, (p - 1 + k2) as nat);
            lemma_mul_inequality(half as int, m2 as int, pow2(k2 as nat) as int);
        }
        Parts::Infinite { negative }
    } else {
        proof {
            lemma_pow2_adds(p as nat, f.top as nat);
            lemma_pow2_mono(k2 as nat, f.top as nat);
            assert(m2 as nat * pow2(k2 as nat) < full as nat * pow2(f.top as nat))
                by (nonlinear_arith)
                requires
                    m2 < full,
                    0 < pow2(k2 as nat) <= pow2(f.top as nat),
            ;
        }
        Parts::Finite { negative, m: m2, k: k2 }
    }
}

fn power_of_two_64(k: u32) -> (r: u64)
    requires
        k <= 63,
    ensures
        r == pow2(k as nat),
        r > 0,
{
    proof {
        lemma_pow2_127();
        lemma_pow2_mono(k as nat, 63);
        lemma_pow2_pos(k as nat);
        vstd::bits::lemma_u64_shl_is_mul(1, k as u64);
    }
    1u64 << (k as u64)
}

/// Rounds an exact result, given by its leading digits `n`, their exponent `j`,
/// and whether digits follow that `n` leaves out.
fn round_parts(
    f: Format,
    negative: bool,
    n: u128,
    j: i32,
    sticky: bool,
    Ghost(a): Ghost<nat>,
    Ghost(b): Ghost<nat>,
) -> (r: Parts)
    requires
        known(f),
        0 < n < pow2(127),
        -8000 <= j <= 8000,
        b > 0,
        brackets(a, b, n as nat, j as int, sticky),
        sticky ==> pow2(f.precision as nat) <= n,
    ensures
        r.canonical(f),
        r.number() == from_ratio(f, negative, a, b),
{
    let p: u32 = f.precision;
    let len: u32 = bit_length(n);
    let wanted: i32 = len as i32 + j - p as i32;
    let k: u32 = if wanted > 0 {
        wanted as u32
    } else {
        0
    };
    let s: i32 = k as i32 - j;
    proof {
        lemma_brackets_spacing(p as nat, a, b, n as nat, j as int, sticky, len as nat, k as nat);
        lemma_rounded(p as nat, a, b, k as nat);
        lemma_pow2_127();
    }
    if s <= 0 {
        proof {
            if sticky {
                lemma_pow2_mono(len as nat, p as nat);
            }
        }
        let shift: u32 = (-s) as u32;
        assert(shift + len <= p);
        let w: u128 = power_of_two(shift);
        proof {
            lemma_pow2_adds(len as nat, shift as nat);
            lemma_pow2_adds((len - 1) as nat, shift as nat);
            lemma_pow2_mono((len + shift) as nat, p as nat);
            lemma_pow2_mono(p as nat, 63);
            lemma_mul_strict_inequality(n as int, pow2(len as nat) as int, w as int);
            lemma_mul_inequality(pow2((len - 1) as nat) as int, n as int, w as int);
            lemma_exact_shift(a, b, n as nat, j as int, k as nat, shift as nat);
        }
        let m: u64 = (n * w) as u64;
        settle(f, negative, m, k)
    } else if s > 127 {
        proof {
            lemma_pow2_mono(127, (s - 1) as nat);
            lemma_pow2_mono((s - 1) as nat, s as nat);
            assert(k == 0);
            lemma_brackets_nearest(
                a, b, n as nat, j as int, sticky, k as nat, s as nat, 0, n as nat, 0,
            );
        }
        settle(f, negative, 0, 0)
    } else {
        let half: u128 = power_of_two((s - 1) as u32);
        let w: u128 = power_of_two(s as u32);
        proof {
            lemma_fundamental_div_mod(n as int, w as int);
            lemma_mod_bound(n as int, w as int);
            lemma_mul_is_commutative(w as int, n as int / w as int);
        }
        let q: u128 = n / w;
        let rest: u128 = n % w;
        proof {
            // q < 2^p
            lemma_pow2_adds(p as nat, s as nat);
            lemma_pow2_mono(len as nat, (p + s) as nat);
            assert(q < pow2(p as nat)) by (nonlinear_arith)
                requires
                    q as int * w as int <= n,
                    n < pow2(p as nat) * w,
                    w > 0,
            ;
            lemma_pow2_mono(p as nat, 63);
            if k > 0 {
                lemma_pow2_adds((p - 1) as nat, s as nat);
                assert(pow2((p - 1) as nat) <= q) by (nonlinear_arith)
                    requires
                        q as int * w as int + rest == n,
                        rest < w,
                        pow2((p - 1) as nat) * w <= n,
                        w > 0,
                ;
            }
        }
        let up: bool = rest > half || (rest == half && (sticky || q % 2 == 1));
        let m: u64 = if up {
            q as u64 + 1
        } else {
            q as u64
        };
        proof {
            lemma_brackets_nearest(
                a,
                b,
                n as nat,
                j as int,
                sticky,
                k as nat,
                s as nat,
                q as nat,
                rest as nat,
                m as nat,
            );
        }
        settle(f, negative, m, k)
    }
}

proof fn lemma_exact_shift(a: nat, b: nat, n: nat, j: int, k: nat, shift: nat)
    requires
        b > 0,
        j + lift() >= 0,
        k + shift == j,
        brackets(a, b, n, j, false),
    ensures
        nearest_even(a, b * pow2(k)) == n * pow2(shift),
{
    let up = pow2(lift());
    let e = (j + lift()) as nat;
    lemma_pow2_adds(k + shift, lift());
    lemma_pow2_adds(shift, k);
    lemma_pow2_pos(lift());
    lemma_pow2_pos(k);
    let c = b * pow2(k);
    let t = n * pow2(shift);
    assert(c > 0) by (nonlinear_arith)
        requires
            c == b * pow2(k),
            b > 0,
            pow2(k) > 0,
    ;
    assert(a * up == (t * c) * up) by (nonlinear_arith)
        requires
            a * up == n * (b * pow2(e)),
            pow2(e) == (pow2(shift) * pow2(k)) * up,
            c == b * pow2(k),
            t == n * pow2(shift),
    ;
    assert(a == t * c) by (nonlinear_arith)
        requires
            a * up == (t * c) * up,
            up > 0,
    ;
    let ti = t as int;
    let ci = c as int;
    assert((2 * ti - 1) * ci == 2 * (ti * ci) - ci) by (nonlinear_arith);
    assert((2 * ti + 1) * ci == 2 * (ti * ci) + ci) by (nonlinear_arith);
    lemma_nearest_even(a, c, t);
}

/// A finite number of units with its sign.
pub open spec fn signed(negative: bool, units: nat) -> int {
    if negative {
        -(units as int)
    } else {
        units as int
    }
}

pub open spec fn magnitude(i: int) -> nat {
    if i < 0 {
        (-i) as nat
    } else {
        i as nat
    }
}

pub open spec fn negated(x: Number) -> Number {
    match x {
        Number::Nan => Number::Nan,
        Number::Infinite { negative } => Number::Infinite { negative: !negative },
        Number::Finite { negative, units } => Number::Finite { negative: !negative, units },
    }
}

/// `x + y`.
#[verifier::opaque]
pub open spec fn sum(f: Format, x: Number, y: Number) -> Number {
    match (x, y) {
        (Number::Nan, _) => Number::Nan,
        (_, Number::Nan) => Number::Nan,
        (Number::Infinite { negative: s }, Number::Infinite { negative: t }) => if s == t {
            x
        } else {
            Number::Nan
        },
        (Number::Infinite { .. }, _) => x,
        (_, Number::Infinite { .. }) => y,
        (Number::Finite { negative: s, units: u }, Number::Finite { negative: t, units: v }) => {
            let exact = signed(s, u) + signed(t, v);
            if exact == 0 {
                Number::Finite { negative: s && t, units: 0 }
            } else {
                from_ratio(f, exact < 0, magnitude(exact), 1)
            }
        },
    }
}

/// `x - y`.
pub open spec fn difference(f: Format, x: Number, y: Number) -> Number {
    sum(f, x, negated(y))
}

/// `x * y`.
#[verifier::opaque]
pub open spec fn product(f: Format, x: Number, y: Number) -> Number {
    match (x, y) {
        (Number::Nan, _) => Number::Nan,
        (_, Number::Nan) => Number::Nan,
        (Number::Infinite { negative: s }, Number::Infinite { negative: t }) => {
            Number::Infinite { negative: s != t }
        },
        (Number::Infinite { negative: s }, Number::Finite { negative: t, units }) => if units == 0 {
            Number::Nan
        } else {
            Number::Infinite { negative: s != t }
        },
        (Number::Finite { negative: s, units }, Number::Infinite { negative: t }) => if units == 0 {
            Number::Nan
        } else {
            Number::Infinite { negative: s != t }
        },
        (Number::Finite { negative: s, units: u }, Number::Finite { negative: t, units: v }) => {
            from_ratio(f, s != t, u * v, pow2(f.scale as nat))
        },
    }
}

/// `x / y`.
#[verifier::opaque]
pub open spec fn quotient(f: Format, x: Number, y: Number) -> Number {
    match (x, y) {
        (Number::Nan, _) => Number::Nan,
        (_, Number::Nan) => Number::Nan,
        (Number::Infinite { .. }, Number::Infinite { .. }) => Number::Nan,
        (Number::Infinite { negative: s }, Number::Finite { negative: t, .. }) => {
            Number::Infinite { negative: s != t }
        },
        (Number::Finite { negative: s, .. }, Number::Infinite { negative: t }) => {
            Number::Finite { negative: s != t, units: 0 }
        },
        (Number::Finite { negative: s, units: u }, Number::Finite { negative: t, units: v }) => {
            if v == 0 {
                if u == 0 {
                    Number::Nan
                } else {
                    Number::Infinite { negative: s != t }
                }
            } else {
                from_ratio(f, s != t, u * pow2(f.scale as nat), v)
            }
        },
    }
}

/// `x < y`; never of a NaN.
#[verifier::opaque]
pub open spec fn less(x: Number, y: Number) -> bool {
    match (x, y) {
        (Number::Nan, _) => false,
        (_, Number::Nan) => false,
        (Number::Infinite { negative: s }, Number::Infinite { negative: t }) => s && !t,
        (Number::Infinite { negative: s }, _) => s,
        (_, Number::Infinite { negative: t }) => !t,
        (Number::Finite { negative: s, units: u }, Number::Finite { negative: t, units: v }) => {
            signed(s, u) < signed(t, v)
        },
    }
}

/// The number of the format nearest to an integer.
#[verifier::opaque]
pub open spec fn of_integer(f: Format, i: int) -> Number {
    from_ratio(f, i < 0, magnitude(i) * pow2(f.scale as nat), 1)
}

pub open spec fn saturate(i: int, low: int, high: int) -> int {
    if i < low {
        low
    } else if i > high {
        high
    } else {
        i
    }
}

/// The ways to get from a number to an integer.
#[derive(Clone, Copy)]
pub enum Toward {
    Zero,
    Below,
    Above,
    /// The nearest, halves away from zero.
    Nearest,
}

pub open spec fn whole(f: Format, toward: Toward, negative: bool, units: nat) -> int {
    let one = pow2(f.scale as nat);
    let down = units / one;
    let more = match toward {
        Toward::Zero => false,
        Toward::Below => negative && units % one != 0,
        Toward::Above => !negative && units % one != 0,
        Toward::Nearest => 2 * (units % one) >= one,
    };
    signed(negative, if more { down + 1 } else { down })
}

/// The integer that a conversion gives: a NaN gives zero, and what lies outside
/// the range of the target gives its nearer end.
#[verifier::opaque]
pub open spec fn to_integer(f: Format, toward: Toward, x: Number, low: int, high: int) -> int {
    match x {
        Number::Nan => 0,
        Number::Infinite { negative } => if negative {
            low
        } else {
            high
        },
        Number::Finite { negative, units } => saturate(
            whole(f, toward, negative, units),
            low,
            high,
        ),
    }
}

proof fn lemma_from_zero(f: Format, negative: bool, b: nat)
    requires
        b > 0,
        known(f),
    ensures
        from_ratio(f, negative, 0, b) == (Number::Finite { negative, units: 0 }),
{
    let p = f.precision as nat;
    lemma_pow2_pos(p);
    lemma_pow2_pos((f.precision + f.top) as nat);
    lemma_pow2_pos(0);
    assert(b * pow2(p + 0) > 0) by (nonlinear_arith)
        requires
            b > 0,
            pow2(p) > 0,
    ;
    assert(b * pow2(0) > 0) by (nonlinear_arith)
        requires
            b > 0,
            pow2(0) > 0,
    ;
    assert(spacing(p, 0, b, 0));
    lemma_rounded(p, 0, b, 0);
    let c = (b * pow2(0)) as int;
    assert((2 * 0 - 1) * c < 0 && 0 < (2 * 0 + 1) * c) by (nonlinear_arith)
        requires
            c > 0,
    ;
    lemma_nearest_even(0, b * pow2(0), 0);
    assert(0 * pow2(0) == 0) by (nonlinear_arith);
}

proof fn lemma_units_zero(m: u64, k: u32)
    ensures
        (m as nat * pow2(k as nat) == 0) == (m == 0),
{
    lemma_pow2_pos(k as nat);
    if m > 0 {
        lemma_mul_strictly_positive(m as int, pow2(k as nat) as int);
    }
}

fn multiply(f: Format, x: Parts, y: Parts) -> (r: Parts)
    requires
        known(f),
        x.canonical(f),
        y.canonical(f),
    ensures
        r.canonical(f),
        r.number() == product(f, x.number(), y.number()),
{
    proof {
        reveal(product);
    }
    match (x, y) {
        (Parts::Nan, _) => Parts::Nan,
        (_, Parts::Nan) => Parts::Nan,
        (Parts::Infinite { negative: s }, Parts::Infinite { negative: t }) => Parts::Infinite {
            negative: s != t,
        },
        (Parts::Infinite { negative: s }, Parts::Finite { negative: t, m, k }) => {
            proof {
                lemma_units_zero(m, k);
            }
            if m == 0 {
                Parts::Nan
            } else {
                Parts::Infinite { negative: s != t }
            }
        },
        (Parts::Finite { negative: s, m, k }, Parts::Infinite { negative: t }) => {
            proof {
                lemma_units_zero(m, k);
            }
            if m == 0 {
                Parts::Nan
            } else {
                Parts::Infinite { negative: s != t }
            }
        },
        (Parts::Finite { negative: s, m: m1, k: k1 }, Parts::Finite { negative: t, m: m2, k: k2 }) => {
            let ghost u = m1 as nat * pow2(k1 as nat);
            let ghost v = m2 as nat * pow2(k2 as nat);
            let ghost one = pow2(f.scale as nat);
            proof {
                lemma_pow2_pos(f.scale as nat);
                lemma_pow2_pos((f.precision - 1) as nat);
                lemma_units_zero(m1, k1);
                lemma_units_zero(m2, k2);
                lemma_pow2_mono(f.precision as nat, 53);
                lemma2_to64_rest();
            }
            if m1 == 0 || m2 == 0 {
                proof {
                    assert(u * v == 0) by (nonlinear_arith)
                        requires
                            u == 0 || v == 0,
                    ;
                    lemma_from_zero(f, s != t, one);
                    lemma_units_zero(0, 0);
                }
                return Parts::Finite { negative: s != t, m: 0, k: 0 };
            }
            assert(m1 as int * m2 as int <= 0x20_0000_0000_0000 * 0x20_0000_0000_0000)
                by (nonlinear_arith)
                requires
                    0 < m1 <= 0x20_0000_0000_0000,
                    0 < m2 <= 0x20_0000_0000_0000,
            ;
            assert(m1 as int * m2 as int > 0) by (nonlinear_arith)
                requires
                    0 < m1,
                    0 < m2,
            ;
            let n: u128 = m1 as u128 * m2 as u128;
            let j: i32 = k1 as i32 + k2 as i32 - f.scale as i32;
            proof {
                lemma_pow2_127();
                let e = (j + lift()) as nat;
                lemma_pow2_adds(k1 as nat, k2 as nat);
                lemma_pow2_adds((k1 + k2) as nat, lift());
                lemma_pow2_adds(f.scale as nat, e);
                assert((u * v) * pow2(lift()) == n as nat * (one * pow2(e))) by (nonlinear_arith)
                    requires
                        u == m1 as nat * pow2(k1 as nat),
                        v == m2 as nat * pow2(k2 as nat),
                        n as nat == m1 as nat * m2 as nat,
                        one * pow2(e) == (pow2(k1 as nat) * pow2(k2 as nat)) * pow2(lift()),
                ;
            }
            round_parts(f, s != t, n, j, false, Ghost(u * v), Ghost(one))
        },
    }
}

fn divide(f: Format, x: Parts, y: Parts) -> (r: Parts)
    requires
        known(f),
        x.canonical(f),
        y.canonical(f),
    ensures
        r.canonical(f),
        r.number() == quotient(f, x.number(), y.number()),
{
    proof {
        reveal(quotient);
    }
    proof {
        lemma_units_zero(0, 0);
        lemma_pow2_pos(f.precision as nat);
    }
    match (x, y) {
        (Parts::Nan, _) => Parts::Nan,
        (_, Parts::Nan) => Parts::Nan,
        (Parts::Infinite { .. }, Parts::Infinite { .. }) => Parts::Nan,
        (Parts::Infinite { negative: s }, Parts::Finite { negative: t, .. }) => Parts::Infinite {
            negative: s != t,
        },
        (Parts::Finite { negative: s, .. }, Parts::Infinite { negative: t }) => Parts::Finite {
            negative: s != t,
            m: 0,
            k: 0,
        },
        (Parts::Finite { negative: s, m: m1, k: k1 }, Parts::Finite { negative: t, m: m2, k: k2 }) => {
            let ghost u = m1 as nat * pow2(k1 as nat);
            let ghost v = m2 as nat * pow2(k2 as nat);
            let ghost one = pow2(f.scale as nat);
            proof {
                lemma_pow2_pos(f.scale as nat);
                lemma_units_zero(m1, k1);
                lemma_units_zero(m2, k2);
                lemma_pow2_mono(f.precision as nat, 53);
                lemma2_to64_rest();
                lemma_pow2_127();
            }
            if m2 == 0 {
                if m1 == 0 {
                    Parts::Nan
                } else {
                    Parts::Infinite { negative: s != t }
                }
            } else if m1 == 0 {
                proof {
                    assert(u * one == 0) by (nonlinear_arith)
                        requires
                            u == 0,
                    ;
                    lemma_from_zero(f, s != t, v);
                }
                Parts::Finite { negative: s != t, m: 0, k: 0 }
            } else {
                let len: u32 = bit_length(m1 as u128);
                proof {
                    if len > 53 {
                        lemma_pow2_mono(53, (len - 1) as nat);
                    }
                }
                let shift: u32 = 126 - len;
                let w: u128 = power_of_two(shift);
                proof {
                    lemma_pow2_adds((len - 1) as nat, shift as nat);
                    lemma_pow2_adds(len as nat, shift as nat);
                    lemma_mul_inequality(pow2((len - 1) as nat) as int, m1 as int, w as int);
                    lemma_mul_strict_inequality(m1 as int, pow2(len as nat) as int, w as int);
                    lemma_pow2_adds(72, 53);
                }
                let top: u128 = m1 as u128 * w;
                let d: u128 = m2 as u128;
                let n: u128 = top / d;
                let rest: u128 = top % d;
                let j: i32 = k1 as i32 + f.scale as i32 - shift as i32 - k2 as i32;
                proof {
                    lemma_fundamental_div_mod(top as int, d as int);
                    lemma_mod_bound(top as int, d as int);
                    assert(pow2(72) <= n) by (nonlinear_arith)
                        requires
                            top as int == d as int * n as int + rest as int,
                            rest < d,
                            0 < d <= pow2(53),
                            pow2(72) * pow2(53) <= top,
                    ;
                    assert(n <= top) by (nonlinear_arith)
                        requires
                            top as int == d as int * n as int + rest as int,
                            d >= 1,
                            rest >= 0,
                    ;
                    lemma_pow2_mono(f.precision as nat, 72);
                    let e = (j + lift()) as nat;
                    let pe = pow2(e);
                    let pk = pow2(k2 as nat);
                    lemma_pow2_adds(k1 as nat, f.scale as nat);
                    lemma_pow2_adds((k1 + f.scale) as nat, lift());
                    lemma_pow2_adds(shift as nat, k2 as nat);
                    lemma_pow2_adds((shift + k2) as nat, e);
                    lemma_pow2_pos(e);
                    lemma_pow2_pos(k2 as nat);
                    let g = pk * pe;
                    assert(g > 0) by (nonlinear_arith)
                        requires
                            g == pk * pe,
                            pk > 0,
                            pe > 0,
                    ;
                    assert((u * one) * pow2(lift()) == top as nat * g) by (nonlinear_arith)
                        requires
                            u == m1 as nat * pow2(k1 as nat),
                            top as nat == m1 as nat * w as nat,
                            g == pk * pe,
                            (pow2(k1 as nat) * one) * pow2(lift()) == (w as nat * pk) * pe,
                    ;
                    assert(v * pe == d as nat * g) by (nonlinear_arith)
                        requires
                            v == m2 as nat * pk,
                            d as nat == m2 as nat,
                            g == pk * pe,
                    ;
                    assert(n as nat * (v * pe) + rest as nat * g == top as nat * g) by (nonlinear_arith)
                        requires
                            v * pe == d as nat * g,
                            top as nat == d as nat * n as nat + rest as nat,
                    ;
                    assert((n as nat + 1) * (v * pe) == n as nat * (v * pe) + d as nat * g)
                        by (nonlinear_arith)
                        requires
                            v * pe == d as nat * g,
                    ;
                    lemma_mul_strict_inequality(rest as int, d as int, g as int);
                    if rest == 0 {
                        assert(rest as nat * g == 0) by (nonlinear_arith)
                            requires
                                rest == 0,
                        ;
                    } else {
                        lemma_mul_strictly_positive(rest as int, g as int);
                    }
                }
                round_parts(f, s != t, n, j, rest != 0, Ghost(u * one), Ghost(v))
            }
        },
    }
}

/// The sum of two finite numbers, the first with the larger exponent.
fn add_finite(
    f: Format,
    s: bool,
    m1: u64,
    k1: u32,
    t: bool,
    m2: u64,
    k2: u32,
) -> (r: Parts)
    requires
        known(f),
        k1 >= k2,
        (Parts::Finite { negative: s, m: m1, k: k1 }).canonical(f),
        (Parts::Finite { negative: t, m: m2, k: k2 }).canonical(f),
    ensures
        r.canonical(f),
        r.number() == sum(
            f,
            (Parts::Finite { negative: s, m: m1, k: k1 }).number(),
            (Parts::Finite { negative: t, m: m2, k: k2 }).number(),
        ),
{
    proof {
        reveal(sum);
    }
    let d: u32 = k1 - k2;
    let ghost u = m1 as nat * pow2(k1 as nat);
    let ghost v = m2 as nat * pow2(k2 as nat);
    let ghost exact = signed(s, u) + signed(t, v);
    proof {
        lemma_pow2_mono(f.precision as nat, 53);
        lemma_pow2_pos(f.precision as nat);
        lemma2_to64();
        lemma2_to64_rest();
        lemma_pow2_127();
        lemma_pow2_pos(k1 as nat);
        lemma_pow2_pos(k2 as nat);
        lemma_units_zero(m1, k1);
        lemma_units_zero(m2, k2);
        lemma_units_zero(0, 0);
        lemma_pow2_adds(d as nat, k2 as nat);
    }
    if d <= 70 {
        let w: u128 = power_of_two(d);
        proof {
            lemma_pow2_adds(53, 70);
            lemma_pow2_adds(6, 64);
            lemma_pow2_mono(d as nat, 70);
            assert(m1 as int * w as int <= pow2(53) * pow2(70)) by (nonlinear_arith)
                requires
                    0 <= m1 <= pow2(53),
                    0 <= w <= pow2(70),
            ;
            lemma_pow2_mono(123, 126);
            lemma_pow2_adds(60, 63);
        }
        let a: u128 = m1 as u128 * w;
        let b: u128 = m2 as u128;
        let ghost pk = pow2(k2 as nat);
        proof {
            assert(u == a as nat * pk) by (nonlinear_arith)
                requires
                    u == m1 as nat * pow2(k1 as nat),
                    pow2(k1 as nat) == w as nat * pk,
                    a as nat == m1 as nat * w as nat,
            ;
        }
        let (negative, n): (bool, u128) = if s == t {
            (s, a + b)
        } else if a >= b {
            (s, a - b)
        } else {
            (t, b - a)
        };
        proof {
            assert((a + b) as nat * pk == u + v) by (nonlinear_arith)
                requires
                    u == a as nat * pk,
                    v == b as nat * pk,
            ;
            assert(a >= b ==> (a - b) * pk == u - v) by (nonlinear_arith)
                requires
                    u == a as nat * pk,
                    v == b as nat * pk,
            ;
            assert(b >= a ==> (b - a) * pk == v - u) by (nonlinear_arith)
                requires
                    u == a as nat * pk,
                    v == b as nat * pk,
            ;
            assert(n as nat * pk == magnitude(exact)) by {
                lemma_mul_inequality(0, n as int, pk as int);
            }
            assert((n == 0) == (n as nat * pk == 0)) by (nonlinear_arith)
                requires
                    pk > 0,
            ;
        }
        if n == 0 {
            Parts::Finite { negative: s && t, m: 0, k: 0 }
        } else {
            proof {
                let e = (k2 + lift()) as nat;
                lemma_pow2_adds(k2 as nat, lift());
                lemma_mul_is_associative(n as int, pk as int, pow2(lift()) as int);
                assert(1 * pow2(e) == pow2(e)) by (nonlinear_arith);
            }
            round_parts(f, negative, n, k2 as i32, false, Ghost(magnitude(exact)), Ghost(1))
        }
    } else if m2 == 0 {
        proof {
            lemma_canonical_exact(f, s, m1, k1);
        }
        Parts::Finite { negative: s, m: m1, k: k1 }
    } else {
        let base: u128 = m1 as u128 * 0x4_0000;
        let ghost g = pow2((k1 - 18) as nat);
        let n: u128 = if s == t {
            base
        } else {
            base - 1
        };
        proof {
            lemma_pow2_adds(18, (k1 - 18) as nat);
            lemma_pow2_unfold(f.precision as nat);
            lemma_pow2_mono(1, (f.precision - 1) as nat);
            assert(u == base as nat * g) by (nonlinear_arith)
                requires
                    u == m1 as nat * pow2(k1 as nat),
                    pow2(k1 as nat) == 0x4_0000 * g,
                    base as nat == m1 as nat * 0x4_0000,
            ;
            // The smaller operand is less than one step of `base`.
            lemma_pow2_adds(53, k2 as nat);
            lemma_pow2_mono((53 + k2) as nat, (k1 - 18) as nat);
            lemma_mul_strict_inequality(m2 as int, pow2(53) as int, pow2(k2 as nat) as int);
            assert(0 < v < g);
            assert((base + 1) as nat * g == u + g) by (nonlinear_arith)
                requires
                    u == base as nat * g,
            ;
            assert((base - 1) as nat * g == u - g) by (nonlinear_arith)
                requires
                    u == base as nat * g,
                    base >= 1,
            ;
            let up = pow2(lift());
            lemma_pow2_pos(lift());
            let e = (k1 - 18 + lift()) as nat;
            lemma_pow2_adds((k1 - 18) as nat, lift());
            let step = 1 * pow2(e);
            let q = magnitude(exact);
            let lo = n as nat * g;
            let hi = (n + 1) as nat * g;
            assert(lo < q < hi);
            lemma_mul_strict_inequality(lo as int, q as int, up as int);
            lemma_mul_strict_inequality(q as int, hi as int, up as int);
            lemma_mul_is_associative(n as int, g as int, up as int);
            lemma_mul_is_associative(n as int + 1, g as int, up as int);
        }
        round_parts(f, s, n, k1 as i32 - 18, true, Ghost(magnitude(exact)), Ghost(1))
    }
}

/// A canonical number rounds to itself.
proof fn lemma_canonical_exact(f: Format, s: bool, m: u64, k: u32)
    requires
        known(f),
        (Parts::Finite { negative: s, m, k }).canonical(f),
    ensures
        from_ratio(f, s, m as nat * pow2(k as nat), 1) == (Parts::Finite {
            negative: s,
            m,
            k,
        }).number(),
{
    let p = f.precision as nat;
    let a = m as nat * pow2(k as nat);
    lemma_pow2_pos(k as nat);
    lemma_pow2_adds(p, k as nat);
    lemma_mul_strict_inequality(m as int, pow2(p) as int, pow2(k as nat) as int);
    assert(1 * pow2(p + k as nat) == pow2(p + k as nat)) by (nonlinear_arith);
    if k > 0 {
        lemma_pow2_adds((p - 1) as nat, k as nat);
        lemma_mul_inequality(pow2((p - 1) as nat) as int, m as int, pow2(k as nat) as int);
        let l = pow2((p + k - 1) as nat);
        assert(1 * l == l) by (nonlinear_arith);
    }
    lemma_rounded(p, a, 1, k as nat);
    let c = 1 * pow2(k as nat);
    let ti = m as int;
    let ci = c as int;
    assert((2 * ti - 1) * ci == 2 * (ti * ci) - ci) by (nonlinear_arith);
    assert((2 * ti + 1) * ci == 2 * (ti * ci) + ci) by (nonlinear_arith);
    lemma_nearest_even(a, c, m as nat);
    lemma_pow2_mono(p + k as nat, p + f.top as nat);
}

fn add_parts(f: Format, x: Parts, y: Parts) -> (r: Parts)
    requires
        known(f),
        x.canonical(f),
        y.canonical(f),
    ensures
        r.canonical(f),
        r.number() == sum(f, x.number(), y.number()),
{
    proof {
        reveal(sum);
    }
    match (x, y) {
        (Parts::Nan, _) => Parts::Nan,
        (_, Parts::Nan) => Parts::Nan,
        (Parts::Infinite { negative: s }, Parts::Infinite { negative: t }) => if s == t {
            x
        } else {
            Parts::Nan
        },
        (Parts::Infinite { .. }, _) => x,
        (_, Parts::Infinite { .. }) => y,
        (Parts::Finite { negative: s, m: m1, k: k1 }, Parts::Finite { negative: t, m: m2, k: k2 }) => {
            if k1 >= k2 {
                add_finite(f, s, m1, k1, t, m2, k2)
            } else {
                add_finite(f, t, m2, k2, s, m1, k1)
            }
        },
    }
}

proof fn lemma_canonical_order(f: Format, m1: u64, k1: u32, m2: u64, k2: u32)
    requires
        known(f),
        (Parts::Finite { negative: false, m: m1, k: k1 }).canonical(f),
        (Parts::Finite { negative: false, m: m2, k: k2 }).canonical(f),
    ensures
        (m1 as nat * pow2(k1 as nat) < m2 as nat * pow2(k2 as nat)) == (k1 < k2 || (k1 == k2 && m1
            < m2)),
{
    if k1 < k2 {
        lemma_canonical_below(f, m1, k1, m2, k2);
    } else if k2 < k1 {
        lemma_canonical_below(f, m2, k2, m1, k1);
    } else {
        let g = pow2(k1 as nat);
        lemma_pow2_pos(k1 as nat);
        if m1 < m2 {
            lemma_mul_strict_inequality(m1 as int, m2 as int, g as int);
        } else {
            lemma_mul_inequality(m2 as int, m1 as int, g as int);
        }
    }
}

proof fn lemma_canonical_below(f: Format, m1: u64, k1: u32, m2: u64, k2: u32)
    requires
        known(f),
        k1 < k2,
        (Parts::Finite { negative: false, m: m1, k: k1 }).canonical(f),
        (Parts::Finite { negative: false, m: m2, k: k2 }).canonical(f),
    ensures
        m1 as nat * pow2(k1 as nat) < m2 as nat * pow2(k2 as nat),
{
    let p = f.precision as nat;
    lemma_pow2_pos(k1 as nat);
    lemma_pow2_pos(k2 as nat);
    lemma_pow2_adds(p, k1 as nat);
    lemma_pow2_adds((p - 1) as nat, k2 as nat);
    lemma_pow2_mono(p + k1 as nat, (p - 1) as nat + k2 as nat);
    lemma_mul_strict_inequality(m1 as int, pow2(p) as int, pow2(k1 as nat) as int);
    lemma_mul_inequality(pow2((p - 1) as nat) as int, m2 as int, pow2(k2 as nat) as int);
}

fn below(f: Format, x: Parts, y: Parts) -> (r: bool)
    requires
        known(f),
        x.canonical(f),
        y.canonical(f),
    ensures
        r == less(x.number(), y.number()),
{
    proof {
        reveal(less);
    }
    match (x, y) {
        (Parts::Nan, _) => false,
        (_, Parts::Nan) => false,
        (Parts::Infinite { negative: s }, Parts::Infinite { negative: t }) => s && !t,
        (Parts::Infinite { negative: s }, _) => s,
        (_, Parts::Infinite { negative: t }) => !t,
        (Parts::Finite { negative: s, m: m1, k: k1 }, Parts::Finite { negative: t, m: m2, k: k2 }) => {
            proof {
                lemma_canonical_order(f, m1, k1, m2, k2);
                lemma_canonical_order(f, m2, k2, m1, k1);
                lemma_units_zero(m1, k1);
                lemma_units_zero(m2, k2);
            }
            if s {
                if t {
                    k2 < k1 || (k1 == k2 && m2 < m1)
                } else {
                    m1 > 0 || m2 > 0
                }
            } else if t {
                false
            } else {
                k1 < k2 || (k1 == k2 && m1 < m2)
            }
        },
    }
}

/// The number nearest to an integer of up to 64 bits.
fn parts_of_integer(f: Format, negative: bool, n: u64) -> (r: Parts)
    requires
        known(f),
        n == 0 ==> !negative,
    ensures
        r.canonical(f),
        r.number() == of_integer(f, signed(negative, n as nat)),
{
    proof {
        reveal(of_integer);
    }
    let ghost one = pow2(f.scale as nat);
    proof {
        lemma_pow2_127();
        lemma_units_zero(0, 0);
        lemma_pow2_pos(f.precision as nat);
    }
    if n == 0 {
        proof {
            assert(0 * one == 0) by (nonlinear_arith);
            lemma_from_zero(f, false, 1);
        }
        Parts::Finite { negative: false, m: 0, k: 0 }
    } else {
        proof {
            let e = (f.scale + lift()) as nat;
            lemma_pow2_adds(f.scale as nat, lift());
            lemma_mul_is_associative(n as int, one as int, pow2(lift()) as int);
            assert(1 * pow2(e) == pow2(e)) by (nonlinear_arith);
        }
        round_parts(
            f,
            negative,
            n as u128,
            f.scale as i32,
            false,
            Ghost(n as nat * one),
            Ghost(1),
        )
    }
}

/// Splits a magnitude at the binary point: the integer part up to a cap, whether
/// anything is left over, and whether that is at least a half.
fn split_units(f: Format, m: u64, k: u32) -> (r: (u128, bool, bool))
    requires
        known(f),
        m < pow2(53),
        k <= f.top,
    ensures
        ({
            let units = m as nat * pow2(k as nat);
            let one = pow2(f.scale as nat);
            &&& r.0 < 0x1_0000_0000_0000_0000 ==> r.0 == units / one
            &&& r.0 >= 0x1_0000_0000_0000_0000 ==> units / one >= 0x1_0000_0000_0000_0000
            &&& r.0 < 0x4000_0000_0000_0000_0000_0000_0000_0000
            &&& r.1 == (units % one != 0)
            &&& r.2 == (2 * (units % one) >= one)
        }),
{
    let ghost units = m as nat * pow2(k as nat);
    let ghost one = pow2(f.scale as nat);
    proof {
        lemma_pow2_pos(f.scale as nat);
        lemma_pow2_pos(k as nat);
        lemma_units_zero(m, k);
        lemma2_to64_rest();
        lemma_pow2_127();
    }
    if m == 0 {
        proof {
            lemma_fundamental_div_mod_converse(0, one as int, 0, 0);
        }
        return (0, false, false);
    }
    if k >= f.scale {
        let e: u32 = k - f.scale;
        proof {
            lemma_pow2_adds(e as nat, f.scale as nat);
            let q = m as nat * pow2(e as nat);
            assert(units == q * one + 0) by (nonlinear_arith)
                requires
                    units == m as nat * pow2(k as nat),
                    pow2(k as nat) == pow2(e as nat) * one,
                    q == m as nat * pow2(e as nat),
            ;
            lemma_fundamental_div_mod_converse(units as int, one as int, q as int, 0);
        }
        if e >= 64 {
            proof {
                lemma_pow2_mono(64, e as nat);
                lemma_mul_inequality(1, m as int, pow2(e as nat) as int);
            }
            (0x1_0000_0000_0000_0000, false, false)
        } else {
            let w: u128 = power_of_two(e);
            proof {
                lemma_pow2_mono(e as nat, 63);
                assert(m as int * w as int <= pow2(53) * pow2(63)) by (nonlinear_arith)
                    requires
                        0 <= m <= pow2(53),
                        0 <= w <= pow2(63),
                ;
            }
            (m as u128 * w, false, false)
        }
    } else {
        let s: u32 = f.scale - k;
        proof {
            lemma_pow2_adds(s as nat, k as nat);
        }
        if s >= 64 {
            proof {
                lemma_pow2_mono(64, s as nat);
                assert(2 * units < one) by (nonlinear_arith)
                    requires
                        units == m as nat * pow2(k as nat),
                        one == pow2(s as nat) * pow2(k as nat),
                        2 * m < pow2(s as nat),
                        pow2(k as nat) > 0,
                ;
                lemma_fundamental_div_mod_converse(units as int, one as int, 0, units as int);
            }
            (0, true, false)
        } else {
            let w: u64 = power_of_two_64(s);
            let q: u64 = m / w;
            let rest: u64 = m % w;
            proof {
                let g = pow2(k as nat);
                lemma_fundamental_div_mod(m as int, w as int);
                lemma_mod_bound(m as int, w as int);
                assert(units == q as nat * one + rest as nat * g) by (nonlinear_arith)
                    requires
                        units == m as nat * g,
                        one == w as nat * g,
                        m as nat == w as nat * q as nat + rest as nat,
                ;
                lemma_mul_strict_inequality(rest as int, w as int, g as int);
                lemma_fundamental_div_mod_converse(
                    units as int,
                    one as int,
                    q as int,
                    (rest as nat * g) as int,
                );
                assert((rest == 0) == (rest as nat * g == 0)) by (nonlinear_arith)
                    requires
                        g > 0,
                ;
                assert((2 * rest >= w) == (2 * (rest as nat * g) >= one)) by (nonlinear_arith)
                    requires
                        g > 0,
                        one == w as nat * g,
                ;
                lemma_pow2_mono(s as nat, 63);
            }
            (q as u128, rest != 0, rest >= w - rest)
        }
    }
}

/// Converts to an integer: sign and magnitude, the magnitude capped above 64
/// bits.
fn whole_parts(f: Format, toward: Toward, negative: bool, m: u64, k: u32) -> (r: u128)
    requires
        known(f),
        m < pow2(53),
        k <= f.top,
    ensures
        ({
            let exact = magnitude(whole(f, toward, negative, m as nat * pow2(k as nat)));
            &&& r < 0x1_0000_0000_0000_0000 ==> r == exact
            &&& r >= 0x1_0000_0000_0000_0000 ==> exact >= 0x1_0000_0000_0000_0000
        }),
        whole(f, toward, negative, m as nat * pow2(k as nat)) == signed(
            negative,
            magnitude(whole(f, toward, negative, m as nat * pow2(k as nat))),
        ),
{
    let (down, left, half): (u128, bool, bool) = split_units(f, m, k);
    let more: bool = match toward {
        Toward::Zero => false,
        Toward::Below => negative && left,
        Toward::Above => !negative && left,
        Toward::Nearest => half,
    };
    if more {
        down + 1
    } else {
        down
    }
}

fn parts_to_i64(f: Format, toward: Toward, x: Parts) -> (r: i64)
    requires
        known(f),
        x.canonical(f),
    ensures
        r == to_integer(f, toward, x.number(), i64::MIN as int, i64::MAX as int),
{
    proof {
        reveal(to_integer);
    }
    proof {
        lemma_pow2_mono(f.precision as nat, 53);
    }
    match x {
        Parts::Nan => 0,
        Parts::Infinite { negative } => if negative {
            i64::MIN
        } else {
            i64::MAX
        },
        Parts::Finite { negative, m, k } => {
            let n: u128 = whole_parts(f, toward, negative, m, k);
            if negative {
                if n >= 0x8000_0000_0000_0000 {
                    i64::MIN
                } else {
                    -(n as i64)
                }
            } else if n > 0x7fff_ffff_ffff_ffff {
                i64::MAX
            } else {
                n as i64
            }
        },
    }
}

fn parts_to_u64(f: Format, toward: Toward, x: Parts) -> (r: u64)
    requires
        known(f),
        x.canonical(f),
    ensures
        r == to_integer(f, toward, x.number(), 0, u64::MAX as int),
{
    proof {
        reveal(to_integer);
    }
    proof {
        lemma_pow2_mono(f.precision as nat, 53);
    }
    match x {
        Parts::Nan => 0,
        Parts::Infinite { negative } => if negative {
            0
        } else {
            u64::MAX
        },
        Parts::Finite { negative, m, k } => {
            let n: u128 = whole_parts(f, toward, negative, m, k);
            if negative {
                0
            } else if n > 0xffff_ffff_ffff_ffff {
                u64::MAX
            } else {
                n as u64
            }
        },
    }
}

/// `x > 0`.
pub open spec fn positive(x: Number) -> bool {
    less(Number::Finite { negative: false, units: 0 }, x)
}

/// `x <= y`; never of a NaN.
pub open spec fn no_more(x: Number, y: Number) -> bool {
    x != Number::Nan && y != Number::Nan && !less(y, x)
}

pub open spec fn larger(x: Number, y: Number) -> Number {
    if x == Number::Nan {
        y
    } else if y == Number::Nan {
        x
    } else if less(x, y) {
        y
    } else {
        x
    }
}

pub open spec fn smaller(x: Number, y: Number) -> Number {
    if x == Number::Nan {
        y
    } else if y == Number::Nan {
        x
    } else if less(y, x) {
        y
    } else {
        x
    }
}

pub open spec fn clamp_number(x: Number, low: Number, high: Number) -> Number {
    if less(x, low) {
        low
    } else if less(high, x) {
        high
    } else {
        x
    }
}

/// `x == y`, with the two zeros equal and a NaN equal to nothing.
pub open spec fn same(x: Number, y: Number) -> bool {
    x != Number::Nan && y != Number::Nan && !less(x, y) && !less(y, x)
}

/// The number without its sign.
pub open spec fn absolute(x: Number) -> Number {
    match x {
        Number::Nan => Number::Nan,
        Number::Infinite { .. } => Number::Infinite { negative: false },
        Number::Finite { units, .. } => Number::Finite { negative: false, units },
    }
}

/// What is left of `x` after taking away `y` as often as it fits, with the sign of
/// `x`.
#[verifier::opaque]
pub open spec fn remainder(x: Number, y: Number) -> Number {
    match (x, y) {
        (Number::Nan, _) => Number::Nan,
        (_, Number::Nan) => Number::Nan,
        (Number::Infinite { .. }, _) => Number::Nan,
        (Number::Finite { .. }, Number::Infinite { .. }) => x,
        (Number::Finite { negative, units: u }, Number::Finite { units: v, .. }) => if v == 0 {
            Number::Nan
        } else {
            Number::Finite { negative, units: u % v }
        },
    }
}

/// The remainder that is not negative.
pub open spec fn euclidean_remainder(f: Format, x: Number, y: Number) -> Number {
    let r = remainder(x, y);
    if less(r, Number::Finite { negative: false, units: 0 }) {
        sum(f, r, absolute(y))
    } else {
        r
    }
}

proof fn lemma_double_mod(r: int, m: int, x: int)
    requires
        m > 0,
        r == x % m,
    ensures
        (2 * r) % m == (2 * x) % m,
{
    lemma_fundamental_div_mod(x, m);
    lemma_fundamental_div_mod(2 * r, m);
    lemma_mod_bound(2 * r, m);
    let q = x / m;
    let t = (2 * r) / m;
    let z = (2 * r) % m;
    assert(2 * x == (2 * q + t) * m + z) by (nonlinear_arith)
        requires
            x == m * q + r,
            2 * r == m * t + z,
    ;
    lemma_fundamental_div_mod_converse(2 * x, m, 2 * q + t, z);
}

/// A finite number in its canonical parts.
fn normalized(f: Format, negative: bool, m: u64, k: u32) -> (r: Parts)
    requires
        known(f),
        m < pow2(f.precision as nat),
        k <= f.top,
    ensures
        r.canonical(f),
        r.number() == (Number::Finite { negative, units: m as nat * pow2(k as nat) }),
{
    proof {
        lemma_units_zero(m, k);
        lemma_units_zero(0, 0);
        lemma_pow2_127();
        lemma_pow2_pos(f.precision as nat);
        lemma2_to64_rest();
        lemma_pow2_mono(f.precision as nat, 53);
    }
    if m == 0 {
        return Parts::Finite { negative, m: 0, k: 0 };
    }
    let mut m2: u64 = m;
    let mut k2: u32 = k;
    let half: u64 = power_of_two_64(f.precision - 1);
    proof {
        lemma_pow2_unfold(f.precision as nat);
    }
    while k2 > 0 && m2 < half
        invariant
            known(f),
            half == pow2((f.precision - 1) as nat),
            pow2(f.precision as nat) == 2 * half,
            pow2(f.precision as nat) <= 0x20_0000_0000_0000,
            0 < m2 < pow2(f.precision as nat),
            k2 <= f.top,
            m2 as nat * pow2(k2 as nat) == m as nat * pow2(k as nat),
        decreases k2,
    {
        proof {
            lemma_pow2_unfold(k2 as nat);
            let lower = pow2((k2 - 1) as nat);
            assert((2 * m2) as nat * lower == m2 as nat * pow2(k2 as nat)) by (nonlinear_arith)
                requires
                    pow2(k2 as nat) == 2 * lower,
            ;
        }
        m2 = m2 * 2;
        k2 = k2 - 1;
    }
    Parts::Finite { negative, m: m2, k: k2 }
}

fn rest_of(f: Format, x: Parts, y: Parts) -> (r: Parts)
    requires
        known(f),
        x.canonical(f),
        y.canonical(f),
    ensures
        r.canonical(f),
        r.number() == remainder(x.number(), y.number()),
{
    proof {
        reveal(remainder);
    }
    match (x, y) {
        (Parts::Nan, _) => Parts::Nan,
        (_, Parts::Nan) => Parts::Nan,
        (Parts::Infinite { .. }, _) => Parts::Nan,
        (Parts::Finite { .. }, Parts::Infinite { .. }) => x,
        (Parts::Finite { negative: s, m: m1, k: k1 }, Parts::Finite { negative: _, m: m2, k: k2 }) => {
            let ghost u = m1 as nat * pow2(k1 as nat);
            let ghost v = m2 as nat * pow2(k2 as nat);
            proof {
                lemma_units_zero(m2, k2);
                lemma_pow2_mono(f.precision as nat, 53);
                lemma2_to64_rest();
                lemma_pow2_pos(k2 as nat);
            }
            if m2 == 0 {
                return Parts::Nan;
            }
            if k1 < k2 {
                proof {
                    lemma_canonical_below(f, m1, k1, m2, k2);
                    lemma_fundamental_div_mod_converse(u as int, v as int, 0, u as int);
                }
                return x;
            }
            let mut r: u64 = m1 % m2;
            let mut d: u32 = k1 - k2;
            let ghost mut done: nat = 0;
            proof {
                assert(pow2(0) == 1) by {
                    lemma2_to64();
                }
                assert(m1 as nat * pow2(0) == m1) by (nonlinear_arith)
                    requires
                        pow2(0) == 1,
                ;
            }
            while d > 0
                invariant
                    0 < m2 <= 0x20_0000_0000_0000,
                    r < m2,
                    done + d == k1 - k2,
                    r == (m1 as nat * pow2(done)) % (m2 as nat),
                decreases d,
            {
                proof {
                    let a = (m1 as nat * pow2(done)) as int;
                    lemma_double_mod(r as int, m2 as int, a);
                    lemma_pow2_unfold(done + 1);
                    assert(m1 as nat * pow2(done + 1) == 2 * a) by (nonlinear_arith)
                        requires
                            pow2(done + 1) == 2 * pow2(done),
                            a == m1 as nat * pow2(done),
                    ;
                    done = done + 1;
                }
                r = (2 * r) % m2;
                d = d - 1;
            }
            proof {
                let g = pow2(k2 as nat);
                let a = m1 as nat * pow2((k1 - k2) as nat);
                lemma_pow2_adds((k1 - k2) as nat, k2 as nat);
                assert(u == a * g) by (nonlinear_arith)
                    requires
                        u == m1 as nat * pow2(k1 as nat),
                        pow2(k1 as nat) == pow2((k1 - k2) as nat) * g,
                        a == m1 as nat * pow2((k1 - k2) as nat),
                ;
                lemma_fundamental_div_mod(a as int, m2 as int);
                let q = a as int / m2 as int;
                assert(u == q * v + r as int * g) by (nonlinear_arith)
                    requires
                        u == a * g,
                        v == m2 as nat * g,
                        a == m2 as int * q + r as int,
                ;
                lemma_mul_strict_inequality(r as int, m2 as int, g as int);
                lemma_mul_inequality(0, r as int, g as int);
                lemma_fundamental_div_mod_converse(u as int, v as int, q, r as int * g as int);
            }
            normalized(f, s, r, k2)
        },
    }
}

/// The value of a 32-bit pattern.
#[verifier::opaque]
pub open spec fn number_of_bits32(bits: u32) -> Number {
    let negative = bits >= 0x8000_0000;
    let low = bits as int % 0x8000_0000;
    let exponent = low / 0x80_0000;
    let fraction = low % 0x80_0000;
    if exponent == 255 {
        if fraction == 0 {
            Number::Infinite { negative }
        } else {
            Number::Nan
        }
    } else if exponent == 0 {
        Number::Finite { negative, units: fraction as nat }
    } else {
        Number::Finite {
            negative,
            units: (fraction + 0x80_0000) as nat * pow2((exponent - 1) as nat),
        }
    }
}

/// A 32-bit floating-point number, kept as its bit pattern.
#[derive(Clone, Copy, Debug)]
pub struct Float32 {
    pub bits: u32,
}

impl View for Float32 {
    type V = Number;

    open spec fn view(&self) -> Number {
        number_of_bits32(self.bits)
    }
}

impl Float32 {
    fn format() -> (f: Format)
        ensures
            f == single(),
    {
        Format { precision: 24, top: 253, scale: 149 }
    }

    fn parts(self) -> (p: Parts)
        ensures
            p.canonical(single()),
            p.number() == self@,
    {
        proof {
            reveal(number_of_bits32);
        }
        let negative: bool = self.bits >= 0x8000_0000;
        let low: u32 = self.bits % 0x8000_0000;
        let exponent: u32 = low / 0x80_0000;
        let fraction: u32 = low % 0x80_0000;
        proof {
            lemma2_to64();
            lemma2_to64_rest();
        }
        if exponent == 255 {
            if fraction == 0 {
                Parts::Infinite { negative }
            } else {
                Parts::Nan
            }
        } else if exponent == 0 {
            proof {
                assert(fraction as nat * pow2(0) == fraction) by (nonlinear_arith)
                    requires
                        pow2(0) == 1,
                ;
            }
            Parts::Finite { negative, m: fraction as u64, k: 0 }
        } else {
            Parts::Finite { negative, m: (fraction + 0x80_0000) as u64, k: (exponent - 1) as u32 }
        }
    }

    fn pack(p: Parts) -> (r: Float32)
        requires
            p.canonical(single()),
        ensures
            r@ == p.number(),
    {
        proof {
            reveal(number_of_bits32);
        }
        proof {
            lemma2_to64();
            lemma2_to64_rest();
        }
        match p {
            Parts::Nan => Float32 { bits: 0x7fc0_0000 },
            Parts::Infinite { negative } => if negative {
                Float32 { bits: 0x8000_0000 + 255 * 0x80_0000 }
            } else {
                Float32 { bits: 255 * 0x80_0000 }
            },
            Parts::Finite { negative, m, k } => {
                let low: u32 = k as u32 * 0x80_0000 + m as u32;
                let bits: u32 = if negative {
                    0x8000_0000 + low
                } else {
                    low
                };
                proof {
                    if m < 0x80_0000 {
                        assert(m as nat * pow2(0) == m) by (nonlinear_arith)
                            requires
                                pow2(0) == 1,
                        ;
                    } else {
                        assert(low == (k + 1) * 0x80_0000 + (m - 0x80_0000));
                    }
                }
                Float32 { bits }
            },
        }
    }

    /// `self + other`.
    pub fn plus(self, other: Float32) -> (r: Float32)
        ensures
            r@ == sum(single(), self@, other@),
    {
        Float32::pack(add_parts(Float32::format(), self.parts(), other.parts()))
    }

    /// `-self`.
    pub fn negate(self) -> (r: Float32)
        ensures
            r@ == negated(self@),
    {
        proof {
            reveal(number_of_bits32);
        }
        if self.bits >= 0x8000_0000 {
            Float32 { bits: self.bits - 0x8000_0000 }
        } else {
            Float32 { bits: self.bits + 0x8000_0000 }
        }
    }

    /// `self - other`.
    pub fn minus(self, other: Float32) -> (r: Float32)
        ensures
            r@ == difference(single(), self@, other@),
    {
        self.plus(other.negate())
    }

    /// `self * other`.
    pub fn times(self, other: Float32) -> (r: Float32)
        ensures
            r@ == product(single(), self@, other@),
    {
        Float32::pack(multiply(Float32::format(), self.parts(), other.parts()))
    }

    /// `self / other`.
    pub fn over(self, other: Float32) -> (r: Float32)
        ensures
            r@ == quotient(single(), self@, other@),
    {
        Float32::pack(divide(Float32::format(), self.parts(), other.parts()))
    }

    /// `self < other`.
    pub fn less_than(self, other: Float32) -> (r: bool)
        ensures
            r == less(self@, other@),
    {
        below(Float32::format(), self.parts(), other.parts())
    }

    /// `self <= other`.
    pub fn at_most(self, other: Float32) -> (r: bool)
        ensures
            r == no_more(self@, other@),
    {
        if self.is_nan() || other.is_nan() {
            false
        } else {
            !other.less_than(self)
        }
    }

    /// `self > 0`.
    pub fn is_positive(self) -> (r: bool)
        ensures
            r == positive(self@),
    {
        proof {
            reveal(less);
        }
        match self.parts() {
            Parts::Nan => false,
            Parts::Infinite { negative } => !negative,
            Parts::Finite { negative, m, k } => {
                proof {
                    lemma_units_zero(m, k);
                }
                !negative && m > 0
            },
        }
    }

    pub fn is_nan(self) -> (r: bool)
        ensures
            r == (self@ == Number::Nan),
    {
        matches!(self.parts(), Parts::Nan)
    }

    /// The larger of the two; the other one where one is a NaN.
    pub fn maximum(self, other: Float32) -> (r: Float32)
        ensures
            r@ == larger(self@, other@),
    {
        if self.is_nan() {
            other
        } else if other.is_nan() {
            self
        } else if self.less_than(other) {
            other
        } else {
            self
        }
    }

    /// The smaller of the two; the other one where one is a NaN.
    pub fn minimum(self, other: Float32) -> (r: Float32)
        ensures
            r@ == smaller(self@, other@),
    {
        if self.is_nan() {
            other
        } else if other.is_nan() {
            self
        } else if other.less_than(self) {
            other
        } else {
            self
        }
    }

    /// `self` held within `low..=high`; a NaN stays one.
    pub fn clamped(self, low: Float32, high: Float32) -> (r: Float32)
        ensures
            r@ == clamp_number(self@, low@, high@),
    {
        if self.less_than(low) {
            low
        } else if high.less_than(self) {
            high
        } else {
            self
        }
    }

    /// The number nearest to `n`.
    pub fn from_i64(n: i64) -> (r: Float32)
        ensures
            r@ == of_integer(single(), n as int),
    {
        let units: u64 = if n < 0 {
            if n == i64::MIN {
                0x8000_0000_0000_0000
            } else {
                (-n) as u64
            }
        } else {
            n as u64
        };
        Float32::pack(parts_of_integer(Float32::format(), n < 0, units))
    }

    /// The number nearest to `n`.
    pub fn from_u64(n: u64) -> (r: Float32)
        ensures
            r@ == of_integer(single(), n as int),
    {
        Float32::pack(parts_of_integer(Float32::format(), false, n))
    }

    /// The integer next to `self` in the given direction, held within `i64`.
    pub fn to_i64(self, toward: Toward) -> (r: i64)
        ensures
            r == to_integer(single(), toward, self@, i64::MIN as int, i64::MAX as int),
    {
        parts_to_i64(Float32::format(), toward, self.parts())
    }

    /// The integer next to `self` in the given direction, held within `u64`.
    pub fn to_u64(self, toward: Toward) -> (r: u64)
        ensures
            r == to_integer(single(), toward, self@, 0, u64::MAX as int),
    {
        parts_to_u64(Float32::format(), toward, self.parts())
    }

    /// `self == other`.
    pub fn equals(self, other: Float32) -> (r: bool)
        ensures
            r == same(self@, other@),
    {
        !self.is_nan() && !other.is_nan() && !self.less_than(other) && !other.less_than(self)
    }

    /// The number without its sign.
    pub fn magnitude(self) -> (r: Float32)
        ensures
            r@ == absolute(self@),
    {
        proof {
            reveal(number_of_bits32);
        }
        Float32 { bits: self.bits % 0x8000_0000 }
    }

    /// `self % other`.
    pub fn rest(self, other: Float32) -> (r: Float32)
        ensures
            r@ == remainder(self@, other@),
    {
        Float32::pack(rest_of(Float32::format(), self.parts(), other.parts()))
    }

    /// The remainder that is not negative.
    pub fn rest_euclid(self, other: Float32) -> (r: Float32)
        ensures
            r@ == euclidean_remainder(single(), self@, other@),
    {
        let r: Float32 = self.rest(other);
        proof {
            reveal(number_of_bits32);
        }
        if r.less_than(Float32 { bits: 0 }) {
            r.plus(other.magnitude())
        } else {
            r
        }
    }

    /// The integer next to `self` in the given direction, held within `i32`.
    pub fn to_i32(self, toward: Toward) -> (r: i32)
        ensures
            r == to_integer(single(), toward, self@, i32::MIN as int, i32::MAX as int),
    {
        proof {
            reveal(to_integer);
        }
        let n: i64 = self.to_i64(toward);
        if n < i32::MIN as i64 {
            i32::MIN
        } else if n > i32::MAX as i64 {
            i32::MAX
        } else {
            n as i32
        }
    }

    /// The integer next to `self` in the given direction, held within `u32`.
    pub fn to_u32(self, toward: Toward) -> (r: u32)
        ensures
            r == to_integer(single(), toward, self@, 0, u32::MAX as int),
    {
        proof {
            reveal(to_integer);
        }
        let n: u64 = self.to_u64(toward);
        if n > u32::MAX as u64 {
            u32::MAX
        } else {
            n as u32
        }
    }

    /// The integer next to `self` in the given direction, held within `u8`.
    pub fn to_u8(self, toward: Toward) -> (r: u8)
        ensures
            r == to_integer(single(), toward, self@, 0, 255),
    {
        proof {
            reveal(to_integer);
        }
        let n: u64 = self.to_u64(toward);
        if n > 255 {
            255
        } else {
            n as u8
        }
    }
}

/// The value of a 64-bit pattern.
#[verifier::opaque]
pub open spec fn number_of_bits64(bits: u64) -> Number {
    let negative = bits >= 0x8000_0000_0000_0000;
    let low = bits as int % 0x8000_0000_0000_0000;
    let exponent = low / 0x10_0000_0000_0000;
    let fraction = low % 0x10_0000_0000_0000;
    if exponent == 2047 {
        if fraction == 0 {
            Number::Infinite { negative }
        } else {
            Number::Nan
        }
    } else if exponent == 0 {
        Number::Finite { negative, units: fraction as nat }
    } else {
        Number::Finite {
            negative,
            units: (fraction + 0x10_0000_0000_0000) as nat * pow2((exponent - 1) as nat),
        }
    }
}

/// A 64-bit floating-point number, kept as its bit pattern.
#[derive(Clone, Copy, Debug)]
pub struct Float64 {
    pub bits: u64,
}

impl View for Float64 {
    type V = Number;

    open spec fn view(&self) -> Number {
        number_of_bits64(self.bits)
    }
}

impl Float64 {
    fn format() -> (f: Format)
        ensures
            f == double(),
    {
        Format { precision: 53, top: 2045, scale: 1074 }
    }

    fn parts(self) -> (p: Parts)
        ensures
            p.canonical(double()),
            p.number() == self@,
    {
        proof {
            reveal(number_of_bits64);
        }
        let negative: bool = self.bits >= 0x8000_0000_0000_0000;
        let low: u64 = self.bits % 0x8000_0000_0000_0000;
        let exponent: u64 = low / 0x10_0000_0000_0000;
        let fraction: u64 = low % 0x10_0000_0000_0000;
        proof {
            lemma2_to64();
            lemma2_to64_rest();
        }
        if exponent == 2047 {
            if fraction == 0 {
                Parts::Infinite { negative }
            } else {
                Parts::Nan
            }
        } else if exponent == 0 {
            proof {
                assert(fraction as nat * pow2(0) == fraction) by (nonlinear_arith)
                    requires
                        pow2(0) == 1,
                ;
            }
            Parts::Finite { negative, m: fraction as u64, k: 0 }
        } else {
            Parts::Finite { negative, m: (fraction + 0x10_0000_0000_0000) as u64, k: (exponent - 1) as u32 }
        }
    }

    fn pack(p: Parts) -> (r: Float64)
        requires
            p.canonical(double()),
        ensures
            r@ == p.number(),
    {
        proof {
            reveal(number_of_bits64);
        }
        proof {
            lemma2_to64();
            lemma2_to64_rest();
        }
        match p {
            Parts::Nan => {
                let bits: u64 = 0x7ff8_0000_0000_0000;
                proof {
                    assert(bits as int % 0x8000_0000_0000_0000 == 0x7ff8_0000_0000_0000);
                    assert(0x7ff8_0000_0000_0000int / 0x10_0000_0000_0000 == 2047);
                    assert(0x7ff8_0000_0000_0000int % 0x10_0000_0000_0000 == 0x8_0000_0000_0000);
                }
                Float64 { bits }
            },
            Parts::Infinite { negative } => if negative {
                Float64 { bits: 0x8000_0000_0000_0000 + 2047 * 0x10_0000_0000_0000 }
            } else {
                Float64 { bits: 2047 * 0x10_0000_0000_0000 }
            },
            Parts::Finite { negative, m, k } => {
                let low: u64 = k as u64 * 0x10_0000_0000_0000 + m as u64;
                let bits: u64 = if negative {
                    0x8000_0000_0000_0000 + low
                } else {
                    low
                };
                proof {
                    if m < 0x10_0000_0000_0000 {
                        assert(m as nat * pow2(0) == m) by (nonlinear_arith)
                            requires
                                pow2(0) == 1,
                        ;
                    } else {
                        assert(low == (k + 1) * 0x10_0000_0000_0000 + (m - 0x10_0000_0000_0000));
                    }
                }
                Float64 { bits }
            },
        }
    }

    /// `self + other`.
    pub fn plus(self, other: Float64) -> (r: Float64)
        ensures
            r@ == sum(double(), self@, other@),
    {
        Float64::pack(add_parts(Float64::format(), self.parts(), other.parts()))
    }

    /// `-self`.
    pub fn negate(self) -> (r: Float64)
        ensures
            r@ == negated(self@),
    {
        proof {
            reveal(number_of_bits64);
        }
        if self.bits >= 0x8000_0000_0000_0000 {
            Float64 { bits: self.bits - 0x8000_0000_0000_0000 }
        } else {
            Float64 { bits: self.bits + 0x8000_0000_0000_0000 }
        }
    }

    /// `self - other`.
    pub fn minus(self, other: Float64) -> (r: Float64)
        ensures
            r@ == difference(double(), self@, other@),
    {
        self.plus(other.negate())
    }

    /// `self * other`.
    pub fn times(self, other: Float64) -> (r: Float64)
        ensures
            r@ == product(double(), self@, other@),
    {
        Float64::pack(multiply(Float64::format(), self.parts(), other.parts()))
    }

    /// `self / other`.
    pub fn over(self, other: Float64) -> (r: Float64)
        ensures
            r@ == quotient(double(), self@, other@),
    {
        Float64::pack(divide(Float64::format(), self.parts(), other.parts()))
    }

    /// `self < other`.
    pub fn less_than(self, other: Float64) -> (r: bool)
        ensures
            r == less(self@, other@),
    {
        below(Float64::format(), self.parts(), other.parts())
    }

    /// `self <= other`.
    pub fn at_most(self, other: Float64) -> (r: bool)
        ensures
            r == no_more(self@, other@),
    {
        if self.is_nan() || other.is_nan() {
            false
        } else {
            !other.less_than(self)
        }
    }

    /// `self > 0`.
    pub fn is_positive(self) -> (r: bool)
        ensures
            r == positive(self@),
    {
        proof {
            reveal(less);
        }
        match self.parts() {
            Parts::Nan => false,
            Parts::Infinite { negative } => !negative,
            Parts::Finite { negative, m, k } => {
                proof {
                    lemma_units_zero(m, k);
                }
                !negative && m > 0
            },
        }
    }

    pub fn is_nan(self) -> (r: bool)
        ensures
            r == (self@ == Number::Nan),
    {
        matches!(self.parts(), Parts::Nan)
    }

    /// The larger of the two; the other one where one is a NaN.
    pub fn maximum(self, other: Float64) -> (r: Float64)
        ensures
            r@ == larger(self@, other@),
    {
        if self.is_nan() {
            other
        } else if other.is_nan() {
            self
        } else if self.less_than(other) {
            other
        } else {
            self
        }
    }

    /// The smaller of the two; the other one where one is a NaN.
    pub fn minimum(self, other: Float64) -> (r: Float64)
        ensures
            r@ == smaller(self@, other@),
    {
        if self.is_nan() {
            other
        } else if other.is_nan() {
            self
        } else if other.less_than(self) {
            other
        } else {
            self
        }
    }

    /// `self` held within `low..=high`; a NaN stays one.
    pub fn clamped(self, low: Float64, high: Float64) -> (r: Float64)
        ensures
            r@ == clamp_number(self@, low@, high@),
    {
        if self.less_than(low) {
            low
        } else if high.less_than(self) {
            high
        } else {
            self
        }
    }

    /// The number nearest to `n`.
    pub fn from_i64(n: i64) -> (r: Float64)
        ensures
            r@ == of_integer(double(), n as int),
    {
        let units: u64 = if n < 0 {
            if n == i64::MIN {
                0x8000_0000_0000_0000
            } else {
                (-n) as u64
            }
        } else {
            n as u64
        };
        Float64::pack(parts_of_integer(Float64::format(), n < 0, units))
    }

    /// The number nearest to `n`.
    pub fn from_u64(n: u64) -> (r: Float64)
        ensures
            r@ == of_integer(double(), n as int),
    {
        Float64::pack(parts_of_integer(Float64::format(), false, n))
    }

    /// The integer next to `self` in the given direction, held within `i64`.
    pub fn to_i64(self, toward: Toward) -> (r: i64)
        ensures
            r == to_integer(double(), toward, self@, i64::MIN as int, i64::MAX as int),
    {
        parts_to_i64(Float64::format(), toward, self.parts())
    }

    /// The integer next to `self` in the given direction, held within `u64`.
    pub fn to_u64(self, toward: Toward) -> (r: u64)
        ensures
            r == to_integer(double(), toward, self@, 0, u64::MAX as int),
    {
        parts_to_u64(Float64::format(), toward, self.parts())
    }

    /// `self == other`.
    pub fn equals(self, other: Float64) -> (r: bool)
        ensures
            r == same(self@, other@),
    {
        !self.is_nan() && !other.is_nan() && !self.less_than(other) && !other.less_than(self)
    }

    /// The number without its sign.
    pub fn magnitude(self) -> (r: Float64)
        ensures
            r@ == absolute(self@),
    {
        proof {
            reveal(number_of_bits64);
        }
        Float64 { bits: self.bits % 0x8000_0000_0000_0000 }
    }

    /// `self % other`.
    pub fn rest(self, other: Float64) -> (r: Float64)
        ensures
            r@ == remainder(self@, other@),
    {
        Float64::pack(rest_of(Float64::format(), self.parts(), other.parts()))
    }

    /// The remainder that is not negative.
    pub fn rest_euclid(self, other: Float64) -> (r: Float64)
        ensures
            r@ == euclidean_remainder(double(), self@, other@),
    {
        let r: Float64 = self.rest(other);
        proof {
            reveal(number_of_bits64);
        }
        if r.less_than(Float64 { bits: 0 }) {
            r.plus(other.magnitude())
        } else {
            r
        }
    }

    /// The integer next to `self` in the given direction, held within `i32`.
    pub fn to_i32(self, toward: Toward) -> (r: i32)
        ensures
            r == to_integer(double(), toward, self@, i32::MIN as int, i32::MAX as int),
    {
        proof {
            reveal(to_integer);
        }
        let n: i64 = self.to_i64(toward);
        if n < i32::MIN as i64 {
            i32::MIN
        } else if n > i32::MAX as i64 {
            i32::MAX
        } else {
            n as i32
        }
    }

    /// The integer next to `self` in the given direction, held within `u32`.
    pub fn to_u32(self, toward: Toward) -> (r: u32)
        ensures
            r == to_integer(double(), toward, self@, 0, u32::MAX as int),
    {
        proof {
            reveal(to_integer);
        }
        let n: u64 = self.to_u64(toward);
        if n > u32::MAX as u64 {
            u32::MAX
        } else {
            n as u32
        }
    }

    /// The integer next to `self` in the given direction, held within `u8`.
    pub fn to_u8(self, toward: Toward) -> (r: u8)
        ensures
            r == to_integer(double(), toward, self@, 0, 255),
    {
        proof {
            reveal(to_integer);
        }
        let n: u64 = self.to_u64(toward);
        if n > 255 {
            255
        } else {
            n as u8
        }
    }
}

/// How many powers of two separate the units of the two formats.
pub open spec fn unit_gap() -> nat {
    925
}

/// A 32-bit number in the 64-bit format, where it has an exact counterpart.
#[verifier::opaque]
pub open spec fn widened(x: Number) -> Number {
    match x {
        Number::Finite { negative, units } => Number::Finite {
            negative,
            units: units * pow2(unit_gap()),
        },
        other => other,
    }
}

/// A 64-bit number rounded to the 32-bit format.
#[verifier::opaque]
pub open spec fn narrowed(x: Number) -> Number {
    match x {
        Number::Finite { negative, units } => from_ratio(
            single(),
            negative,
            units,
            pow2(unit_gap()),
        ),
        other => other,
    }
}

impl Float32 {
    /// The same number in the 64-bit format.
    pub fn widen(self) -> (r: Float64)
        ensures
            r@ == widened(self@),
    {
        proof {
            reveal(widened);
        }
        match self.parts() {
            Parts::Nan => Float64::pack(Parts::Nan),
            Parts::Infinite { negative } => Float64::pack(Parts::Infinite { negative }),
            Parts::Finite { negative, m, k } => {
                let ghost units = m as nat * pow2(k as nat);
                proof {
                    lemma_units_zero(m, k);
                    lemma_units_zero(0, 0);
                    lemma2_to64();
                    lemma2_to64_rest();
                    lemma_pow2_127();
                }
                if m == 0 {
                    proof {
                        assert(0 * pow2(unit_gap()) == 0) by (nonlinear_arith);
                    }
                    return Float64::pack(Parts::Finite { negative, m: 0, k: 0 });
                }
                let len: u32 = bit_length(m as u128);
                proof {
                    if len > 24 {
                        lemma_pow2_mono(24, (len - 1) as nat);
                    }
                }
                let shift: u32 = 53 - len;
                let w: u64 = power_of_two_64(shift);
                proof {
                    lemma_pow2_adds(len as nat, shift as nat);
                    lemma_pow2_adds((len - 1) as nat, shift as nat);
                    lemma_mul_strict_inequality(m as int, pow2(len as nat) as int, w as int);
                    lemma_mul_inequality(pow2((len - 1) as nat) as int, m as int, w as int);
                }
                let m2: u64 = m * w;
                let k2: u32 = k + 925 - shift;
                proof {
                    lemma_pow2_adds(k as nat, unit_gap());
                    lemma_pow2_adds(shift as nat, k2 as nat);
                    lemma_mul_is_associative(m as int, pow2(k as nat) as int, pow2(unit_gap()) as int);
                    lemma_mul_is_associative(m as int, w as int, pow2(k2 as nat) as int);
                }
                Float64::pack(Parts::Finite { negative, m: m2, k: k2 })
            },
        }
    }
}

impl Float64 {
    pub fn infinity() -> (r: Float64)
        ensures
            r@ == (Number::Infinite { negative: false }),
    {
        Float64::pack(Parts::Infinite { negative: false })
    }

    pub fn nan() -> (r: Float64)
        ensures
            r@ == Number::Nan,
    {
        Float64::pack(Parts::Nan)
    }

    /// The nearest number of the 32-bit format.
    pub fn narrow(self) -> (r: Float32)
        ensures
            r@ == narrowed(self@),
    {
        proof {
            reveal(narrowed);
        }
        match self.parts() {
            Parts::Nan => Float32::pack(Parts::Nan),
            Parts::Infinite { negative } => Float32::pack(Parts::Infinite { negative }),
            Parts::Finite { negative, m, k } => {
                let ghost units = m as nat * pow2(k as nat);
                let ghost gap = pow2(unit_gap());
                proof {
                    lemma_units_zero(m, k);
                    lemma_units_zero(0, 0);
                    lemma_pow2_pos(unit_gap());
                    lemma_pow2_pos(24);
                    lemma_pow2_127();
                    lemma2_to64_rest();
                }
                if m == 0 {
                    proof {
                        lemma_from_zero(single(), negative, gap);
                    }
                    return Float32::pack(Parts::Finite { negative, m: 0, k: 0 });
                }
                let j: i32 = k as i32 - 925;
                proof {
                    let e = (j + lift()) as nat;
                    lemma_pow2_adds(k as nat, lift());
                    lemma_pow2_adds(unit_gap(), e);
                    lemma_mul_is_associative(m as int, pow2(k as nat) as int, pow2(lift()) as int);
                }
                Float32::pack(
                    round_parts(
                        Float32::format(),
                        negative,
                        m as u128,
                        j,
                        false,
                        Ghost(units),
                        Ghost(gap),
                    ),
                )
            },
        }
    }
}

} // verus!
