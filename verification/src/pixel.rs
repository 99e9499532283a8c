//! Pixels: color grade, hue shift and blend modes.

use crate::exact::{
    integer, law_integer_products_are_exact, law_integer_sums_are_exact, law_integers_are_exact,
    law_integers_come_back, lemma_exact, lemma_exact_quotient, lemma_half, lemma_integers_in_order,
    lemma_plus_zero, lemma_rounded_again, lemma_rounded_bound, lemma_rounded_within,
    lemma_small_difference,
};
use crate::float::{
    absolute, clamp_number, difference, euclidean_remainder, from_ratio, larger, less, no_more,
    number_of_bits32, of_integer, positive, product,
    quotient, rounded, same, single, smaller, sum, to_integer, Float32, Number, Toward,
};
use crate::timeline::{BlendMode, ColorGrade, HALF_BITS};
use vstd::arithmetic::div_mod::{lemma_fundamental_div_mod, lemma_mod_bound};
use vstd::arithmetic::power2::{
    lemma2_to64, lemma2_to64_rest, lemma_pow2_adds, lemma_pow2_pos, lemma_pow2_strictly_increases,
    pow2,
};
use vstd::prelude::*;

verus! {

/// A number of the 32-bit format.
pub open spec fn num(i: int) -> Number {
    of_integer(single(), i)
}

/// Red, green and blue.
pub struct Rgb {
    pub r: Number,
    pub g: Number,
    pub b: Number,
}

/// Hue in radians, saturation and value.
pub struct Hsv {
    pub h: Number,
    pub s: Number,
    pub v: Number,
}

/// Red, green and blue as numbers.
#[derive(Clone, Copy, Debug)]
pub struct Color {
    pub r: Float32,
    pub g: Float32,
    pub b: Float32,
}

impl View for Color {
    type V = Rgb;

    open spec fn view(&self) -> Rgb {
        Rgb { r: self.r@, g: self.g@, b: self.b@ }
    }
}

/// One channel with its brightness and contrast set.
pub open spec fn graded_channel(c: Number, grade: ColorGrade) -> Number {
    let lit = sum(single(), c, product(single(), grade.brightness@, num(255)));
    if same(grade.contrast@, num(1)) {
        lit
    } else {
        sum(
            single(),
            product(
                single(),
                product(
                    single(),
                    difference(
                        single(),
                        quotient(single(), lit, num(255)),
                        (Float32 { bits: HALF_BITS })@,
                    ),
                    grade.contrast@,
                ),
                num(255),
            ),
            num(128),
        )
    }
}

/// The brightness of a color to the eye.
pub open spec fn luma_of(c: Rgb) -> Number {
    sum(
        single(),
        sum(
            single(),
            product(single(), (Float32 { bits: 0x3e59_b3d0 })@, c.r),
            product(single(), (Float32 { bits: 0x3f37_1759 })@, c.g),
        ),
        product(single(), (Float32 { bits: 0x3d93_dd98 })@, c.b),
    )
}

/// One channel drawn away from gray, or towards it.
pub open spec fn saturated_channel(luma: Number, c: Number, saturation: Number) -> Number {
    sum(single(), luma, product(single(), difference(single(), c, luma), saturation))
}

/// A color with brightness, contrast and saturation set.
pub open spec fn graded(c: Rgb, grade: ColorGrade) -> Rgb {
    let plain = same(grade.saturation@, num(1));
    if same(grade.brightness@, num(0)) && same(grade.contrast@, num(1)) && plain {
        c
    } else {
        let d = Rgb {
            r: graded_channel(c.r, grade),
            g: graded_channel(c.g, grade),
            b: graded_channel(c.b, grade),
        };
        if plain {
            d
        } else {
            let luma = luma_of(d);
            Rgb {
                r: saturated_channel(luma, d.r, grade.saturation@),
                g: saturated_channel(luma, d.g, grade.saturation@),
                b: saturated_channel(luma, d.b, grade.saturation@),
            }
        }
    }
}

/// A third of half a turn.
pub const SIXTH_TURN_BITS: u32 = 0x3f86_0a92;

/// A whole turn.
pub const TURN_BITS: u32 = 0x40c9_0fdb;

/// A color by hue, saturation and value.
pub open spec fn to_hsv(c: Rgb) -> Hsv {
    let r = quotient(single(), c.r, num(255));
    let g = quotient(single(), c.g, num(255));
    let b = quotient(single(), c.b, num(255));
    let max = larger(larger(r, g), b);
    let min = smaller(smaller(r, g), b);
    let d = difference(single(), max, min);
    let sixths = if same(max, r) {
        euclidean_remainder(
            single(),
            quotient(single(), difference(single(), g, b), d),
            num(6),
        )
    } else if same(max, g) {
        sum(single(), quotient(single(), difference(single(), b, r), d), num(2))
    } else {
        sum(single(), quotient(single(), difference(single(), r, g), d), num(4))
    };
    Hsv {
        h: if positive(d) {
            product(single(), sixths, (Float32 { bits: SIXTH_TURN_BITS })@)
        } else {
            num(0)
        },
        s: if positive(max) {
            quotient(single(), d, max)
        } else {
            num(0)
        },
        v: max,
    }
}

/// The color of a hue, saturation and value.
pub open spec fn of_hsv(c: Hsv) -> Rgb {
    let at = quotient(single(), c.h, (Float32 { bits: SIXTH_TURN_BITS })@);
    let i = to_integer(single(), Toward::Below, at, i32::MIN as int, i32::MAX as int);
    let f = difference(single(), at, num(i));
    let p = product(single(), c.v, difference(single(), num(1), c.s));
    let q = product(single(), c.v, difference(single(), num(1), product(single(), f, c.s)));
    let t = product(
        single(),
        c.v,
        difference(single(), num(1), product(single(), difference(single(), num(1), f), c.s)),
    );
    let k = i % 6;
    let (r, g, b) = if k == 0 {
        (c.v, t, p)
    } else if k == 1 {
        (q, c.v, p)
    } else if k == 2 {
        (p, c.v, t)
    } else if k == 3 {
        (p, q, c.v)
    } else if k == 4 {
        (t, p, c.v)
    } else {
        (c.v, p, q)
    };
    Rgb {
        r: product(single(), r, num(255)),
        g: product(single(), g, num(255)),
        b: product(single(), b, num(255)),
    }
}

/// A color with its hue turned.
pub open spec fn hue_shifted(c: Rgb, shift: Number) -> Rgb {
    if less((Float32 { bits: 0x3a83_126f })@, absolute(shift)) {
        let hsv = to_hsv(c);
        of_hsv(
            Hsv {
                h: euclidean_remainder(
                    single(),
                    sum(single(), hsv.h, shift),
                    (Float32 { bits: TURN_BITS })@,
                ),
                ..hsv
            },
        )
    } else {
        c
    }
}

/// What a blend mode makes of one channel of a color on another.
pub open spec fn blended_channel(mode: BlendMode, s: Number, d: Number) -> Number {
    match mode {
        BlendMode::Normal => s,
        BlendMode::Multiply => quotient(single(), product(single(), s, d), num(255)),
        BlendMode::Screen => difference(
            single(),
            num(255),
            quotient(
                single(),
                product(
                    single(),
                    difference(single(), num(255), s),
                    difference(single(), num(255), d),
                ),
                num(255),
            ),
        ),
        BlendMode::Add => smaller(sum(single(), s, d), num(255)),
        BlendMode::Overlay => if less(d, num(128)) {
            quotient(single(), product(single(), product(single(), num(2), s), d), num(255))
        } else {
            difference(
                single(),
                num(255),
                quotient(
                    single(),
                    product(
                        single(),
                        product(single(), num(2), difference(single(), num(255), s)),
                        difference(single(), num(255), d),
                    ),
                    num(255),
                ),
            )
        },
    }
}

/// One channel of a pixel after a color with opacity `a` was blended on it.
pub open spec fn mixed_channel(mode: BlendMode, s: Number, d: u8, a: Number) -> u8 {
    to_integer(
        single(),
        Toward::Nearest,
        sum(
            single(),
            product(single(), blended_channel(mode, s, num(d as int)), a),
            product(single(), num(d as int), difference(single(), num(1), a)),
        ),
        0,
        255,
    ) as u8
}

/// A pixel after a color with opacity `a` was blended on it: opaque, unless nothing
/// of the color shows.
pub open spec fn mixed(px: Seq<u8>, c: Rgb, a: Number, mode: BlendMode) -> Seq<u8> {
    if no_more(a, num(0)) {
        px
    } else {
        seq![
            mixed_channel(mode, c.r, px[0], a),
            mixed_channel(mode, c.g, px[1], a),
            mixed_channel(mode, c.b, px[2], a),
            255u8,
        ]
    }
}

/// The 32-bit number nearest to an integer.
pub fn n32(i: i64) -> (r: Float32)
    ensures
        r@ == num(i as int),
{
    Float32::from_i64(i)
}

fn apply_grade(c: Float32, grade: &ColorGrade) -> (r: Float32)
    ensures
        r@ == graded_channel(c@, *grade),
{
    let lit: Float32 = c.plus(grade.brightness.times(n32(255)));
    if grade.contrast.equals(n32(1)) {
        lit
    } else {
        lit.over(n32(255)).minus(Float32 { bits: HALF_BITS }).times(grade.contrast).times(
            n32(255),
        ).plus(n32(128))
    }
}

fn saturate_channel(luma: Float32, c: Float32, saturation: Float32) -> (r: Float32)
    ensures
        r@ == saturated_channel(luma@, c@, saturation@),
{
    luma.plus(c.minus(luma).times(saturation))
}

/// Sets brightness, contrast and saturation of a color.
pub fn grade_color(c: Color, grade: &ColorGrade) -> (r: Color)
    ensures
        r@ == graded(c@, *grade),
{
    let plain: bool = grade.saturation.equals(n32(1));
    if grade.brightness.equals(n32(0)) && grade.contrast.equals(n32(1)) && plain {
        return c;
    }
    let d: Color = Color {
        r: apply_grade(c.r, grade),
        g: apply_grade(c.g, grade),
        b: apply_grade(c.b, grade),
    };
    if plain {
        d
    } else {
        let luma: Float32 = (Float32 { bits: 0x3e59_b3d0 }).times(d.r).plus(
            (Float32 { bits: 0x3f37_1759 }).times(d.g),
        ).plus((Float32 { bits: 0x3d93_dd98 }).times(d.b));
        Color {
            r: saturate_channel(luma, d.r, grade.saturation),
            g: saturate_channel(luma, d.g, grade.saturation),
            b: saturate_channel(luma, d.b, grade.saturation),
        }
    }
}

fn rgb_to_hsv(c: Color) -> (r: (Float32, Float32, Float32))
    ensures
        (Hsv { h: r.0@, s: r.1@, v: r.2@ }) == to_hsv(c@),
{
    let r: Float32 = c.r.over(n32(255));
    let g: Float32 = c.g.over(n32(255));
    let b: Float32 = c.b.over(n32(255));
    let max: Float32 = r.maximum(g).maximum(b);
    let min: Float32 = r.minimum(g).minimum(b);
    let d: Float32 = max.minus(min);
    let h: Float32 = if d.is_positive() {
        let sixths: Float32 = if max.equals(r) {
            g.minus(b).over(d).rest_euclid(n32(6))
        } else if max.equals(g) {
            b.minus(r).over(d).plus(n32(2))
        } else {
            r.minus(g).over(d).plus(n32(4))
        };
        sixths.times(Float32 { bits: SIXTH_TURN_BITS })
    } else {
        n32(0)
    };
    let s: Float32 = if max.is_positive() {
        d.over(max)
    } else {
        n32(0)
    };
    (h, s, max)
}

fn hsv_to_rgb(h: Float32, s: Float32, v: Float32) -> (r: Color)
    ensures
        r@ == of_hsv(Hsv { h: h@, s: s@, v: v@ }),
{
    let at: Float32 = h.over(Float32 { bits: SIXTH_TURN_BITS });
    let i: i32 = at.to_i32(Toward::Below);
    let f: Float32 = at.minus(n32(i as i64));
    let p: Float32 = v.times(n32(1).minus(s));
    let q: Float32 = v.times(n32(1).minus(f.times(s)));
    let t: Float32 = v.times(n32(1).minus(n32(1).minus(f).times(s)));
    let wide: i64 = i as i64 + 0x1_8000_0000;
    let k: i64 = wide % 6;
    assert(k == (i as int) % 6);
    let (r, g, b): (Float32, Float32, Float32) = if k == 0 {
        (v, t, p)
    } else if k == 1 {
        (q, v, p)
    } else if k == 2 {
        (p, v, t)
    } else if k == 3 {
        (p, q, v)
    } else if k == 4 {
        (t, p, v)
    } else {
        (v, p, q)
    };
    Color { r: r.times(n32(255)), g: g.times(n32(255)), b: b.times(n32(255)) }
}

/// Turns the hue of a color.
pub fn shift_hue(c: Color, shift: Float32) -> (r: Color)
    ensures
        r@ == hue_shifted(c@, shift@),
{
    if (Float32 { bits: 0x3a83_126f }).less_than(shift.magnitude()) {
        let (h, s, v): (Float32, Float32, Float32) = rgb_to_hsv(c);
        hsv_to_rgb(h.plus(shift).rest_euclid(Float32 { bits: TURN_BITS }), s, v)
    } else {
        c
    }
}

fn overlay_ch(s: Float32, d: Float32) -> (r: Float32)
    ensures
        r@ == blended_channel(BlendMode::Overlay, s@, d@),
{
    if d.less_than(n32(128)) {
        n32(2).times(s).times(d).over(n32(255))
    } else {
        n32(255).minus(n32(2).times(n32(255).minus(s)).times(n32(255).minus(d)).over(n32(255)))
    }
}

fn blend_channel(mode: BlendMode, s: Float32, d: Float32) -> (r: Float32)
    ensures
        r@ == blended_channel(mode, s@, d@),
{
    match mode {
        BlendMode::Normal => s,
        BlendMode::Multiply => s.times(d).over(n32(255)),
        BlendMode::Screen => n32(255).minus(
            n32(255).minus(s).times(n32(255).minus(d)).over(n32(255)),
        ),
        BlendMode::Add => s.plus(d).minimum(n32(255)),
        BlendMode::Overlay => overlay_ch(s, d),
    }
}

fn mix_channel(mode: BlendMode, s: Float32, d: u8, a: Float32) -> (r: u8)
    ensures
        r == mixed_channel(mode, s@, d, a@),
{
    let df: Float32 = n32(d as i64);
    blend_channel(mode, s, df).times(a).plus(df.times(n32(1).minus(a))).to_u8(Toward::Nearest)
}

/// The four bytes of a pixel.
pub open spec fn pixel_at(buffer: Seq<u8>, i: int) -> Seq<u8> {
    seq![buffer[i], buffer[i + 1], buffer[i + 2], buffer[i + 3]]
}

/// The buffer with four bytes in the place of a pixel.
pub open spec fn with_pixel(buffer: Seq<u8>, i: int, px: Seq<u8>) -> Seq<u8> {
    buffer.update(i, px[0]).update(i + 1, px[1]).update(i + 2, px[2]).update(i + 3, px[3])
}

/// Blends a color with opacity `a` on the pixel at byte `di` of a buffer.
pub fn blend_pixel(dst: &mut Vec<u8>, di: usize, c: Color, a: Float32, mode: BlendMode)
    requires
        di + 4 <= old(dst).len(),
    ensures
        final(dst)@ == with_pixel(
            old(dst)@,
            di as int,
            mixed(pixel_at(old(dst)@, di as int), c@, a@, mode),
        ),
{
    let ghost before = dst@;
    if a.at_most(n32(0)) {
        assert(with_pixel(before, di as int, pixel_at(before, di as int)) =~= before);
        return;
    }
    let r: u8 = mix_channel(mode, c.r, dst[di], a);
    let g: u8 = mix_channel(mode, c.g, dst[di + 1], a);
    let b: u8 = mix_channel(mode, c.b, dst[di + 2], a);
    dst.set(di, r);
    dst.set(di + 1, g);
    dst.set(di + 2, b);
    dst.set(di + 3, 255);
}

proof fn lemma_opaque_channel(s: u8, d: u8)
    ensures
        mixed_channel(BlendMode::Normal, num(s as int), d, num(1)) == s,
{
    reveal(product);
    reveal(sum);
    let f = single();
    lemma2_to64();
    lemma_pow2_pos(f.scale as nat);
    law_integers_are_exact(f, s as int);
    law_integers_are_exact(f, d as int);
    law_integers_are_exact(f, 1);
    law_integers_are_exact(f, 0);
    law_integer_products_are_exact(f, s as int, 1);
    law_integer_products_are_exact(f, d as int, 0);
    let one = pow2(f.scale as nat);
    assert(0 * one == 0 && 1 * one == one) by (nonlinear_arith);
    assert(difference(f, num(1), num(1)) == integer(f, 0));
    assert(d as int * 0 == 0) by (nonlinear_arith);
    assert(s as int * 1 == s) by (nonlinear_arith);
    law_integer_sums_are_exact(f, s as int, 0);
    law_integers_come_back(f, Toward::Nearest, s as int, 0, 255);
}

/// A fully opaque pixel blended in the normal mode takes the place of what was there.
pub proof fn law_opaque_pixels_replace(px: Seq<u8>, r: u8, g: u8, b: u8)
    requires
        px.len() == 4,
    ensures
        mixed(
            px,
            Rgb { r: num(r as int), g: num(g as int), b: num(b as int) },
            num(1),
            BlendMode::Normal,
        ) == seq![r, g, b, 255u8],
{
    let f = single();
    reveal(less);
    lemma2_to64();
    lemma_pow2_pos(f.scale as nat);
    law_integers_are_exact(f, 1);
    law_integers_are_exact(f, 0);
    let one = pow2(f.scale as nat);
    assert(0 * one == 0 && 1 * one == one) by (nonlinear_arith);
    lemma_opaque_channel(r, px[0]);
    lemma_opaque_channel(g, px[1]);
    lemma_opaque_channel(b, px[2]);
    assert(mixed(
        px,
        Rgb { r: num(r as int), g: num(g as int), b: num(b as int) },
        num(1),
        BlendMode::Normal,
    ) =~= seq![r, g, b, 255u8]);
}

/// A finite number of no sign that is not far above a bound.
proof fn lemma_small_ratio(a: nat, b: nat) -> (units: nat)
    requires
        b > 0,
        a <= 0x1000 * (b * pow2(149)),
    ensures
        from_ratio(single(), false, a, b) == (Number::Finite { negative: false, units }),
        units == rounded(24, a, b),
        units * b * 0x100_0000 <= a * 0x100_0001 + b * 0x100_0000,
        a * 0x100_0000 <= units * b * 0x100_0000 + a + b * 0x100_0000,
{
    let u = pow2(149);
    let units = rounded(24, a, b);
    lemma_rounded_bound(24, a, b);
    lemma2_to64();
    lemma_pow2_pos(149);
    assert(units <= 0x4000 * u) by (nonlinear_arith)
        requires
            units * b * 0x100_0000 <= a * 0x100_0001 + b * 0x100_0000,
            a <= 0x1000 * (b * u),
            b > 0,
            u >= 1,
    ;
    lemma_pow2_adds(14, 149);
    lemma_pow2_strictly_increases(163, 277);
    units
}

/// Whatever its opacity, a channel mixed with its own value keeps that value: rounding
/// takes away far less than a half.
proof fn lemma_own_value_stays(d: u8, a: Number)
    requires
        less(num(0), a),
        no_more(a, num(1)),
    ensures
        to_integer(
            single(),
            Toward::Nearest,
            sum(
                single(),
                product(single(), num(d as int), a),
                product(single(), num(d as int), difference(single(), num(1), a)),
            ),
            0,
            255,
        ) == d,
{
    let f = single();
    let u = pow2(149);
    let n = d as nat;
    reveal(less);
    reveal(sum);
    reveal(product);
    reveal(to_integer);
    lemma2_to64();
    lemma2_to64_rest();
    lemma_pow2_pos(149);
    lemma_pow2_strictly_increases(64, 149);
    law_integers_are_exact(f, 0);
    law_integers_are_exact(f, 1);
    law_integers_are_exact(f, d as int);
    assert(0 * u == 0 && 1 * u == u) by (nonlinear_arith);
    let al = match a {
        Number::Finite { negative, units } => units,
        _ => 0,
    };
    assert(a == (Number::Finite { negative: false, units: al }));
    assert(0 < al <= u);
    // The color's share.
    let p = n * al;
    assert(p <= 255 * u && (n * u) * al == p * u && p * u <= 0x1000 * (u * u)) by (nonlinear_arith)
        requires
            p == n * al,
            n <= 255,
            al <= u,
    ;
    let x1 = lemma_small_ratio((n * u) * al, u);
    assert(x1 * 0x100_0000 <= p * 0x100_0001 + 0x100_0000 && p * 0x100_0000 <= x1 * 0x100_0000 + p
        + 0x100_0000) by (nonlinear_arith)
        requires
            x1 * u * 0x100_0000 <= (p * u) * 0x100_0001 + u * 0x100_0000,
            (p * u) * 0x100_0000 <= x1 * u * 0x100_0000 + p * u + u * 0x100_0000,
            u > 0,
    ;
    // What is left of one.
    let rest = (u - al) as nat;
    let be = if rest == 0 {
        0
    } else {
        lemma_small_ratio(rest, 1)
    };
    assert(difference(f, num(1), a) == (Number::Finite { negative: false, units: be }));
    assert(be * 0x100_0000 <= rest * 0x100_0001 + 0x100_0000);
    assert(rest * 0x100_0000 <= be * 0x100_0000 + rest + 0x100_0000);
    assert(be <= 2 * u);
    // The share of the pixel.
    let q = n * be;
    assert(q <= 510 * u && (n * u) * be == q * u && q * u <= 0x1000 * (u * u)) by (nonlinear_arith)
        requires
            q == n * be,
            n <= 255,
            be <= 2 * u,
    ;
    let x2 = lemma_small_ratio((n * u) * be, u);
    assert(x2 * 0x100_0000 <= q * 0x100_0001 + 0x100_0000 && q * 0x100_0000 <= x2 * 0x100_0000 + q
        + 0x100_0000) by (nonlinear_arith)
        requires
            x2 * u * 0x100_0000 <= (q * u) * 0x100_0001 + u * 0x100_0000,
            (q * u) * 0x100_0000 <= x2 * u * 0x100_0000 + q * u + u * 0x100_0000,
            u > 0,
    ;
    // Both together.
    let w = n * u;
    assert((p + q) * 0x100_0000 <= w * 0x100_0000 + 255 * (rest + 0x100_0000) && w * 0x100_0000
        <= (p + q) * 0x100_0000 + 255 * (rest + 0x100_0000)) by (nonlinear_arith)
        requires
            p == n * al,
            q == n * be,
            w == n * u,
            rest == u - al,
            n <= 255,
            be * 0x100_0000 <= rest * 0x100_0001 + 0x100_0000,
            rest * 0x100_0000 <= be * 0x100_0000 + rest + 0x100_0000,
    ;
    let t = x1 + x2;
    let s = if t == 0 {
        0
    } else {
        lemma_small_ratio(t, 1)
    };
    assert(s * 0x100_0000 <= t * 0x100_0001 + 0x100_0000);
    assert(t * 0x100_0000 <= s * 0x100_0000 + t + 0x100_0000);
    assert(2 * s < 2 * w + u && 2 * w < 2 * s + u);
    let down = s as int / u as int;
    let r = s as int % u as int;
    lemma_fundamental_div_mod(s as int, u as int);
    lemma_mod_bound(s as int, u as int);
    assert((down == n && 2 * r < u) || (down == n - 1 && 2 * r >= u)) by (nonlinear_arith)
        requires
            s == u * down + r,
            0 <= r < u,
            w == n * u,
            2 * s < 2 * w + u,
            2 * w < 2 * s + u,
            u >= 1,
    ;
}

/// White is neutral for multiplication, black for the screen and for addition: a pixel
/// keeps its color and is opaque.
pub proof fn law_neutral_colors(px: Seq<u8>, a: Number, mode: BlendMode)
    requires
        px.len() == 4,
        less(num(0), a),
        no_more(a, num(1)),
        mode == BlendMode::Multiply || mode == BlendMode::Screen || mode == BlendMode::Add,
    ensures
        ({
            let v = num(
                if mode == BlendMode::Multiply {
                    255
                } else {
                    0
                },
            );
            mixed(px, Rgb { r: v, g: v, b: v }, a, mode) == seq![px[0], px[1], px[2], 255u8]
        }),
{
    let v = num(
        if mode == BlendMode::Multiply {
            255
        } else {
            0
        },
    );
    assert(!no_more(a, num(0)));
    assert forall|d: u8| #[trigger] mixed_channel(mode, v, d, a) == d by {
        lemma_neutral(mode, d);
        lemma_own_value_stays(d, a);
    }
    assert(mixed(px, Rgb { r: v, g: v, b: v }, a, mode) =~= seq![px[0], px[1], px[2], 255u8]);
}

/// The color that a blend mode leaves things as they are with.
proof fn lemma_neutral(mode: BlendMode, d: u8)
    requires
        mode == BlendMode::Multiply || mode == BlendMode::Screen || mode == BlendMode::Add,
    ensures
        blended_channel(
            mode,
            num(
                if mode == BlendMode::Multiply {
                    255
                } else {
                    0
                },
            ),
            num(d as int),
        ) == num(d as int),
{
    let f = single();
    let i = d as int;
    lemma2_to64();
    law_integers_are_exact(f, i);
    law_integers_are_exact(f, 0);
    law_integers_are_exact(f, 255);
    law_integers_are_exact(f, 255 - i);
    lemma_integers_in_order(f, 255, i);
    lemma_small_difference(255, 0);
    lemma_small_difference(255, i);
    lemma_small_difference(255, 255 - i);
    law_integer_products_are_exact(f, 255, i);
    law_integer_products_are_exact(f, 255, 255 - i);
    lemma_exact_quotient(f, i, 255);
    lemma_exact_quotient(f, 255 - i, 255);
    law_integer_sums_are_exact(f, 0, i);
}

/// `c` is the whole number nearest to `n / d`, give or take a thirty-second part.
pub open spec fn rounds(c: int, n: int, d: int) -> bool {
    &&& 128 * (c * d - n) <= 68 * d
    &&& 128 * (n - c * d) <= 68 * d
}

/// 255 times what a blend mode makes of two channels, as a whole number.
pub open spec fn mode_of_bytes(mode: BlendMode, s: int, d: int) -> int {
    match mode {
        BlendMode::Normal => 255 * s,
        BlendMode::Multiply => s * d,
        BlendMode::Screen => 255 * 255 - (255 - s) * (255 - d),
        BlendMode::Add => 255 * (if s + d < 255 {
            s + d
        } else {
            255
        }),
        BlendMode::Overlay => if d < 128 {
            2 * s * d
        } else {
            255 * 255 - 2 * (255 - s) * (255 - d)
        },
    }
}

/// A whole number over 255.
proof fn lemma_over_255(x: int) -> (units: nat)
    requires
        0 <= x <= 255 * 255,
    ensures
        quotient(single(), num(x), num(255)) == (Number::Finite { negative: false, units }),
        units <= 255 * pow2(149),
        (255 * units - x * pow2(149)) * 0x8000 <= 255 * pow2(149),
        (x * pow2(149) - 255 * units) * 0x8000 <= 255 * pow2(149),
{
    reveal(quotient);
    let f = single();
    let u = pow2(149);
    lemma2_to64();
    lemma2_to64_rest();
    lemma_pow2_pos(149);
    lemma_pow2_strictly_increases(64, 149);
    law_integers_are_exact(f, x);
    law_integers_are_exact(f, 255);
    let n = x as nat;
    let (a, b) = ((n * u) * u, 255 * u);
    assert(b > 0 && a <= 0x1000 * (b * u) && a <= (255 * u) * b) by (nonlinear_arith)
        requires
            a == (n * u) * u,
            b == 255 * u,
            n <= 255 * 255,
            u > 0,
    ;
    let units = lemma_small_ratio(a, b);
    lemma_rounded_within(24, a, b, 255, 149);
    assert(units * 255 * 0x100_0000 <= n * u * 0x100_0001 + 255 * 0x100_0000 && n * u * 0x100_0000
        <= units * 255 * 0x100_0000 + n * u + 255 * 0x100_0000) by (nonlinear_arith)
        requires
            units * b * 0x100_0000 <= a * 0x100_0001 + b * 0x100_0000,
            a * 0x100_0000 <= units * b * 0x100_0000 + a + b * 0x100_0000,
            a == (n * u) * u,
            b == 255 * u,
            u > 0,
    ;
    assert(n * u <= 255 * 255 * u) by (nonlinear_arith)
        requires
            n <= 255 * 255,
    ;
    let (y, e) = (255 * units as int, n * u);
    assert((y - e) * 0x8000 <= 255 * u && (e - y) * 0x8000 <= 255 * u) by {
        assert(y * 0x100_0000 <= e * 0x100_0001 + 255 * 0x100_0000);
        assert(e * 0x100_0000 <= y * 0x100_0000 + e + 255 * 0x100_0000);
    }
    units
}

/// A number taken away from 255.
proof fn lemma_from_255(v: nat) -> (units: nat)
    requires
        v <= 255 * pow2(149),
    ensures
        difference(single(), num(255), Number::Finite { negative: false, units: v }) == (
        Number::Finite { negative: false, units }),
        units <= 255 * pow2(149),
        (units - (255 * pow2(149) - v)) * 0x8000 <= pow2(149),
        ((255 * pow2(149) - v) - units) * 0x8000 <= pow2(149),
{
    reveal(sum);
    let u = pow2(149);
    lemma2_to64();
    lemma2_to64_rest();
    lemma_pow2_pos(149);
    lemma_pow2_strictly_increases(64, 149);
    law_integers_are_exact(single(), 255);
    let rest = (255 * u - v) as nat;
    if rest == 0 {
        0
    } else {
        let units = lemma_small_ratio(rest, 1);
        assert((255 * u) * 1 == 255 * u) by (nonlinear_arith);
        lemma_rounded_within(24, rest, 1, 255, 149);
        units
    }
}

/// What a blend mode makes of two bytes, up to rounding.
proof fn lemma_mode_of_bytes(mode: BlendMode, s: u8, d: u8) -> (units: nat)
    ensures
        blended_channel(mode, num(s as int), num(d as int)) == (Number::Finite {
            negative: false,
            units,
        }),
        units <= 255 * pow2(149),
        (255 * units - mode_of_bytes(mode, s as int, d as int) * pow2(149)) * 0x4000 <= 255
            * pow2(149),
        (mode_of_bytes(mode, s as int, d as int) * pow2(149) - 255 * units) * 0x4000 <= 255
            * pow2(149),
{
    let f = single();
    let u = pow2(149);
    let (i, j) = (s as int, d as int);
    lemma2_to64();
    lemma_pow2_pos(149);
    law_integers_are_exact(f, i);
    law_integers_are_exact(f, j);
    law_integers_are_exact(f, 255);
    law_integers_are_exact(f, 128);
    law_integers_are_exact(f, 2);
    law_integers_are_exact(f, 255 - i);
    law_integers_are_exact(f, 255 - j);
    lemma_small_difference(255, i);
    lemma_small_difference(255, j);
    match mode {
        BlendMode::Normal => {
            let units = s as nat * u;
            assert(units <= 255 * u && 255 * units == (255 * i) * u) by (nonlinear_arith)
                requires
                    units == s as nat * u,
                    i == s,
                    s <= 255,
            ;
            units
        },
        BlendMode::Multiply => {
            assert(0 <= i * j <= 255 * 255) by (nonlinear_arith)
                requires
                    0 <= i <= 255,
                    0 <= j <= 255,
            ;
            law_integer_products_are_exact(f, i, j);
            law_integers_are_exact(f, i * j);
            lemma_over_255(i * j)
        },
        BlendMode::Screen => {
            let x = (255 - i) * (255 - j);
            assert(0 <= x <= 255 * 255) by (nonlinear_arith)
                requires
                    x == (255 - i) * (255 - j),
                    0 <= i <= 255,
                    0 <= j <= 255,
            ;
            law_integer_products_are_exact(f, 255 - i, 255 - j);
            law_integers_are_exact(f, x);
            let v = lemma_over_255(x);
            let units = lemma_from_255(v);
            lemma_taken_from_255(x, v, units, u);
            units
        },
        BlendMode::Add => {
            law_integer_sums_are_exact(f, i, j);
            law_integers_are_exact(f, i + j);
            lemma_integers_in_order(f, 255, i + j);
            let m = if i + j < 255 {
                i + j
            } else {
                255
            };
            let units = m as nat * u;
            assert(units <= 255 * u && 255 * units == (255 * m) * u) by (nonlinear_arith)
                requires
                    units == m as nat * u,
                    0 <= m <= 255,
            ;
            units
        },
        BlendMode::Overlay => {
            lemma_integers_in_order(f, j, 128);
            if j < 128 {
                let x = (2 * i) * j;
                assert(0 <= x <= 255 * 255 && x == 2 * i * j) by (nonlinear_arith)
                    requires
                        x == (2 * i) * j,
                        0 <= i <= 255,
                        0 <= j < 128,
                ;
                law_integer_products_are_exact(f, 2, i);
                law_integer_products_are_exact(f, 2 * i, j);
                law_integers_are_exact(f, x);
                lemma_over_255(x)
            } else {
                let x = (2 * (255 - i)) * (255 - j);
                assert(0 <= x <= 255 * 255 && x == 2 * (255 - i) * (255 - j)) by (nonlinear_arith)
                    requires
                        x == (2 * (255 - i)) * (255 - j),
                        0 <= i <= 255,
                        128 <= j <= 255,
                ;
                law_integer_products_are_exact(f, 2, 255 - i);
                law_integer_products_are_exact(f, 2 * (255 - i), 255 - j);
                law_integers_are_exact(f, x);
                let v = lemma_over_255(x);
                let units = lemma_from_255(v);
                lemma_taken_from_255(x, v, units, u);
                units
            }
        },
    }
}

proof fn lemma_taken_from_255(x: int, v: nat, units: nat, u: nat)
    requires
        (255 * v - x * u) * 0x8000 <= 255 * u,
        (x * u - 255 * v) * 0x8000 <= 255 * u,
        (units - (255 * u - v)) * 0x8000 <= u,
        ((255 * u - v) - units) * 0x8000 <= u,
    ensures
        (255 * units - (255 * 255 - x) * u) * 0x4000 <= 255 * u,
        ((255 * 255 - x) * u - 255 * units) * 0x4000 <= 255 * u,
{
    assert((255 * 255 - x) * u == 255 * (255 * u) - x * u) by (nonlinear_arith);
}

/// A color mixed with a pixel in shares that make a whole: rounding takes away little more
/// than a half.
proof fn lemma_mixed_in_shares(v: nat, d: u8, al: nat) -> (c: int)
    requires
        v <= 255 * pow2(149),
        0 < al <= pow2(149),
    ensures
        to_integer(
            single(),
            Toward::Nearest,
            sum(
                single(),
                product(
                    single(),
                    Number::Finite { negative: false, units: v },
                    Number::Finite { negative: false, units: al },
                ),
                product(
                    single(),
                    num(d as int),
                    difference(single(), num(1), Number::Finite { negative: false, units: al }),
                ),
            ),
            0,
            255,
        ) == c,
        0 <= c <= 255,
        128 * (c * (pow2(149) * pow2(149)) - (v * al + d * (pow2(149) * (pow2(149) - al)))) <= 65 * (
        pow2(149) * pow2(149)),
        128 * ((v * al + d * (pow2(149) * (pow2(149) - al))) - c * (pow2(149) * pow2(149))) <= 65 * (
        pow2(149) * pow2(149)),
{
    let f = single();
    let u = pow2(149);
    let n = d as nat;
    reveal(sum);
    reveal(product);
    reveal(to_integer);
    lemma2_to64();
    lemma2_to64_rest();
    lemma_pow2_pos(149);
    lemma_pow2_strictly_increases(64, 149);
    law_integers_are_exact(f, 1);
    law_integers_are_exact(f, d as int);
    assert(1 * u == u) by (nonlinear_arith);
    // The color's share.
    let p = v * al;
    assert(p <= 255 * (u * u) && p <= 0x1000 * (u * u)) by (nonlinear_arith)
        requires
            p == v * al,
            v <= 255 * u,
            al <= u,
    ;
    let x1 = lemma_small_ratio(p, u);
    // What is left of one, and the share of the pixel.
    let rest = (u - al) as nat;
    let be = if rest == 0 {
        0
    } else {
        lemma_small_ratio(rest, 1)
    };
    assert(difference(f, num(1), Number::Finite { negative: false, units: al }) == (
    Number::Finite { negative: false, units: be }));
    assert(be * 0x100_0000 <= rest * 0x100_0001 + 0x100_0000);
    assert(rest * 0x100_0000 <= be * 0x100_0000 + rest + 0x100_0000);
    assert(be <= 2 * u);
    let q = (n * u) * be;
    assert(q <= 510 * (u * u) && q <= 0x1000 * (u * u)) by (nonlinear_arith)
        requires
            q == (n * u) * be,
            n <= 255,
            be <= 2 * u,
    ;
    let x2 = lemma_small_ratio(q, u);
    let t = x1 + x2;
    let uu = u * u;
    let want = p + n * (u * rest);
    let left = n * (u * rest);
    let nu = n * u;
    assert(q * 0x100_0000 <= left * 0x100_0001 + nu * 0x100_0000 && left * 0x100_0000 <= q
        * 0x100_0000 + left + nu * 0x100_0000) by (nonlinear_arith)
        requires
            q == nu * be,
            left == n * (u * rest),
            nu == n * u,
            be * 0x100_0000 <= rest * 0x100_0001 + 0x100_0000,
            rest * 0x100_0000 <= be * 0x100_0000 + rest + 0x100_0000,
    ;
    assert(left <= 255 * uu && nu * 0x100_0000 <= uu && u * 0x100_0000 <= uu) by (nonlinear_arith)
        requires
            left == n * (u * rest),
            nu == n * u,
            uu == u * u,
            n <= 255,
            rest <= u,
            u >= 0x1_0000_0000_0000_0000,
    ;
    assert(t * u == x1 * u + x2 * u) by (nonlinear_arith)
        requires
            t == x1 + x2,
    ;
    assert(t * u * 0x100_0000 <= want * 0x100_0000 + uu * 0x2000);
    assert(want * 0x100_0000 <= t * u * 0x100_0000 + uu * 0x2000);
    assert(t <= 0x1000 * u) by (nonlinear_arith)
        requires
            t * u * 0x100_0000 <= want * 0x100_0000 + uu * 0x2000,
            want <= 510 * uu,
            uu == u * u,
            u > 0,
    ;
    let s = if t == 0 {
        0
    } else {
        lemma_small_ratio(t, 1)
    };
    assert(s * 0x100_0000 <= t * 0x100_0001 + 0x100_0000);
    assert(t * 0x100_0000 <= s * 0x100_0000 + t + 0x100_0000);
    let (su, tu) = (s * u, t * u);
    assert(su * 0x100_0000 <= tu * 0x100_0001 + u * 0x100_0000 && tu * 0x100_0000 <= su * 0x100_0000
        + tu + u * 0x100_0000) by (nonlinear_arith)
        requires
            su == s * u,
            tu == t * u,
            s * 0x100_0000 <= t * 0x100_0001 + 0x100_0000,
            t * 0x100_0000 <= s * 0x100_0000 + t + 0x100_0000,
    ;
    assert(tu <= 0x1000 * uu) by (nonlinear_arith)
        requires
            tu == t * u,
            t <= 0x1000 * u,
            uu == u * u,
    ;
    assert(s * u * 0x100_0000 <= want * 0x100_0000 + uu * 0x4000);
    assert(want * 0x100_0000 <= s * u * 0x100_0000 + uu * 0x4000);
    let down = s as int / u as int;
    let r = s as int % u as int;
    lemma_fundamental_div_mod(s as int, u as int);
    lemma_mod_bound(s as int, u as int);
    let c = if 2 * r >= u {
        down + 1
    } else {
        down
    };
    assert(p + left <= 255 * uu) by (nonlinear_arith)
        requires
            left == n * (u * rest),
            p == v * al,
            v <= 255 * u,
            rest == u - al,
            al <= u,
            n <= 255,
            uu == u * u,
    ;
    let (cu, du) = (c * u, down * u);
    assert(s == du + r && (c == down ==> cu == du) && (c == down + 1 ==> cu == du + u))
        by (nonlinear_arith)
        requires
            s == u * down + r,
            cu == c * u,
            du == down * u,
    ;
    assert(2 * (cu - s) <= u && 2 * (s - cu) <= u);
    assert(s <= 256 * u && 2 * s < 511 * u) by (nonlinear_arith)
        requires
            s * u * 0x100_0000 <= 255 * uu * 0x100_0000 + uu * 0x4000,
            uu == u * u,
            u >= 1,
    ;
    assert(0 <= c <= 255) by (nonlinear_arith)
        requires
            cu == c * u,
            2 * (cu - s) <= u,
            2 * (s - cu) <= u,
            0 <= s,
            2 * s < 511 * u,
            u >= 1,
    ;
    let cuu = c * uu;
    let sv = s * u;
    assert(2 * (cuu - sv) <= uu && 2 * (sv - cuu) <= uu) by (nonlinear_arith)
        requires
            cuu == c * uu,
            sv == s * u,
            cu == c * u,
            2 * (cu - s) <= u,
            2 * (s - cu) <= u,
            uu == u * u,
            u >= 1,
    ;
    assert(128 * (cuu - want) <= 65 * uu && 128 * (want - cuu) <= 65 * uu);
    assert(n * (u * rest) == d * (u * (u - al))) by (nonlinear_arith)
        requires
            n == d,
            rest == u - al,
    ;
    c
}

/// A color with an opacity, blended on a pixel in any mode, gives the shares of what the
/// mode makes of the two and of the pixel that make a whole, rounded to the nearest byte.
/// `share` counts the smallest numbers in the opacity.
pub proof fn law_blending_mixes_in_shares(mode: BlendMode, s: u8, d: u8, share: nat)
    requires
        0 < share <= pow2(149),
    ensures
        rounds(
            mixed_channel(
                mode,
                num(s as int),
                d,
                Number::Finite { negative: false, units: share },
            ) as int,
            mode_of_bytes(mode, s as int, d as int) * share + 255 * d * (pow2(149) - share),
            255 * pow2(149) as int,
        ),
{
    lemma_pow2_pos(149);
    lemma_blended_in_shares(mode, s, d, share);
}

/// `c` is the whole number nearest to `n / d`, give or take a sixty-fourth part.
pub open spec fn rounds_well(c: int, n: int, d: int) -> bool {
    &&& 128 * (c * d - n) <= 66 * d
    &&& 128 * (n - c * d) <= 66 * d
}

pub proof fn lemma_blended_in_shares(mode: BlendMode, s: u8, d: u8, share: nat)
    requires
        0 < share <= pow2(149),
    ensures
        rounds_well(
            mixed_channel(
                mode,
                num(s as int),
                d,
                Number::Finite { negative: false, units: share },
            ) as int,
            mode_of_bytes(mode, s as int, d as int) * share + 255 * d * (pow2(149) - share),
            255 * pow2(149) as int,
        ),
{
    let u = pow2(149) as int;
    let al = share as int;
    let m = mode_of_bytes(mode, s as int, d as int);
    lemma_pow2_pos(149);
    let v = lemma_mode_of_bytes(mode, s, d);
    let c = lemma_mixed_in_shares(v, d, share);
    lemma_scaled_shares(c, v as int, m, d as int, al, u);
}

/// What a blend mode makes of two bytes lies between zero and full.
proof fn lemma_mode_in_range(mode: BlendMode, s: int, d: int)
    requires
        0 <= s <= 255,
        0 <= d <= 255,
    ensures
        0 <= mode_of_bytes(mode, s, d) <= 65_025,
{
    let (i, j) = (255 - s, 255 - d);
    assert(0 <= s * d <= 65_025 && 0 <= i * j <= 65_025) by (nonlinear_arith)
        requires
            0 <= s <= 255,
            0 <= d <= 255,
            i == 255 - s,
            j == 255 - d,
    ;
    assert(d < 128 ==> 0 <= 2 * s * d <= 65_025) by (nonlinear_arith)
        requires
            0 <= s <= 255,
            0 <= d,
    ;
    assert(d >= 128 ==> 0 <= 2 * i * j <= 65_025) by (nonlinear_arith)
        requires
            0 <= i <= 255,
            0 <= j,
            j == 255 - d,
    ;
}

/// A channel mixed in a share that is near `n / (u * j)`, or left as it is where that is
/// next to nothing, is mixed in shares of `n / (u * j)`.
pub proof fn lemma_near_shares(
    c: int,
    mode: BlendMode,
    s: int,
    d: int,
    z: int,
    n: int,
    j: int,
    u: int,
)
    requires
        u > 0,
        j > 0,
        0 <= z <= u,
        0 <= s <= 255,
        0 <= d <= 255,
        (z * j - n) * 0x1_0000 <= u * j,
        (n - z * j) * 0x1_0000 <= u * j,
        (c == d && z * 512 <= u) || rounds_well(
            c,
            mode_of_bytes(mode, s, d) * z + 255 * d * (u - z),
            255 * u,
        ),
    ensures
        rounds(c, mode_of_bytes(mode, s, d) * n + 255 * d * (u * j - n), 255 * (u * j)),
{
    let m = mode_of_bytes(mode, s, d);
    lemma_mode_in_range(mode, s, d);
    let w = u * j;
    let e = z * j - n;
    let g = m - 255 * d;
    let ge = g * e;
    assert(w > 0) by (nonlinear_arith)
        requires
            w == u * j,
            u > 0,
            j > 0,
    ;
    assert(ge * 0x1_0000 <= 65_025 * w && -ge * 0x1_0000 <= 65_025 * w) by (nonlinear_arith)
        requires
            ge == g * e,
            -65_025 <= g <= 65_025,
            e * 0x1_0000 <= w,
            -e * 0x1_0000 <= w,
            w > 0,
    ;
    let at_z = c * (255 * u) - (m * z + 255 * d * (u - z));
    let at_n = c * (255 * w) - (m * n + 255 * d * (w - n));
    let zj = z * j;
    let gz = g * zj;
    let (x, gx) = ((c - d) * (255 * u), g * z);
    assert(255 * d * (u - z) == d * (255 * u) - (255 * d) * z) by (nonlinear_arith);
    assert((c - d) * (255 * u) == c * (255 * u) - d * (255 * u)) by (nonlinear_arith);
    assert((m - 255 * d) * z == m * z - (255 * d) * z) by (nonlinear_arith);
    assert(at_z == x - gx);
    assert((x - gx) * j == x * j - gx * j) by (nonlinear_arith);
    assert(((c - d) * (255 * u)) * j == (c - d) * (255 * (u * j))) by (nonlinear_arith);
    assert((g * z) * j == g * (z * j)) by (nonlinear_arith);
    assert(at_z * j == (c - d) * (255 * w) - gz);
    assert(255 * d * (w - n) == d * (255 * w) - (255 * d) * n) by (nonlinear_arith);
    assert((c - d) * (255 * w) == c * (255 * w) - d * (255 * w)) by (nonlinear_arith);
    assert((m - 255 * d) * n == m * n - (255 * d) * n) by (nonlinear_arith);
    assert(at_n == (c - d) * (255 * w) - g * n);
    assert(ge == gz - g * n) by (nonlinear_arith)
        requires
            ge == g * e,
            gz == g * zj,
            e == zj - n,
    ;
    let zed = at_z * j;
    assert(at_n == zed + ge);
    if rounds_well(c, m * z + 255 * d * (u - z), 255 * u) {
        assert(128 * zed <= 16_830 * w && 128 * (-zed) <= 16_830 * w) by (nonlinear_arith)
            requires
                zed == at_z * j,
                128 * at_z <= 66 * (255 * u),
                128 * (-at_z) <= 66 * (255 * u),
                w == u * j,
                j > 0,
        ;
    } else {
        assert(zed == -gz) by (nonlinear_arith)
            requires
                zed == (c - d) * (255 * w) - gz,
                c == d,
        ;
        assert(gz * 512 <= 65_025 * w && -gz * 512 <= 65_025 * w) by (nonlinear_arith)
            requires
                gz == g * zj,
                zj == z * j,
                w == u * j,
                -65_025 <= g <= 65_025,
                0 <= z,
                z * 512 <= u,
                j > 0,
        ;
    }
    assert(-ge * 0x1_0000 == -(ge * 0x1_0000));
    assert(128 * at_n <= 17_340 * w && 128 * (-at_n) <= 17_340 * w);
}

proof fn lemma_scaled_shares(c: int, v: int, m: int, d: int, al: int, u: int)
    requires
        u > 0,
        0 < al <= u,
        (255 * v - m * u) * 0x4000 <= 255 * u,
        (m * u - 255 * v) * 0x4000 <= 255 * u,
        128 * (c * (u * u) - (v * al + d * (u * (u - al)))) <= 65 * (u * u),
        128 * ((v * al + d * (u * (u - al))) - c * (u * u)) <= 65 * (u * u),
    ensures
        rounds_well(c, m * al + 255 * d * (u - al), 255 * u),
{
    let e = 255 * v - m * u;
    let uu = u * u;
    assert((e * al) * 0x4000 <= 255 * uu && (-e * al) * 0x4000 <= 255 * uu) by (nonlinear_arith)
        requires
            e * 0x4000 <= 255 * u,
            -e * 0x4000 <= 255 * u,
            0 < al <= u,
            uu == u * u,
    ;
    let big = c * (255 * u) - (m * al + 255 * d * (u - al));
    let x = c * uu - (v * al + d * (u * (u - al)));
    let (g, h, k) = (m * al, 255 * d * (u - al), d * (u * (u - al)));
    assert((c * (255 * u)) * u == 255 * (c * uu)) by (nonlinear_arith)
        requires
            uu == u * u,
    ;
    assert(h * u == 255 * k) by (nonlinear_arith)
        requires
            h == 255 * d * (u - al),
            k == d * (u * (u - al)),
    ;
    assert(e * al == 255 * (v * al) - g * u) by (nonlinear_arith)
        requires
            e == 255 * v - m * u,
            g == m * al,
    ;
    assert(big * u == (c * (255 * u)) * u - g * u - h * u) by (nonlinear_arith)
        requires
            big == c * (255 * u) - (g + h),
    ;
    assert(big * u == 255 * x + e * al);
    assert(-e * al == -(e * al)) by (nonlinear_arith);
    assert(uu > 0) by (nonlinear_arith)
        requires
            uu == u * u,
            u > 0,
    ;
    let (bu, ea) = (big * u, e * al);
    assert(128 * x <= 65 * uu && 128 * (-x) <= 65 * uu);
    assert(ea * 0x4000 <= 255 * uu && -ea * 0x4000 <= 255 * uu);
    assert(bu == 255 * x + ea);
    assert(128 * bu <= 16_830 * uu && 128 * (-bu) <= 16_830 * uu);
    assert(128 * big <= 66 * (255 * u) && 128 * (-big) <= 66 * (255 * u)) by (nonlinear_arith)
        requires
            128 * (big * u) <= 16_830 * uu,
            128 * (-(big * u)) <= 16_830 * uu,
            uu == u * u,
            u > 0,
    ;
}

/// The part that a whole number is of a larger one, as a number between zero and one.
pub proof fn lemma_part(i: int, j: int) -> (q: nat)
    requires
        0 <= i <= j,
        0 < j < 0x100_0000,
    ensures
        clamp_number(quotient(single(), num(i), num(j)), num(0), num(1)) == (Number::Finite {
            negative: false,
            units: q,
        }),
        q <= pow2(149),
        (q * j - i * pow2(149)) * 0x40_0000 <= pow2(149) * j,
        (i * pow2(149) - q * j) * 0x40_0000 <= pow2(149) * j,
{
    reveal(quotient);
    reveal(less);
    let f = single();
    let u = pow2(149);
    lemma2_to64();
    lemma2_to64_rest();
    lemma_pow2_pos(149);
    lemma_pow2_strictly_increases(64, 149);
    law_integers_are_exact(f, i);
    law_integers_are_exact(f, j);
    law_integers_are_exact(f, 0);
    law_integers_are_exact(f, 1);
    let (n, m) = (i as nat, j as nat);
    let (a, b) = ((n * u) * u, m * u);
    assert(0 * u == 0 && 1 * u == u && b > 0 && a <= 0x1000 * (b * u) && a <= (1 * u) * b)
        by (nonlinear_arith)
        requires
            a == (n * u) * u,
            b == m * u,
            n <= m,
            m > 0,
            u > 0,
    ;
    let q = lemma_small_ratio(a, b);
    lemma_rounded_within(24, a, b, 1, 149);
    let (qm, nu, mu) = (q * m, n * u, m * u);
    assert(qm * 0x100_0000 <= nu * 0x100_0001 + m * 0x100_0000 && nu * 0x100_0000 <= qm * 0x100_0000
        + nu + m * 0x100_0000) by (nonlinear_arith)
        requires
            q * b * 0x100_0000 <= a * 0x100_0001 + b * 0x100_0000,
            a * 0x100_0000 <= q * b * 0x100_0000 + a + b * 0x100_0000,
            a == nu * u,
            b == m * u,
            qm == q * m,
            u > 0,
    ;
    assert(nu <= mu && m * 0x100_0000 <= mu) by (nonlinear_arith)
        requires
            nu == n * u,
            mu == m * u,
            n <= m,
            u >= 0x100_0000,
    ;
    assert(u * j == mu) by (nonlinear_arith)
        requires
            mu == m * u,
            m == j,
    ;
    q
}

/// A number between zero and one that fades by such a part.
pub proof fn lemma_faded(a: nat, i: int, j: int) -> (z: nat)
    requires
        a <= pow2(149),
        0 <= i <= j,
        0 < j < 0x100_0000,
    ensures
        product(
            single(),
            Number::Finite { negative: false, units: a },
            clamp_number(quotient(single(), num(i), num(j)), num(0), num(1)),
        ) == (Number::Finite { negative: false, units: z }),
        z <= pow2(149),
        (z * j - a * i) * 0x10_0000 <= pow2(149) * j,
        (a * i - z * j) * 0x10_0000 <= pow2(149) * j,
{
    let q = lemma_part(i, j);
    let z = lemma_shared(a, q);
    let u = pow2(149) as int;
    lemma_pow2_pos(149);
    let (zu, aq, uu) = (z * u, a * q, u * u);
    // Times the whole.
    let (x, y, w) = (zu * j, aq * j, uu * j);
    assert((x - y) * 0x40_0000 <= w && (y - x) * 0x40_0000 <= w) by (nonlinear_arith)
        requires
            (zu - aq) * 0x40_0000 <= uu,
            (aq - zu) * 0x40_0000 <= uu,
            x == zu * j,
            y == aq * j,
            w == uu * j,
            j > 0,
    ;
    let (ai, aiu, au) = (a * i, (a * i) * u, a * (u * j));
    assert((y - aiu) * 0x40_0000 <= au && (aiu - y) * 0x40_0000 <= au) by (nonlinear_arith)
        requires
            (q * j - i * u) * 0x40_0000 <= u * j,
            (i * u - q * j) * 0x40_0000 <= u * j,
            y == (a * q) * j,
            aiu == (a * i) * u,
            au == a * (u * j),
            a >= 0,
    ;
    assert(au <= w) by (nonlinear_arith)
        requires
            au == a * (u * j),
            w == (u * u) * j,
            a <= u,
            j > 0,
            u > 0,
    ;
    assert((x - aiu) * 0x10_0000 <= w && (aiu - x) * 0x10_0000 <= w);
    let (zj, uj) = (z * j, u * j);
    assert((zj - ai) * 0x10_0000 <= uj && (ai - zj) * 0x10_0000 <= uj) by (nonlinear_arith)
        requires
            (x - aiu) * 0x10_0000 <= w,
            (aiu - x) * 0x10_0000 <= w,
            x == (z * u) * j,
            aiu == ai * u,
            w == (u * u) * j,
            zj == z * j,
            uj == u * j,
            u > 0,
    ;
    z
}

/// The product of two numbers between zero and one.
pub proof fn lemma_shared(a: nat, b: nat) -> (z: nat)
    requires
        a <= pow2(149),
        b <= pow2(149),
    ensures
        product(
            single(),
            Number::Finite { negative: false, units: a },
            Number::Finite { negative: false, units: b },
        ) == (Number::Finite { negative: false, units: z }),
        z <= pow2(149),
        (z * pow2(149) - a * b) * 0x40_0000 <= pow2(149) * pow2(149),
        (a * b - z * pow2(149)) * 0x40_0000 <= pow2(149) * pow2(149),
{
    reveal(product);
    let u = pow2(149);
    lemma2_to64();
    lemma2_to64_rest();
    lemma_pow2_pos(149);
    lemma_pow2_strictly_increases(64, 149);
    let (ab, uu) = (a * b, u * u);
    assert(ab <= uu && ab <= 0x1000 * (u * u) && ab <= (1 * u) * u && 1 * u == u && u * 0x100_0000
        <= uu) by (nonlinear_arith)
        requires
            ab == a * b,
            uu == u * u,
            a <= u,
            b <= u,
            u >= 0x100_0000,
    ;
    let z = lemma_small_ratio(ab, u);
    lemma_rounded_within(24, ab, u, 1, 149);
    z
}

/// Brightness adds the same to every channel: 255 for each whole of it. This holds of whole
/// numbers.
pub proof fn law_brightness_adds_to_every_channel(
    grade: ColorGrade,
    r: int,
    g: int,
    b: int,
    more: int,
)
    requires
        product(single(), grade.brightness@, num(255)) == num(more),
        grade.contrast@ == num(1),
        grade.saturation@ == num(1),
        -0x1_0000 < r < 0x1_0000,
        -0x1_0000 < g < 0x1_0000,
        -0x1_0000 < b < 0x1_0000,
        -0x1_0000 < more < 0x1_0000,
        same(grade.brightness@, num(0)) ==> more == 0,
    ensures
        graded(Rgb { r: num(r), g: num(g), b: num(b) }, grade) == (Rgb {
            r: num(r + more),
            g: num(g + more),
            b: num(b + more),
        }),
{
    let f = single();
    lemma2_to64();
    law_integers_are_exact(f, r);
    law_integers_are_exact(f, g);
    law_integers_are_exact(f, b);
    law_integers_are_exact(f, 1);
    law_integers_are_exact(f, more);
    law_integers_are_exact(f, r + more);
    law_integers_are_exact(f, g + more);
    law_integers_are_exact(f, b + more);
    law_integer_sums_are_exact(f, r, more);
    law_integer_sums_are_exact(f, g, more);
    law_integer_sums_are_exact(f, b, more);
    lemma_integers_in_order(f, 1, 1);
}

/// Without any contrast every channel is in the middle.
pub proof fn law_no_contrast_is_the_middle(grade: ColorGrade, c: u8)
    requires
        grade.brightness@ == num(0),
        grade.contrast@ == num(0),
    ensures
        graded_channel(num(c as int), grade) == num(128),
{
    reveal(product);
    reveal(sum);
    let f = single();
    let u = pow2(149);
    lemma2_to64();
    lemma2_to64_rest();
    lemma_pow2_pos(149);
    lemma_pow2_pos(148);
    lemma_pow2_strictly_increases(148, 149);
    lemma_pow2_strictly_increases(149, 277);
    law_integers_are_exact(f, 0);
    law_integers_are_exact(f, 1);
    law_integers_are_exact(f, 128);
    law_integers_are_exact(f, 255);
    law_integers_are_exact(f, c as int);
    lemma_integers_in_order(f, 0, 1);
    lemma_half();
    assert(0 * u == 0) by (nonlinear_arith);
    law_integer_products_are_exact(f, 0, 255);
    law_integer_sums_are_exact(f, c as int, 0);
    let lit = sum(f, num(c as int), product(f, grade.brightness@, num(255)));
    assert(lit == num(c as int));
    let v = lemma_over_255(c as int);
    let x = difference(f, quotient(f, lit, num(255)), (Float32 { bits: HALF_BITS })@);
    let e = v - pow2(148);
    let n = if e == 0 {
        0
    } else {
        lemma_small_ratio(if e < 0 { (-e) as nat } else { e as nat }, 1)
    };
    if e < 0 {
        assert(from_ratio(f, true, (-e) as nat, 1) == (Number::Finite { negative: true, units: n }));
    }
    assert(x == (Number::Finite { negative: e < 0, units: n }));
    assert(n * (0 * u) == 0 && 0 * (255 * u) == 0 && (0 * u) * u == 0) by (nonlinear_arith);
    lemma_exact(f, false, 0, 149, u);
    lemma_exact(f, true, 0, 149, u);
    let flat = product(f, x, num(0));
    assert(flat == (Number::Finite { negative: e < 0, units: 0 }));
    let still = product(f, flat, num(255));
    assert(still == (Number::Finite { negative: e < 0, units: 0 }));
    lemma_plus_zero(f, 128, e < 0);
}

/// The weights of the channels in the brightness of a color.
proof fn lemma_weights()
    ensures
        (Float32 { bits: 0x3e59_b3d0 })@ == (Number::Finite {
            negative: false,
            units: 14_267_344 * pow2(123),
        }),
        (Float32 { bits: 0x3f37_1759 })@ == (Number::Finite {
            negative: false,
            units: 11_999_065 * pow2(125),
        }),
        (Float32 { bits: 0x3d93_dd98 })@ == (Number::Finite {
            negative: false,
            units: 9_690_520 * pow2(122),
        }),
        pow2(123) == 2 * pow2(122),
        pow2(125) == 8 * pow2(122),
        pow2(149) == 134_217_728 * pow2(122),
{
    reveal(number_of_bits32);
    lemma2_to64();
    lemma_pow2_adds(122, 1);
    lemma_pow2_adds(122, 3);
    lemma_pow2_adds(122, 27);
}

/// A weight times a byte.
proof fn lemma_weighed(w: nat, c: u8) -> (v: nat)
    requires
        w <= pow2(149),
    ensures
        product(single(), Number::Finite { negative: false, units: w }, num(c as int)) == (
        Number::Finite { negative: false, units: v }),
        v * 0x100_0000 <= (w * c) * 0x100_0001 + 0x100_0000,
        (w * c) * 0x100_0000 <= v * 0x100_0000 + w * c + 0x100_0000,
{
    reveal(product);
    let u = pow2(149);
    let n = c as nat;
    lemma2_to64();
    lemma_pow2_pos(149);
    law_integers_are_exact(single(), c as int);
    let (a, wn) = (w * (n * u), w * n);
    assert(a == wn * u && a <= 0x1000 * (u * u)) by (nonlinear_arith)
        requires
            a == w * (n * u),
            wn == w * n,
            w <= u,
            n <= 255,
    ;
    let v = lemma_small_ratio(a, u);
    assert(v * 0x100_0000 <= wn * 0x100_0001 + 0x100_0000 && wn * 0x100_0000 <= v * 0x100_0000 + wn
        + 0x100_0000) by (nonlinear_arith)
        requires
            v * u * 0x100_0000 <= a * 0x100_0001 + u * 0x100_0000,
            a * 0x100_0000 <= v * u * 0x100_0000 + a + u * 0x100_0000,
            a == wn * u,
            u > 0,
    ;
    v
}

/// The sum of two numbers without a minus sign.
proof fn lemma_added(a: nat, b: nat) -> (v: nat)
    requires
        a + b <= 0x1000 * pow2(149),
    ensures
        sum(
            single(),
            Number::Finite { negative: false, units: a },
            Number::Finite { negative: false, units: b },
        ) == (Number::Finite { negative: false, units: v }),
        v * 0x100_0000 <= (a + b) * 0x100_0001 + 0x100_0000,
        (a + b) * 0x100_0000 <= v * 0x100_0000 + a + b + 0x100_0000,
{
    reveal(sum);
    if a + b == 0 {
        0
    } else {
        lemma_small_ratio(a + b, 1)
    }
}

/// Without any saturation a color is gray, and as bright as it was to the eye: 2126, 7152 and
/// 722 parts in ten thousand of its red, green and blue.
pub proof fn law_no_saturation_is_gray(grade: ColorGrade, r: u8, g: u8, b: u8) -> (gray: nat)
    requires
        grade.brightness@ == num(0),
        grade.contrast@ == num(1),
        grade.saturation@ == num(0),
    ensures
        ({
            let c = graded(
                Rgb { r: num(r as int), g: num(g as int), b: num(b as int) },
                grade,
            );
            let v = Number::Finite { negative: false, units: gray };
            &&& c == Rgb { r: v, g: v, b: v }
            &&& 10_000 * gray - (2126 * r + 7152 * g + 722 * b) * pow2(149) <= pow2(149)
            &&& (2126 * r + 7152 * g + 722 * b) * pow2(149) - 10_000 * gray <= pow2(149)
        }),
{
    let f = single();
    let (u, p) = (pow2(149), pow2(122));
    lemma2_to64();
    lemma2_to64_rest();
    lemma_pow2_pos(122);
    lemma_pow2_strictly_increases(64, 122);
    lemma_weights();
    law_integers_are_exact(f, 0);
    law_integers_are_exact(f, 1);
    law_integers_are_exact(f, 255);
    law_integers_are_exact(f, r as int);
    law_integers_are_exact(f, g as int);
    law_integers_are_exact(f, b as int);
    lemma_integers_in_order(f, 0, 1);
    lemma_integers_in_order(f, 0, 0);
    lemma_integers_in_order(f, 1, 1);
    law_integer_products_are_exact(f, 0, 255);
    law_integer_sums_are_exact(f, r as int, 0);
    law_integer_sums_are_exact(f, g as int, 0);
    law_integer_sums_are_exact(f, b as int, 0);
    let (w1, w2, w3) = (14_267_344 * pow2(123), 11_999_065 * pow2(125), 9_690_520 * p);
    let v1 = lemma_weighed(w1, r);
    let v2 = lemma_weighed(w2, g);
    let v3 = lemma_weighed(w3, b);
    let (x, y, z) = (w1 * r, w2 * g, w3 * b);
    let (rp, gp, bp) = (r as nat * p, g as nat * p, b as nat * p);
    assert(x == 28_534_688 * rp && y == 95_992_520 * gp && z == 9_690_520 * bp) by (nonlinear_arith)
        requires
            x == w1 * r,
            y == w2 * g,
            z == w3 * b,
            w1 == 28_534_688 * p,
            w2 == 95_992_520 * p,
            w3 == 9_690_520 * p,
            rp == r as nat * p,
            gp == g as nat * p,
            bp == b as nat * p,
    ;
    assert(rp <= 255 * p && gp <= 255 * p && bp <= 255 * p) by (nonlinear_arith)
        requires
            rp == r as nat * p,
            gp == g as nat * p,
            bp == b as nat * p,
    ;
    let s = lemma_added(v1, v2);
    let gray = lemma_added(s, v3);
    let want = (2126 * r + 7152 * g + 722 * b) * u;
    assert(want == 134_217_728 * (2126 * rp + 7152 * gp + 722 * bp)) by (nonlinear_arith)
        requires
            want == (2126 * r + 7152 * g + 722 * b) * u,
            u == 134_217_728 * p,
            rp == r as nat * p,
            gp == g as nat * p,
            bp == b as nat * p,
    ;
    assert(10_000 * gray - want <= u && want - 10_000 * gray <= u);
    let luma = Number::Finite { negative: false, units: gray };
    let d = Rgb { r: num(r as int), g: num(g as int), b: num(b as int) };
    assert(luma_of(d) == luma);
    assert(gray <= 0x1000 * u);
    lemma_towards_gray(s, v3, gray, r);
    lemma_towards_gray(s, v3, gray, g);
    lemma_towards_gray(s, v3, gray, b);
    gray
}

/// A number of the format plus a zero of either sign stays as it is.
proof fn lemma_towards_gray(a: nat, b: nat, gray: nat, c: u8)
    requires
        a + b <= 0x1000 * pow2(149),
        gray <= 0x400 * pow2(149),
        sum(
            single(),
            Number::Finite { negative: false, units: a },
            Number::Finite { negative: false, units: b },
        ) == (Number::Finite { negative: false, units: gray }),
    ensures
        saturated_channel(
            Number::Finite { negative: false, units: gray },
            num(c as int),
            num(0),
        ) == (Number::Finite { negative: false, units: gray }),
{
    reveal(sum);
    reveal(product);
    let f = single();
    let u = pow2(149);
    let luma = Number::Finite { negative: false, units: gray };
    lemma2_to64();
    lemma_pow2_pos(149);
    law_integers_are_exact(f, 0);
    law_integers_are_exact(f, c as int);
    assert(c as nat * u <= 0x400 * u) by (nonlinear_arith)
        requires
            c <= 255,
    ;
    let e = c as int * u - gray;
    let n = if e == 0 {
        0
    } else {
        lemma_small_ratio(if e < 0 { (-e) as nat } else { e as nat }, 1)
    };
    if e < 0 {
        assert(from_ratio(f, true, (-e) as nat, 1) == (Number::Finite { negative: true, units: n }));
    }
    let x = difference(f, num(c as int), luma);
    assert(x == (Number::Finite { negative: e < 0, units: n }));
    assert(n * (0 * u) == 0 && 0 * u == 0 && (0 * u) * u == 0) by (nonlinear_arith);
    lemma_exact(f, false, 0, 149, u);
    lemma_exact(f, true, 0, 149, u);
    assert(product(f, x, num(0)) == (Number::Finite { negative: e < 0, units: 0 }));
    if gray > 0 {
        lemma_rounded_again(24, a + b, 1);
    }
}

} // verus!
