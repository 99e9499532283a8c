//! Painting on an RGBA8 buffer: scaled, turned and cropped pictures, and filled
//! boxes.

use crate::decoder::{
    has_value, lemma_value_of_one_color, lemma_value_on_pixel, pixel_before, sample_between,
    value_between,
};
use crate::exact::{
    halves, holds, integer, law_integer_products_are_exact, law_integer_sums_are_exact,
    law_integers_are_exact, law_integers_come_back, law_multiplication_by_one_is_exact,
    lemma_exact, lemma_halves, lemma_halves_alone, lemma_halves_in_order, lemma_integers_in_order, lemma_one,
    lemma_over_itself, lemma_plus_zero, lemma_rounded_within, lemma_signed_halves,
    lemma_small_patterns, lemma_sum_of_halves, lemma_times_zero, lemma_zero_times_zero, zero_with,
};
use crate::float::{
    absolute, clamp_number, difference, larger, lemma_pow2_mono, less, magnitude, negated, no_more,
    number_of_bits32, product, quotient, rounded, single, smaller, sum, to_integer, Float32,
    Number, Toward,
};
use crate::pixel::{
    blend_pixel, grade_color, graded, hue_shifted, law_opaque_pixels_replace,
    lemma_blended_in_shares, lemma_near_shares, lemma_shared, mixed, mode_of_bytes, n32, num,
    pixel_at, rounds, rounds_well, shift_hue, with_pixel, Color, Rgb,
};
use crate::timeline::{
    default_transform, neutral_grade, BlendMode, ColorGrade, Transform, TransformView, HALF_BITS,
    ONE_BITS, ZERO_BITS,
};
use vstd::arithmetic::div_mod::{
    lemma_fundamental_div_mod, lemma_fundamental_div_mod_converse, lemma_mod_bound,
};
use vstd::arithmetic::mul::lemma_mul_is_commutative;
use vstd::arithmetic::power2::{lemma2_to64, lemma_pow2_adds, lemma_pow2_pos, pow2};
use vstd::prelude::*;

verus! {

/// The background of an empty frame, near black.
pub open spec fn background() -> Seq<u8> {
    seq![8u8, 8u8, 10u8, 255u8]
}

/// A buffer with every whole pixel set to the background.
pub open spec fn cleared(old: Seq<u8>) -> Seq<u8> {
    Seq::new(
        old.len(),
        |i: int|
            if i / 4 < old.len() / 4 {
                background()[i % 4]
            } else {
                old[i]
            },
    )
}

/// Sets every whole pixel of a buffer to the background.
pub fn clear_buffer(out: &mut Vec<u8>)
    ensures
        final(out)@ == cleared(old(out)@),
{
    let ghost first = out@;
    let n: usize = out.len() / 4;
    let mut p: usize = 0;
    while p < n
        invariant
            p <= n,
            n == first.len() / 4,
            out.len() == first.len(),
            forall|i: int|
                0 <= i < first.len() ==> #[trigger] out@[i] == (if i / 4 < p {
                    background()[i % 4]
                } else {
                    first[i]
                }),
        decreases n - p,
    {
        out.set(4 * p, 8);
        out.set(4 * p + 1, 8);
        out.set(4 * p + 2, 10);
        out.set(4 * p + 3, 255);
        p = p + 1;
    }
    assert(out@ =~= cleared(first));
}

/// What is painted where: a color and its opacity for each place, or nothing.
pub type Paint = spec_fn(int, int) -> Option<(Rgb, Number)>;

/// A buffer after painting `h` rows of `w` pixels; what lies behind them stays as it is.
pub open spec fn painted(old: Seq<u8>, w: int, h: int, paint: Paint, mode: BlendMode) -> Seq<u8> {
    painted_upto(old, w, paint, mode, w * h)
}

/// A buffer of `n` bytes has room for a frame of `w` by `h` pixels, and places in the
/// frame are 32-bit integers.
pub open spec fn has_room(n: int, w: int, h: int) -> bool {
    &&& w * h * 4 <= n
    &&& h > 0 ==> w <= i32::MAX
    &&& w > 0 ==> h <= i32::MAX
}

/// A buffer after painting the first `n` pixels.
pub open spec fn painted_upto(
    old: Seq<u8>,
    w: int,
    paint: Paint,
    mode: BlendMode,
    n: int,
) -> Seq<u8> {
    Seq::new(
        old.len(),
        |i: int|
            if i / 4 < n {
                match paint((i / 4) % w, (i / 4) / w) {
                    Some((c, a)) => mixed(pixel_at(old, 4 * (i / 4)), c, a, mode)[i % 4],
                    None => old[i],
                }
            } else {
                old[i]
            },
    )
}

/// A buffer of the size of a frame with a 32-bit number of bytes has room for it.
pub proof fn lemma_has_room(w: int, h: int)
    requires
        0 <= w,
        0 <= h,
        w * h * 4 <= u32::MAX,
    ensures
        has_room(w * h * 4, w, h),
{
    assert(h > 0 ==> w <= w * h) by (nonlinear_arith)
        requires
            0 <= w,
    ;
    assert(w > 0 ==> h <= w * h) by (nonlinear_arith)
        requires
            0 <= h,
    ;
}

proof fn lemma_mixed_len(px: Seq<u8>, c: Rgb, a: Number, mode: BlendMode)
    requires
        px.len() == 4,
    ensures
        mixed(px, c, a, mode).len() == 4,
{
}

/// Painting one more pixel.
proof fn lemma_paint_one(
    old: Seq<u8>,
    w: int,
    paint: Paint,
    mode: BlendMode,
    n: int,
    c: Rgb,
    a: Number,
)
    requires
        w > 0,
        0 <= n,
        4 * n + 4 <= old.len(),
        paint(n % w, n / w) == Some((c, a)),
    ensures
        ({
            let now = painted_upto(old, w, paint, mode, n);
            painted_upto(old, w, paint, mode, n + 1) == with_pixel(
                now,
                4 * n,
                mixed(pixel_at(now, 4 * n), c, a, mode),
            )
        }),
{
    let now = painted_upto(old, w, paint, mode, n);
    let px = pixel_at(old, 4 * n);
    assert(pixel_at(now, 4 * n) =~= px);
    lemma_mixed_len(px, c, a, mode);
    let next = painted_upto(old, w, paint, mode, n + 1);
    let want = with_pixel(now, 4 * n, mixed(px, c, a, mode));
    assert forall|i: int| 0 <= i < old.len() implies #[trigger] next[i] == want[i] by {
        if i / 4 == n {
            assert(i == 4 * n + i % 4);
        }
    }
    assert(next =~= want);
}

/// Passing over some pixels.
proof fn lemma_paint_none(old: Seq<u8>, w: int, paint: Paint, mode: BlendMode, n: int, m: int)
    requires
        w > 0,
        0 <= n <= m,
        forall|p: int| n <= p < m ==> #[trigger] paint(p % w, p / w).is_none(),
    ensures
        painted_upto(old, w, paint, mode, m) == painted_upto(old, w, paint, mode, n),
{
    let a = painted_upto(old, w, paint, mode, n);
    let b = painted_upto(old, w, paint, mode, m);
    assert forall|i: int| 0 <= i < old.len() implies #[trigger] a[i] == b[i] by {
        let p = i / 4;
        if n <= p < m {
            assert(paint(p % w, p / w).is_none());
        }
    }
    assert(a =~= b);
}

proof fn lemma_place(w: int, x: int, y: int)
    requires
        0 <= x < w,
        0 <= y,
    ensures
        (y * w + x) % w == x,
        (y * w + x) / w == y,
{
    lemma_fundamental_div_mod_converse(y * w + x, w, y, x);
}

proof fn lemma_index(w: int, h: int, x: int, y: int)
    requires
        0 <= x < w,
        0 <= y < h,
    ensures
        0 <= y * w + x < w * h,
        y * w + w <= w * h,
        0 <= y * w,
{
    assert(y * w + w <= w * h) by (nonlinear_arith)
        requires
            y + 1 <= h,
            w > 0,
    ;
    assert(0 <= y * w) by (nonlinear_arith)
        requires
            y >= 0,
            w > 0,
    ;
}

/// Where a picture goes in a frame.
pub struct PlacementView {
    /// The size of the part that is shown, in source pixels.
    pub cw: int,
    pub ch: int,
    /// Frame pixels per source pixel.
    pub fit: Number,
    /// The center in the frame, and how far from it the picture can reach, rounded up.
    pub cx: Number,
    pub cy: Number,
    pub rx: int,
    pub ry: int,
    /// The left and top edge of the part that is shown.
    pub cl: Number,
    pub ct: Number,
}

/// Where a picture goes in a frame.
#[derive(Clone, Copy, Debug)]
pub struct Placement {
    pub cw: i32,
    pub ch: i32,
    pub fit: Float32,
    pub cx: Float32,
    pub cy: Float32,
    pub rx: i64,
    pub ry: i64,
    pub cl: Float32,
    pub ct: Float32,
}

impl View for Placement {
    type V = PlacementView;

    open spec fn view(&self) -> PlacementView {
        PlacementView {
            cw: self.cw as int,
            ch: self.ch as int,
            fit: self.fit@,
            cx: self.cx@,
            cy: self.cy@,
            rx: self.rx as int,
            ry: self.ry as int,
            cl: self.cl@,
            ct: self.ct@,
        }
    }
}

/// The whole part of a number as a 32-bit integer.
pub open spec fn truncated(x: Number) -> int {
    to_integer(single(), Toward::Zero, x, i32::MIN as int, i32::MAX as int)
}

pub open spec fn half_size(n: int) -> int {
    if n < 0 {
        (-n) / 2
    } else {
        n / 2
    }
}

pub open spec fn one_at_least(n: int) -> int {
    if n > 1 {
        n
    } else {
        1
    }
}

/// How far a turned box with half sides `a` and `b` reaches along the first of its
/// axes.
pub open spec fn reach(a: int, b: int, cos: Number, sin: Number) -> int {
    truncated(
        absolute(
            sum(
                single(),
                product(single(), num(a), absolute(cos)),
                product(single(), num(b), absolute(sin)),
            ),
        ),
    )
}

/// Where a picture of `sw` by `sh` pixels goes in a frame of `dw` by `dh`: the part
/// within the crop fits the frame, times the scale, with its center at the place of
/// the transform; nothing where the crop leaves nothing.
pub open spec fn placement_of(
    sw: int,
    sh: int,
    dw: int,
    dh: int,
    t: TransformView,
    cos: Number,
    sin: Number,
    crop: Seq<Float32>,
) -> Option<PlacementView> {
    let scale = larger(t.scale, (Float32 { bits: 0x3a83_126f })@);
    let least = (Float32 { bits: 0x38d1_b717 })@;
    let cl = clamp_number(crop[0]@, num(0), num(1));
    let ct = clamp_number(crop[1]@, num(0), num(1));
    let cr = clamp_number(crop[2]@, cl, num(1));
    let cb = clamp_number(crop[3]@, ct, num(1));
    let width = difference(single(), cr, cl);
    let height = difference(single(), cb, ct);
    if less(width, least) || less(height, least) {
        None
    } else {
        let cw = truncated(product(single(), num(sw), width));
        let ch = truncated(product(single(), num(sh), height));
        let fit = product(
            single(),
            smaller(
                quotient(single(), num(dw), num(one_at_least(cw))),
                quotient(single(), num(dh), num(one_at_least(ch))),
            ),
            scale,
        );
        let w2 = half_size(truncated(product(single(), num(cw), fit)));
        let h2 = half_size(truncated(product(single(), num(ch), fit)));
        Some(
            PlacementView {
                cw,
                ch,
                fit,
                cx: product(single(), num(dw), t.x),
                cy: product(single(), num(dh), t.y),
                rx: reach(w2 + 1, h2 + 1, cos, sin) + 2,
                ry: reach(h2 + 1, w2 + 1, cos, sin) + 2,
                cl,
                ct,
            },
        )
    }
}

/// What a picture is painted with.
#[derive(Clone, Copy, Debug)]
pub struct Look {
    pub opacity: Float32,
    pub grade: ColorGrade,
    pub flip_x: bool,
    pub flip_y: bool,
    pub cos: Float32,
    pub sin: Float32,
}

/// What a picture is painted with, by values.
pub struct LookView {
    pub opacity: Number,
    pub grade: ColorGrade,
    pub flip_x: bool,
    pub flip_y: bool,
    pub cos: Number,
    pub sin: Number,
}

impl View for Look {
    type V = LookView;

    open spec fn view(&self) -> LookView {
        LookView {
            opacity: self.opacity@,
            grade: self.grade,
            flip_x: self.flip_x,
            flip_y: self.flip_y,
            cos: self.cos@,
            sin: self.sin@,
        }
    }
}

/// How far along a side of `n` pixels something lies, given how far it is from its middle.
pub open spec fn along_side(from_middle: Number, n: int) -> Number {
    sum(single(), from_middle, product(single(), num(n), (Float32 { bits: HALF_BITS })@))
}

/// A place among the pixels of a side, each at its middle.
pub open spec fn pixel_place(along: Number, n: int, flip: bool) -> Number {
    flipped(difference(single(), along, (Float32 { bits: HALF_BITS })@), n, flip)
}

/// The place lies within a side of `n` pixels.
pub open spec fn on_side(along: Number, n: int) -> bool {
    no_more(num(0), along) && less(along, num(n))
}

/// How far the middle of a pixel is from a place.
pub open spec fn from_place(x: int, at: Number) -> Number {
    difference(single(), sum(single(), num(x), (Float32 { bits: HALF_BITS })@), at)
}

/// The place in the source that shows at the middle of a pixel of the frame, where that
/// lies in the picture.
pub open spec fn sampled(
    pl: PlacementView,
    look: LookView,
    sw: int,
    sh: int,
    x: int,
    y: int,
) -> Option<(Number, Number)> {
    let (mx, my) = (truncated(pl.cx), truncated(pl.cy));
    if !(mx - pl.rx <= x < mx + pl.rx && my - pl.ry <= y < my + pl.ry) {
        None
    } else {
        let dx = from_place(x, pl.cx);
        let dy = from_place(y, pl.cy);
        let u = quotient(
            single(),
            sum(single(), product(single(), dx, look.cos), product(single(), dy, look.sin)),
            pl.fit,
        );
        let v = quotient(
            single(),
            sum(
                single(),
                product(single(), negated(dx), look.sin),
                product(single(), dy, look.cos),
            ),
            pl.fit,
        );
        let (a, b) = (along_side(u, pl.cw), along_side(v, pl.ch));
        let px = sum(
            single(),
            pixel_place(a, pl.cw, look.flip_x),
            product(single(), pl.cl, num(sw)),
        );
        let py = sum(
            single(),
            pixel_place(b, pl.ch, look.flip_y),
            product(single(), pl.ct, num(sh)),
        );
        if on_side(a, pl.cw) && on_side(b, pl.ch) && 0 <= truncated(px) < sw && 0 <= truncated(py)
            < sh {
            Some((px, py))
        } else {
            None
        }
    }
}

/// A place along a side of `n` pixels, from the other end where it is flipped.
pub open spec fn flipped(f: Number, n: int, flip: bool) -> Number {
    if flip {
        difference(single(), difference(single(), num(n), f), num(1))
    } else {
        f
    }
}

/// A color with no channel above full.
pub open spec fn capped(c: Rgb) -> Rgb {
    Rgb { r: smaller(c.r, num(255)), g: smaller(c.g, num(255)), b: smaller(c.b, num(255)) }
}

/// The color and opacity at a place of the source, between its pixels, graded.
pub open spec fn source_paint(
    src: Seq<u8>,
    sw: int,
    sh: int,
    px: Number,
    py: Number,
    look: LookView,
) -> (Rgb, Number) {
    let c = Rgb {
        r: value_between(src, sw, sh, px, py, 0),
        g: value_between(src, sw, sh, px, py, 1),
        b: value_between(src, sw, sh, px, py, 2),
    };
    (
        capped(hue_shifted(graded(c, look.grade), look.grade.hue_shift@)),
        product(
            single(),
            quotient(single(), value_between(src, sw, sh, px, py, 3), num(255)),
            smaller(look.opacity, num(1)),
        ),
    )
}

/// What a placed picture paints.
pub open spec fn picture_paint(
    src: Seq<u8>,
    pl: PlacementView,
    look: LookView,
    sw: int,
    sh: int,
) -> Paint {
    |x: int, y: int|
        match sampled(pl, look, sw, sh, x, y) {
            Some((px, py)) => Some(source_paint(src, sw, sh, px, py, look)),
            None => None,
        }
}

/// The frame after a picture was blended into it; a picture with too few bytes
/// leaves it as it is.
pub open spec fn picture_blended(
    dst: Seq<u8>,
    dw: int,
    dh: int,
    src: Seq<u8>,
    sw: int,
    sh: int,
    t: TransformView,
    look: LookView,
    crop: Seq<Float32>,
    mode: BlendMode,
) -> Seq<u8> {
    if src.len() < sw * sh * 4 {
        dst
    } else {
        match placement_of(sw, sh, dw, dh, t, look.cos, look.sin, crop) {
            Some(pl) => painted(dst, dw, dh, picture_paint(src, pl, look, sw, sh), mode),
            None => dst,
        }
    }
}

fn whole(x: Float32) -> (r: i32)
    ensures
        r == truncated(x@),
{
    x.to_i32(Toward::Zero)
}

fn half_of(n: i32) -> (r: i64)
    ensures
        r == half_size(n as int),
{
    if n < 0 {
        (-(n as i64)) / 2
    } else {
        n as i64 / 2
    }
}

fn reach_of(a: i64, b: i64, cos: Float32, sin: Float32) -> (r: i32)
    ensures
        r == reach(a as int, b as int, cos@, sin@),
{
    whole(n32(a).times(cos.magnitude()).plus(n32(b).times(sin.magnitude())).magnitude())
}

/// Places a picture in a frame. `cos` and `sin` are those of the rotation.
pub fn place(
    sw: u32,
    sh: u32,
    dw: u32,
    dh: u32,
    t: &Transform,
    cos: Float32,
    sin: Float32,
    crop: &[Float32; 4],
) -> (r: Option<Placement>)
    ensures
        match placement_of(
            sw as int,
            sh as int,
            dw as int,
            dh as int,
            t@,
            cos@,
            sin@,
            crop@,
        ) {
            Some(pl) => r.is_some() && r.unwrap()@ == pl,
            None => r.is_none(),
        },
{
    let scale: Float32 = t.scale.maximum(Float32 { bits: 0x3a83_126f });
    let least: Float32 = Float32 { bits: 0x38d1_b717 };
    let cl: Float32 = crop[0].clamped(n32(0), n32(1));
    let ct: Float32 = crop[1].clamped(n32(0), n32(1));
    let cr: Float32 = crop[2].clamped(cl, n32(1));
    let cb: Float32 = crop[3].clamped(ct, n32(1));
    let width: Float32 = cr.minus(cl);
    let height: Float32 = cb.minus(ct);
    if width.less_than(least) || height.less_than(least) {
        return None;
    }
    let cw: i32 = whole(n32(sw as i64).times(width));
    let ch: i32 = whole(n32(sh as i64).times(height));
    let cw1: i32 = if cw > 1 {
        cw
    } else {
        1
    };
    let ch1: i32 = if ch > 1 {
        ch
    } else {
        1
    };
    let fit: Float32 = n32(dw as i64).over(n32(cw1 as i64)).minimum(
        n32(dh as i64).over(n32(ch1 as i64)),
    ).times(scale);
    let w2: i64 = half_of(whole(n32(cw as i64).times(fit)));
    let h2: i64 = half_of(whole(n32(ch as i64).times(fit)));
    Some(
        Placement {
            cw,
            ch,
            fit,
            cx: n32(dw as i64).times(t.x),
            cy: n32(dh as i64).times(t.y),
            rx: reach_of(w2 + 1, h2 + 1, cos, sin) as i64 + 2,
            ry: reach_of(h2 + 1, w2 + 1, cos, sin) as i64 + 2,
            cl,
            ct,
        },
    )
}

fn flip(f: Float32, n: i32, turn: bool) -> (r: Float32)
    ensures
        r@ == flipped(f@, n as int, turn),
{
    if turn {
        n32(n as i64).minus(f).minus(n32(1))
    } else {
        f
    }
}

fn along(from_middle: Float32, n: i32) -> (r: Float32)
    ensures
        r@ == along_side(from_middle@, n as int),
{
    from_middle.plus(n32(n as i64).times(Float32 { bits: HALF_BITS }))
}

fn among_pixels(along: Float32, n: i32, turn: bool) -> (r: Float32)
    ensures
        r@ == pixel_place(along@, n as int, turn),
{
    flip(along.minus(Float32 { bits: HALF_BITS }), n, turn)
}

fn within(along: Float32, n: i32) -> (r: bool)
    ensures
        r == on_side(along@, n as int),
{
    n32(0).at_most(along) && along.less_than(n32(n as i64))
}

fn middle_from(x: u32, at: Float32) -> (r: Float32)
    ensures
        r@ == from_place(x as int, at@),
{
    n32(x as i64).plus(Float32 { bits: HALF_BITS }).minus(at)
}

fn sample(
    pl: &Placement,
    look: &Look,
    sw: u32,
    sh: u32,
    x: u32,
    y: u32,
) -> (r: Option<(Float32, Float32)>)
    ensures
        match sampled(pl@, look@, sw as int, sh as int, x as int, y as int) {
            Some((px, py)) => r.is_some() && r.unwrap().0@ == px && r.unwrap().1@ == py && sw >= 1
                && sh >= 1,
            None => r.is_none(),
        },
{
    let ix: i128 = x as i128 - whole(pl.cx) as i128;
    let iy: i128 = y as i128 - whole(pl.cy) as i128;
    let rx: i128 = pl.rx as i128;
    let ry: i128 = pl.ry as i128;
    if !(-rx <= ix && ix < rx && -ry <= iy && iy < ry) {
        return None;
    }
    let dx: Float32 = middle_from(x, pl.cx);
    let dy: Float32 = middle_from(y, pl.cy);
    let u: Float32 = dx.times(look.cos).plus(dy.times(look.sin)).over(pl.fit);
    let v: Float32 = dx.negate().times(look.sin).plus(dy.times(look.cos)).over(pl.fit);
    let a: Float32 = along(u, pl.cw);
    let b: Float32 = along(v, pl.ch);
    if !within(a, pl.cw) || !within(b, pl.ch) {
        return None;
    }
    let px: Float32 = among_pixels(a, pl.cw, look.flip_x).plus(pl.cl.times(n32(sw as i64)));
    let py: Float32 = among_pixels(b, pl.ch, look.flip_y).plus(pl.ct.times(n32(sh as i64)));
    let su: i32 = whole(px);
    let sv: i32 = whole(py);
    if su < 0 || sv < 0 || su as i64 >= sw as i64 || sv as i64 >= sh as i64 {
        None
    } else {
        Some((px, py))
    }
}

fn paint_of(src: &Vec<u8>, sw: u32, sh: u32, px: Float32, py: Float32, look: &Look) -> (r: (
    Color,
    Float32,
))
    requires
        sw >= 1,
        sh >= 1,
    ensures
        (r.0@, r.1@) == source_paint(src@, sw as int, sh as int, px@, py@, look@),
{
    let c: Color = Color {
        r: sample_between(src, sw, sh, px, py, 0),
        g: sample_between(src, sw, sh, px, py, 1),
        b: sample_between(src, sw, sh, px, py, 2),
    };
    let d: Color = shift_hue(grade_color(c, &look.grade), look.grade.hue_shift);
    let a: Float32 = sample_between(src, sw, sh, px, py, 3).over(n32(255)).times(
        look.opacity.minimum(n32(1)),
    );
    (
        Color {
            r: d.r.minimum(n32(255)),
            g: d.g.minimum(n32(255)),
            b: d.b.minimum(n32(255)),
        },
        a,
    )
}

/// Blends a picture into a frame: fitted and placed as the transform says, cropped,
/// flipped, graded, with the values between the pixels of the source.
pub fn blend_scaled(
    src: &Vec<u8>,
    sw: u32,
    sh: u32,
    dst: &mut Vec<u8>,
    dw: u32,
    dh: u32,
    t: &Transform,
    look: &Look,
    crop: &[Float32; 4],
    mode: BlendMode,
)
    requires
        sw as int * sh as int * 4 <= u32::MAX,
        has_room(old(dst).len() as int, dw as int, dh as int),
    ensures
        final(dst)@ == picture_blended(
            old(dst)@,
            dw as int,
            dh as int,
            src@,
            sw as int,
            sh as int,
            t@,
            look@,
            crop@,
            mode,
        ),
{
    let ghost first = dst@;
    let ghost w = dw as int;
    let ghost h = dh as int;
    let need: u64 = sw as u64 * sh as u64 * 4;
    if (src.len() as u64) < need {
        return;
    }
    let pl: Placement = match place(sw, sh, dw, dh, t, look.cos, look.sin, crop) {
        Some(p) => p,
        None => {
            return;
        },
    };
    let ghost paint = picture_paint(src@, pl@, look@, sw as int, sh as int);
    proof {
        assert(0 * w == 0) by (nonlinear_arith);
        assert(painted_upto(first, w, paint, mode, 0) =~= first);
    }
    let mut y: u32 = 0;
    while y < dh
        invariant
            y <= dh,
            w == dw,
            h == dh,
            w * h * 4 <= first.len() <= usize::MAX,
            dst@ == painted_upto(first, w, paint, mode, y * w),
            src.len() >= sw as int * sh as int * 4,
            sw as int * sh as int * 4 <= u32::MAX,
            paint == picture_paint(src@, pl@, look@, sw as int, sh as int),
        decreases dh - y,
    {
        let mut x: u32 = 0;
        assert(y * w + 0 == y * w);
        while x < dw
            invariant
                y < dh,
                x <= dw,
                w == dw,
                h == dh,
                w * h * 4 <= first.len() <= usize::MAX,
                dst@ == painted_upto(first, w, paint, mode, y * w + x),
                src.len() >= sw as int * sh as int * 4,
                sw as int * sh as int * 4 <= u32::MAX,
                paint == picture_paint(src@, pl@, look@, sw as int, sh as int),
            decreases dw - x,
        {
            let ghost n = y * w + x;
            proof {
                lemma_index(w, h, x as int, y as int);
                lemma_place(w, x as int, y as int);
                lemma_mul_is_commutative(y as int, w);
            }
            match sample(&pl, look, sw, sh, x, y) {
                Some((px, py)) => {
                    let (c, a): (Color, Float32) = paint_of(src, sw, sh, px, py, look);
                    let di: usize = (y as usize * dw as usize + x as usize) * 4;
                    proof {
                        assert(paint(n % w, n / w) == Some((c@, a@)));
                        lemma_paint_one(first, w, paint, mode, n, c@, a@);
                    }
                    blend_pixel(dst, di, c, a, mode);
                },
                None => {
                    proof {
                        assert(paint(n % w, n / w).is_none());
                        assert forall|p: int| n <= p < n + 1 implies #[trigger] paint(p % w, p / w).is_none() by {
                            assert(p == n);
                        }
                        lemma_paint_none(first, w, paint, mode, n, n + 1);
                    }
                },
            }
            x = x + 1;
        }
        proof {
            assert(y * w + w == (y + 1) * w) by (nonlinear_arith);
        }
        y = y + 1;
    }
    proof {
        lemma_mul_is_commutative(w, h);
    }
}

/// A turned box in a frame.
pub struct BoxView {
    pub cx: Number,
    pub cy: Number,
    pub hw: Number,
    pub hh: Number,
    pub cos: Number,
    pub sin: Number,
}

/// The box with its upper left corner at `x0`, `y0` before it is turned round its
/// center.
pub open spec fn box_of(
    x0: Number,
    y0: Number,
    w: Number,
    h: Number,
    cos: Number,
    sin: Number,
) -> BoxView {
    let hw = quotient(single(), w, num(2));
    let hh = quotient(single(), h, num(2));
    BoxView { cx: sum(single(), x0, hw), cy: sum(single(), y0, hh), hw, hh, cos, sin }
}

/// How far from its center a turned box reaches.
pub open spec fn box_reach(a: Number, b: Number, cos: Number, sin: Number) -> Number {
    sum(single(), product(single(), a, absolute(cos)), product(single(), b, absolute(sin)))
}

/// The place lies within the bounds of a turned box, and inside it.
pub open spec fn in_box(b: BoxView, x: int, y: int) -> bool {
    let rx = box_reach(b.hw, b.hh, b.cos, b.sin);
    let ry = box_reach(b.hh, b.hw, b.cos, b.sin);
    let dx = difference(single(), num(x), b.cx);
    let dy = difference(single(), num(y), b.cy);
    let lx = sum(single(), product(single(), dx, b.cos), product(single(), dy, b.sin));
    let ly = sum(single(), product(single(), negated(dx), b.sin), product(single(), dy, b.cos));
    &&& truncated(difference(single(), b.cx, rx)) <= x < truncated(sum(single(), b.cx, rx))
    &&& truncated(difference(single(), b.cy, ry)) <= y < truncated(sum(single(), b.cy, ry))
    &&& no_more(absolute(lx), b.hw)
    &&& no_more(absolute(ly), b.hh)
}

/// The color of four bytes.
pub open spec fn byte_color(color: Seq<u8>) -> Rgb {
    Rgb { r: num(color[0] as int), g: num(color[1] as int), b: num(color[2] as int) }
}

/// The opacity of a filled box.
pub open spec fn box_opacity(color: Seq<u8>, opacity: Number) -> Number {
    product(
        single(),
        quotient(single(), num(color[3] as int), num(255)),
        smaller(opacity, num(1)),
    )
}

pub open spec fn box_paint(b: BoxView, color: Seq<u8>, opacity: Number) -> Paint {
    |x: int, y: int|
        if in_box(b, x, y) {
            Some((byte_color(color), box_opacity(color, opacity)))
        } else {
            None
        }
}

/// The frame after a box was filled; one that is hardly there leaves it as it is.
pub open spec fn box_filled(
    dst: Seq<u8>,
    dw: int,
    dh: int,
    b: BoxView,
    color: Seq<u8>,
    opacity: Number,
) -> Seq<u8> {
    if no_more(box_opacity(color, opacity), faintest()) {
        dst
    } else {
        painted(dst, dw, dh, box_paint(b, color, opacity), BlendMode::Normal)
    }
}

/// A turned box.
#[derive(Clone, Copy, Debug)]
pub struct TurnedBox {
    pub cx: Float32,
    pub cy: Float32,
    pub hw: Float32,
    pub hh: Float32,
    pub cos: Float32,
    pub sin: Float32,
}

impl View for TurnedBox {
    type V = BoxView;

    open spec fn view(&self) -> BoxView {
        BoxView {
            cx: self.cx@,
            cy: self.cy@,
            hw: self.hw@,
            hh: self.hh@,
            cos: self.cos@,
            sin: self.sin@,
        }
    }
}

impl TurnedBox {
    pub fn new(
        x0: Float32,
        y0: Float32,
        w: Float32,
        h: Float32,
        cos: Float32,
        sin: Float32,
    ) -> (b: TurnedBox)
        ensures
            b@ == box_of(x0@, y0@, w@, h@, cos@, sin@),
    {
        let hw: Float32 = w.over(n32(2));
        let hh: Float32 = h.over(n32(2));
        TurnedBox { cx: x0.plus(hw), cy: y0.plus(hh), hw, hh, cos, sin }
    }

    fn holds(&self, x: u32, y: u32) -> (r: bool)
        ensures
            r == in_box(self@, x as int, y as int),
    {
        let rx: Float32 = self.hw.times(self.cos.magnitude()).plus(
            self.hh.times(self.sin.magnitude()),
        );
        let ry: Float32 = self.hh.times(self.cos.magnitude()).plus(
            self.hw.times(self.sin.magnitude()),
        );
        let left: i32 = whole(self.cx.minus(rx));
        let right: i32 = whole(self.cx.plus(rx));
        let top: i32 = whole(self.cy.minus(ry));
        let bottom: i32 = whole(self.cy.plus(ry));
        if !(left as i64 <= x as i64 && (x as i64) < right as i64 && top as i64 <= y as i64
            && (y as i64) < bottom as i64) {
            return false;
        }
        let dx: Float32 = n32(x as i64).minus(self.cx);
        let dy: Float32 = n32(y as i64).minus(self.cy);
        let lx: Float32 = dx.times(self.cos).plus(dy.times(self.sin));
        let ly: Float32 = dx.negate().times(self.sin).plus(dy.times(self.cos));
        lx.magnitude().at_most(self.hw) && ly.magnitude().at_most(self.hh)
    }
}

fn color_of_bytes(color: &[u8; 4]) -> (c: Color)
    ensures
        c@ == byte_color(color@),
{
    Color { r: n32(color[0] as i64), g: n32(color[1] as i64), b: n32(color[2] as i64) }
}

/// Fills a turned box.
pub fn fill_rect(
    dst: &mut Vec<u8>,
    dw: u32,
    dh: u32,
    b: &TurnedBox,
    color: &[u8; 4],
    opacity: Float32,
)
    requires
        has_room(old(dst).len() as int, dw as int, dh as int),
    ensures
        final(dst)@ == box_filled(old(dst)@, dw as int, dh as int, b@, color@, opacity@),
{
    let ghost first = dst@;
    let ghost w = dw as int;
    let ghost h = dh as int;
    let a: Float32 = n32(color[3] as i64).over(n32(255)).times(opacity.minimum(n32(1)));
    if a.at_most(Float32 { bits: 0x3c23_d70a }) {
        return;
    }
    let c: Color = color_of_bytes(color);
    let ghost paint = box_paint(b@, color@, opacity@);
    let ghost mode = BlendMode::Normal;
    proof {
        assert(0 * w == 0) by (nonlinear_arith);
        assert(painted_upto(first, w, paint, mode, 0) =~= first);
    }
    let mut y: u32 = 0;
    while y < dh
        invariant
            y <= dh,
            w == dw,
            h == dh,
            w * h * 4 <= first.len() <= usize::MAX,
            mode == BlendMode::Normal,
            a@ == box_opacity(color@, opacity@),
            c@ == byte_color(color@),
            dst@ == painted_upto(first, w, paint, mode, y * w),
            paint == box_paint(b@, color@, opacity@),
        decreases dh - y,
    {
        let mut x: u32 = 0;
        assert(y * w + 0 == y * w);
        while x < dw
            invariant
                y < dh,
                x <= dw,
                w == dw,
                h == dh,
                w * h * 4 <= first.len() <= usize::MAX,
                mode == BlendMode::Normal,
                a@ == box_opacity(color@, opacity@),
                c@ == byte_color(color@),
                dst@ == painted_upto(first, w, paint, mode, y * w + x),
                paint == box_paint(b@, color@, opacity@),
            decreases dw - x,
        {
            let ghost n = y * w + x;
            proof {
                lemma_index(w, h, x as int, y as int);
                lemma_place(w, x as int, y as int);
            }
            if b.holds(x, y) {
                let di: usize = (y as usize * dw as usize + x as usize) * 4;
                proof {
                    assert(paint(n % w, n / w) == Some((c@, a@)));
                    lemma_paint_one(first, w, paint, mode, n, c@, a@);
                }
                blend_pixel(dst, di, c, a, BlendMode::Normal);
            } else {
                proof {
                    assert forall|p: int| n <= p < n + 1 implies #[trigger] paint(p % w, p / w).is_none() by {
                        assert(p == n);
                    }
                    lemma_paint_none(first, w, paint, mode, n, n + 1);
                }
            }
            x = x + 1;
        }
        proof {
            assert(y * w + w == (y + 1) * w) by (nonlinear_arith);
        }
        y = y + 1;
    }
    proof {
        lemma_mul_is_commutative(w, h);
    }
}

/// A place turned round a center.
pub open spec fn turned(
    gx: Number,
    gy: Number,
    cx: Number,
    cy: Number,
    cos: Number,
    sin: Number,
) -> (Number, Number) {
    let rest = difference(single(), num(1), cos);
    (
        sum(
            single(),
            sum(
                single(),
                difference(single(), product(single(), gx, cos), product(single(), gy, sin)),
                product(single(), cx, rest),
            ),
            product(single(), cy, sin),
        ),
        difference(
            single(),
            sum(
                single(),
                sum(single(), product(single(), gx, sin), product(single(), gy, cos)),
                product(single(), cy, rest),
            ),
            product(single(), cx, sin),
        ),
    )
}

/// The nearest 32-bit integer.
pub open spec fn rounded_place(x: Number) -> int {
    to_integer(single(), Toward::Nearest, x, i32::MIN as int, i32::MAX as int)
}

/// The opacity of a part of a glyph: how much of the pixel it covers, times the
/// opacities of its color, of the text, of this stroke and of the clip.
pub open spec fn glyph_opacity(
    cover: Number,
    color_alpha: u8,
    text_alpha: u8,
    stroke: Number,
    opacity: Number,
) -> Number {
    product(
        single(),
        product(
            single(),
            product(
                single(),
                product(
                    single(),
                    smaller(cover, num(1)),
                    quotient(single(), num(color_alpha as int), num(255)),
                ),
                quotient(single(), num(text_alpha as int), num(255)),
            ),
            stroke,
        ),
        smaller(opacity, num(1)),
    )
}

/// How a glyph is painted.
#[derive(Clone, Copy, Debug)]
pub struct Stroke {
    /// The center round which the text is turned.
    pub cx: Float32,
    pub cy: Float32,
    pub cos: Float32,
    pub sin: Float32,
    pub color: [u8; 4],
    /// The opacity of this stroke.
    pub strength: Float32,
    /// The alpha of the text color.
    pub text_alpha: u8,
    pub opacity: Float32,
}

/// How a glyph is painted, by values.
pub struct InkView {
    pub cx: Number,
    pub cy: Number,
    pub cos: Number,
    pub sin: Number,
    pub color: Seq<u8>,
    pub strength: Number,
    pub text_alpha: u8,
    pub opacity: Number,
}

impl View for Stroke {
    type V = InkView;

    open spec fn view(&self) -> InkView {
        InkView {
            cx: self.cx@,
            cy: self.cy@,
            cos: self.cos@,
            sin: self.sin@,
            color: self.color@,
            strength: self.strength@,
            text_alpha: self.text_alpha,
            opacity: self.opacity@,
        }
    }
}

/// The frame after a pixel of a glyph, covered in part, was painted.
pub open spec fn glyph_painted(
    dst: Seq<u8>,
    dw: int,
    dh: int,
    s: InkView,
    gx: Number,
    gy: Number,
    cover: Number,
) -> Seq<u8> {
    let (rx, ry) = turned(gx, gy, s.cx, s.cy, s.cos, s.sin);
    let x = rounded_place(rx);
    let y = rounded_place(ry);
    let a = glyph_opacity(cover, s.color[3], s.text_alpha, s.strength, s.opacity);
    if 0 <= x < dw && 0 <= y < dh && !no_more(a, faintest()) {
        let i = (y * dw + x) * 4;
        with_pixel(
            dst,
            i,
            mixed(
                pixel_at(dst, i),
                byte_color(s.color),
                clamp_number(a, num(0), num(1)),
                BlendMode::Normal,
            ),
        )
    } else {
        dst
    }
}

/// Paints a pixel of a glyph that is covered in part.
pub fn emit_glyph(
    dst: &mut Vec<u8>,
    dw: u32,
    dh: u32,
    s: &Stroke,
    gx: Float32,
    gy: Float32,
    cover: Float32,
)
    requires
        has_room(old(dst).len() as int, dw as int, dh as int),
    ensures
        final(dst).len() == old(dst).len(),
        final(dst)@ == glyph_painted(old(dst)@, dw as int, dh as int, s@, gx@, gy@, cover@),
{
    let rest: Float32 = n32(1).minus(s.cos);
    let rx: Float32 = gx.times(s.cos).minus(gy.times(s.sin)).plus(s.cx.times(rest)).plus(
        s.cy.times(s.sin),
    );
    let ry: Float32 = gx.times(s.sin).plus(gy.times(s.cos)).plus(s.cy.times(rest)).minus(
        s.cx.times(s.sin),
    );
    let x: i32 = rx.to_i32(Toward::Nearest);
    let y: i32 = ry.to_i32(Toward::Nearest);
    if x < 0 || y < 0 || x as i64 >= dw as i64 || y as i64 >= dh as i64 {
        return;
    }
    let a: Float32 = cover.minimum(n32(1)).times(n32(s.color[3] as i64).over(n32(255))).times(
        n32(s.text_alpha as i64).over(n32(255)),
    ).times(s.strength).times(s.opacity.minimum(n32(1)));
    if a.at_most(Float32 { bits: 0x3c23_d70a }) {
        return;
    }
    proof {
        lemma_index(dw as int, dh as int, x as int, y as int);
        lemma_mul_is_commutative(dw as int, dh as int);
    }
    let di: usize = (y as usize * dw as usize + x as usize) * 4;
    blend_pixel(
        dst,
        di,
        color_of_bytes(&s.color),
        a.clamped(n32(0), n32(1)),
        BlendMode::Normal,
    );
}

/// Painting never changes the size of a frame.
pub proof fn law_painting_keeps_the_size(
    dst: Seq<u8>,
    dw: int,
    dh: int,
    src: Seq<u8>,
    sw: int,
    sh: int,
    t: TransformView,
    look: LookView,
    crop: Seq<Float32>,
    mode: BlendMode,
    b: BoxView,
    color: Seq<u8>,
    opacity: Number,
)
    ensures
        picture_blended(dst, dw, dh, src, sw, sh, t, look, crop, mode).len() == dst.len(),
        box_filled(dst, dw, dh, b, color, opacity).len() == dst.len(),
        cleared(dst).len() == dst.len(),
{
}

/// A pixel painted without opacity stays as it is, whatever the blend mode.
pub proof fn law_transparent_paint_does_nothing(px: Seq<u8>, c: Rgb, a: Number, mode: BlendMode)
    requires
        no_more(a, num(0)),
    ensures
        mixed(px, c, a, mode) == px,
{
}

/// A number between zero and one, without a minus sign.
pub open spec fn is_share(x: Number) -> bool {
    match x {
        Number::Finite { negative, units } => !negative && units <= pow2(149),
        _ => false,
    }
}

/// The opacity up to which a text is not painted, a hundredth.
pub open spec fn faintest() -> Number {
    (Float32 { bits: 0x3c23_d70a })@
}

proof fn lemma_faintest()
    ensures
        faintest() == (Number::Finite { negative: false, units: 0xa3_d70a * pow2(119) }),
        0xa3_d70a * pow2(119) < pow2(149),
{
    reveal(number_of_bits32);
    lemma2_to64();
    lemma_pow2_adds(30, 119);
    lemma_pow2_pos(119);
}

/// A share of a share is a share.
proof fn lemma_share_of_share(x: Number, y: Number)
    requires
        is_share(x),
        is_share(y),
    ensures
        is_share(product(single(), x, y)),
{
    reveal(product);
    let u = pow2(149);
    lemma2_to64();
    lemma_pow2_pos(149);
    if let (Number::Finite { units: a, .. }, Number::Finite { units: b, .. }) = (x, y) {
        assert(a * b <= (1 * u) * u) by (nonlinear_arith)
            requires
                a <= u,
                b <= u,
        ;
        lemma_rounded_within(24, a * b, u, 1, 149);
        assert(1 * u == u) by (nonlinear_arith);
        lemma_pow2_mono(150, 277);
        lemma_pow2_adds(149, 1);
    }
}

/// A byte out of 255 is a share.
proof fn lemma_byte_share(c: u8)
    ensures
        is_share(quotient(single(), num(c as int), num(255))),
{
    reveal(quotient);
    let u = pow2(149);
    lemma2_to64();
    lemma_pow2_pos(149);
    lemma_small(c as int);
    lemma_small(255);
    let (a, b) = (c as nat * u, 255 * u);
    assert(b > 0 && a * u <= (1 * u) * b && 1 * u == u) by (nonlinear_arith)
        requires
            a == c as nat * u,
            b == 255 * u,
            u > 0,
            c <= 255,
    ;
    lemma_rounded_within(24, a * u, b, 1, 149);
    lemma_pow2_mono(150, 277);
    lemma_pow2_adds(149, 1);
}

/// A share of a faint opacity is faint.
proof fn lemma_share_of_faint(x: Number, opacity: Number)
    requires
        is_share(x),
        opacity is Finite,
        no_more(opacity, faintest()),
    ensures
        no_more(product(single(), x, smaller(opacity, num(1))), faintest()),
{
    reveal(product);
    reveal(less);
    let u = pow2(149);
    let c = 0xa3_d70a * pow2(119);
    lemma2_to64();
    lemma_pow2_pos(149);
    lemma_faintest();
    lemma_small(1);
    assert(1 * u == u) by (nonlinear_arith);
    if let (Number::Finite { units: a, .. }, Number::Finite { negative, units: b }) = (x, opacity) {
        assert(smaller(opacity, num(1)) == opacity);
        if !negative {
            assert(a * b <= (0xa3_d70a * pow2(119)) * u) by (nonlinear_arith)
                requires
                    a <= u,
                    b <= 0xa3_d70a * pow2(119),
            ;
            lemma_rounded_within(24, a * b, u, 0xa3_d70a, 119);
            lemma_pow2_mono(149, 277);
        }
    }
}

/// A text of hardly any opacity leaves the frame as it is: its box is not filled, and no
/// pixel of a glyph is painted, as long as no stroke is stronger than full.
pub proof fn law_faint_texts_change_nothing(
    dst: Seq<u8>,
    dw: int,
    dh: int,
    b: BoxView,
    color: Seq<u8>,
    s: InkView,
    gx: Number,
    gy: Number,
    cover: Number,
)
    requires
        s.opacity is Finite,
        no_more(s.opacity, faintest()),
        is_share(cover),
        is_share(s.strength),
    ensures
        box_filled(dst, dw, dh, b, color, s.opacity) == dst,
        glyph_painted(dst, dw, dh, s, gx, gy, cover) == dst,
{
    lemma_byte_share(color[3]);
    lemma_share_of_faint(quotient(single(), num(color[3] as int), num(255)), s.opacity);
    reveal(less);
    lemma_small(1);
    assert(1 * pow2(149) == pow2(149)) by (nonlinear_arith);
    assert(smaller(cover, num(1)) == cover);
    let (ca, ta) = (
        quotient(single(), num(s.color[3] as int), num(255)),
        quotient(single(), num(s.text_alpha as int), num(255)),
    );
    lemma_byte_share(s.color[3]);
    lemma_byte_share(s.text_alpha);
    lemma_share_of_share(cover, ca);
    lemma_share_of_share(product(single(), cover, ca), ta);
    let x = product(single(), product(single(), cover, ca), ta);
    lemma_share_of_share(x, s.strength);
    lemma_share_of_faint(product(single(), x, s.strength), s.opacity);
}

/// A picture with too few bytes, one of which the crop leaves nothing, and one without
/// opacity leave the frame as it is. Without opacity that holds where the alpha of each
/// place that shows is a number.
pub proof fn law_unseen_pictures_change_nothing(
    dst: Seq<u8>,
    dw: int,
    dh: int,
    src: Seq<u8>,
    sw: int,
    sh: int,
    t: TransformView,
    look: LookView,
    crop: Seq<Float32>,
    mode: BlendMode,
)
    requires
        ({
            let pl = placement_of(sw, sh, dw, dh, t, look.cos, look.sin, crop);
            ||| src.len() < sw * sh * 4
            ||| pl.is_none()
            ||| {
                &&& look.opacity is Finite
                &&& no_more(look.opacity, num(0))
                &&& forall|x: int, y: int|
                    match #[trigger] sampled(pl.unwrap(), look, sw, sh, x, y) {
                        Some((px, py)) => value_between(src, sw, sh, px, py, 3) != Number::Nan,
                        None => true,
                    }
            }
        }),
    ensures
        picture_blended(dst, dw, dh, src, sw, sh, t, look, crop, mode) == dst,
{
    let placed = placement_of(sw, sh, dw, dh, t, look.cos, look.sin, crop);
    if src.len() >= sw * sh * 4 && placed.is_some() {
        let pl = placed.unwrap();
        let paint = picture_paint(src, pl, look, sw, sh);
        let out = painted(dst, dw, dh, paint, mode);
        assert forall|i: int| 0 <= i < dst.len() implies #[trigger] out[i] == dst[i] by {
            let (x, y) = ((i / 4) % dw, (i / 4) / dw);
            match sampled(pl, look, sw, sh, x, y) {
                Some((px, py)) => {
                    lemma_no_opacity(value_between(src, sw, sh, px, py, 3), look.opacity);
                    assert(pixel_at(dst, 4 * (i / 4))[i % 4] == dst[i]);
                },
                None => {},
            }
        }
        assert(out =~= dst);
    }
}

proof fn lemma_no_opacity(v: Number, opacity: Number)
    requires
        exists|x: Number| #![trigger clamp_number(x, num(0), num(255))]
            v == clamp_number(x, num(0), num(255)),
        v != Number::Nan,
        opacity is Finite,
        no_more(opacity, num(0)),
    ensures
        no_more(
            product(single(), quotient(single(), v, num(255)), smaller(opacity, num(1))),
            num(0),
        ),
{
    reveal(product);
    reveal(quotient);
    reveal(less);
    let u = pow2(149);
    lemma2_to64();
    lemma_pow2_pos(149);
    lemma_small(0);
    lemma_small(1);
    lemma_small(255);
    assert(0 * u == 0 && 1 * u == u && 255 * u > 0) by (nonlinear_arith)
        requires
            u > 0,
    ;
    let (n, a) = match v {
        Number::Finite { negative, units } => (negative, units),
        _ => (false, 0),
    };
    assert(v == (Number::Finite { negative: n, units: a }));
    assert(a <= 255 * u && (n ==> a == 0));
    assert(a * u <= (1 * u) * (255 * u)) by (nonlinear_arith)
        requires
            a <= 255 * u,
    ;
    lemma_rounded_within(24, a * u, 255 * u, 1, 149);
    lemma_pow2_mono(150, 277);
    lemma_pow2_adds(149, 1);
    let q = rounded(24, a * u, 255 * u);
    assert(quotient(single(), v, num(255)) == (Number::Finite { negative: n, units: q }));
    assert(n ==> q == 0) by {
        if n {
            assert(0 * u == 0 && 0 * (255 * u) == 0) by (nonlinear_arith);
            lemma_rounded_within(24, 0, 255 * u, 0, 149);
        }
    }
    if let Number::Finite { negative, units: b } = opacity {
        assert(smaller(opacity, num(1)) == opacity);
        if n == negative {
            assert(q * b == 0) by (nonlinear_arith)
                requires
                    q == 0 || b == 0,
            ;
            lemma_rounded_within(24, 0, u, 0, 149);
            lemma_pow2_pos(277);
        }
    }
}

/// An upright, ungraded, opaque picture.
pub open spec fn plain_look() -> LookView {
    LookView {
        opacity: (Float32 { bits: ONE_BITS })@,
        grade: neutral_grade(),
        flip_x: false,
        flip_y: false,
        cos: num(1),
        sin: num(0),
    }
}

/// The crop that leaves the whole picture.
pub open spec fn whole_picture() -> Seq<Float32> {
    seq![
        Float32 { bits: ZERO_BITS },
        Float32 { bits: ZERO_BITS },
        Float32 { bits: ONE_BITS },
        Float32 { bits: ONE_BITS },
    ]
}

/// The placement of a picture that has the size of the frame.
pub open spec fn filling(w: int, h: int) -> PlacementView {
    PlacementView {
        cw: w,
        ch: h,
        fit: num(1),
        cx: halves(w),
        cy: halves(h),
        rx: w / 2 + 3,
        ry: h / 2 + 3,
        cl: num(0),
        ct: num(0),
    }
}

/// The number of pixels of a side whose middles numbers hold exactly.
pub open spec fn exact_side(n: int) -> bool {
    0 < n <= 0x80_0000
}

proof fn lemma_small(i: int)
    requires
        -0x100_0000 < i < 0x100_0000,
    ensures
        holds(single(), i),
        num(i) == integer(single(), i),
{
    lemma2_to64();
    law_integers_are_exact(single(), i);
}

/// A number of halves times one, plus another times zero.
proof fn lemma_upright(i: int, j: int)
    requires
        -0x100_0000 < i < 0x100_0000,
        -0x100_0000 < j < 0x100_0000,
    ensures
        sum(
            single(),
            product(single(), halves(i), num(1)),
            product(single(), halves(j), num(0)),
        ) == halves(i),
        sum(
            single(),
            product(single(), negated(halves(j)), num(0)),
            product(single(), halves(i), num(1)),
        ) == halves(i),
{
    lemma_small(0);
    lemma_small(1);
    lemma_halves_alone(i);
    lemma_halves_alone(j);
    lemma_halves_alone(-j);
    if j == 0 {
        assert(0 * pow2(148) == 0) by (nonlinear_arith);
        assert(negated(halves(0)) == zero_with(true));
        lemma_zero_times_zero(single(), true);
    } else {
        assert(negated(halves(j)) == halves(-j));
    }
}

proof fn lemma_full_reach(a: int, b: int)
    requires
        0 <= a <= 0x80_0000,
        0 <= b <= 0x80_0000,
    ensures
        reach(a, b, num(1), num(0)) == a,
{
    let f = single();
    lemma_small(a);
    lemma_small(b);
    lemma_small(0);
    lemma_small(1);
    lemma_halves(0);
    law_multiplication_by_one_is_exact(f, a);
    lemma_times_zero(f, b);
    lemma_plus_zero(f, a, false);
    assert(absolute(num(1)) == num(1));
    lemma_pow2_pos(149);
    assert(0 * pow2(149) == 0) by (nonlinear_arith);
    assert(absolute(num(0)) == num(0));
    assert(absolute(num(a)) == num(a));
    law_integers_come_back(f, Toward::Zero, a, i32::MIN as int, i32::MAX as int);
}

/// A picture of the frame's size fills it.
proof fn lemma_filling(w: int, h: int)
    requires
        exact_side(w),
        exact_side(h),
    ensures
        placement_of(w, h, w, h, default_transform()@, num(1), num(0), whole_picture()) == Some(
            filling(w, h),
        ),
{
    let f = single();
    lemma_one();
    lemma_small_patterns();
    lemma_small(0);
    lemma_small(1);
    lemma_small(w);
    lemma_small(h);
    lemma_integers_in_order(f, 0, 0);
    lemma_integers_in_order(f, 0, 1);
    lemma_integers_in_order(f, 1, 0);
    lemma_integers_in_order(f, 1, 1);
    let crop = whole_picture();
    assert(crop[0]@ == num(0) && crop[1]@ == num(0) && crop[2]@ == num(1) && crop[3]@ == num(1));
    assert(negated(num(0)) == zero_with(true)) by {
        assert(0 * pow2(149) == 0) by (nonlinear_arith);
    }
    lemma_plus_zero(f, 1, true);
    assert(difference(f, num(1), num(0)) == num(1));
    law_multiplication_by_one_is_exact(f, w);
    law_multiplication_by_one_is_exact(f, h);
    law_multiplication_by_one_is_exact(f, 1);
    law_integers_come_back(f, Toward::Zero, w, i32::MIN as int, i32::MAX as int);
    law_integers_come_back(f, Toward::Zero, h, i32::MIN as int, i32::MAX as int);
    lemma_over_itself(f, w);
    lemma_over_itself(f, h);
    lemma_halves(w);
    lemma_halves(h);
    lemma_full_reach(w / 2 + 1, h / 2 + 1);
    lemma_full_reach(h / 2 + 1, w / 2 + 1);
}

/// The place along a side of a picture that fills the frame.
proof fn lemma_own_place(x: int, n: int)
    requires
        exact_side(n),
        0 <= x < n,
    ensures
        from_place(x, halves(n)) == halves(2 * x + 1 - n),
        along_side(halves(2 * x + 1 - n), n) == halves(2 * x + 1),
        on_side(halves(2 * x + 1), n),
        pixel_place(halves(2 * x + 1), n, false) == num(x),
        n < 0x80_0000 ==> pixel_place(halves(2 * x + 1), n, true) == num(n - 1 - x),
        sum(single(), num(x), product(single(), num(0), num(n))) == num(x),
        truncated(num(x)) == x,
        truncated(halves(n)) == n / 2,
{
    let f = single();
    lemma_small(x);
    lemma_small(n);
    lemma_small(0);
    lemma_halves(x);
    lemma_halves(n);
    lemma_halves(0);
    lemma_sum_of_halves(2 * x, 1);
    lemma_sum_of_halves(2 * x + 1, n);
    lemma_sum_of_halves(2 * x + 1 - n, n);
    lemma_sum_of_halves(2 * x + 1, 1);
    lemma_small(1);
    lemma_small(n - 1 - x);
    lemma_halves(1);
    lemma_halves(n - 1 - x);
    lemma_sum_of_halves(2 * n, 2 * x);
    lemma_sum_of_halves(2 * n - 2 * x, 2);
    lemma_halves_in_order(2 * x + 1, 0);
    lemma_halves_in_order(2 * x + 1, 2 * n);
    lemma_halves_in_order(n, 0);
    law_integer_products_are_exact(f, 0, n);
    law_integer_sums_are_exact(f, x, 0);
    law_integers_come_back(f, Toward::Zero, x, i32::MIN as int, i32::MAX as int);
}

/// A picture painted upright and ungraded.
pub open spec fn upright(look: LookView) -> bool {
    look.grade == neutral_grade() && look.cos == num(1) && look.sin == num(0)
}

/// The place on a side of `n` pixels that a flip takes from the other end.
pub open spec fn mirrored(x: int, n: int, flip: bool) -> int {
    if flip {
        n - 1 - x
    } else {
        x
    }
}

/// In a picture that fills the frame each place shows the same place of the source, from
/// the other end where it is flipped.
proof fn lemma_filling_sample(w: int, h: int, look: LookView, x: int, y: int)
    requires
        exact_side(w),
        exact_side(h),
        upright(look),
        look.flip_x ==> w < 0x80_0000,
        look.flip_y ==> h < 0x80_0000,
        0 <= x < w,
        0 <= y < h,
    ensures
        sampled(filling(w, h), look, w, h, x, y) == Some(
            (num(mirrored(x, w, look.flip_x)), num(mirrored(y, h, look.flip_y))),
        ),
{
    let (i, j) = (2 * x + 1 - w, 2 * y + 1 - h);
    lemma_own_place(x, w);
    lemma_own_place(y, h);
    lemma_own_place(w - 1 - x, w);
    lemma_own_place(h - 1 - y, h);
    lemma_upright(i, j);
    lemma_upright(j, i);
    lemma_small(1);
    lemma_halves_alone(i);
    lemma_halves_alone(j);
}

/// What an opaque pixel of an ungraded picture paints.
proof fn lemma_ungraded_paint(src: Seq<u8>, w: int, h: int, look: LookView, x: int, y: int)
    requires
        exact_side(w),
        exact_side(h),
        look.grade == neutral_grade(),
        0 <= x < w,
        0 <= y < h,
        0 <= y * w + x,
        (y * w + x) * 4 + 4 <= src.len(),
        src[(y * w + x) * 4 + 3] == 255,
    ensures
        ({
            let i = (y * w + x) * 4;
            source_paint(src, w, h, num(x), num(y), look) == (
                Rgb {
                    r: num(src[i] as int),
                    g: num(src[i + 1] as int),
                    b: num(src[i + 2] as int),
                },
                product(single(), num(1), smaller(look.opacity, num(1))),
            )
        }),
{
    let f = single();
    let i = (y * w + x) * 4;
    lemma_value_on_pixel(src, w, h, x, y, 0);
    lemma_value_on_pixel(src, w, h, x, y, 1);
    lemma_value_on_pixel(src, w, h, x, y, 2);
    lemma_value_on_pixel(src, w, h, x, y, 3);
    lemma_one();
    lemma_small_patterns();
    lemma_small(0);
    lemma_small(1);
    lemma_small(255);
    lemma_small(src[i] as int);
    lemma_small(src[i + 1] as int);
    lemma_small(src[i + 2] as int);
    lemma_integers_in_order(f, 0, 0);
    lemma_integers_in_order(f, 1, 1);
    lemma_integers_in_order(f, 255, src[i] as int);
    lemma_integers_in_order(f, 255, src[i + 1] as int);
    lemma_integers_in_order(f, 255, src[i + 2] as int);
    assert(absolute(num(0)) == num(0)) by {
        assert(0 * pow2(149) == 0) by (nonlinear_arith);
    }
    lemma_over_itself(f, 255);
}

/// The place of a pixel in a picture.
proof fn lemma_place_of_pixel(p: int, w: int, h: int)
    requires
        w > 0,
        0 <= p < w * h,
    ensures
        p == (p / w) * w + p % w,
        0 <= p % w < w,
        0 <= p / w < h,
{
    let (x, y) = (p % w, p / w);
    lemma_fundamental_div_mod(p, w);
    lemma_mul_is_commutative(w, y);
    assert(0 <= y < h) by (nonlinear_arith)
        requires
            0 <= p < w * h,
            w > 0,
            p == y * w + x,
            0 <= x < w,
    ;
}

/// The pixel of the source that a pixel of the frame shows.
pub open spec fn mirrored_pixel(p: int, w: int, h: int, look: LookView) -> int {
    mirrored(p / w, h, look.flip_y) * w + mirrored(p % w, w, look.flip_x)
}

/// What a picture of the frame's size makes of a pixel of the frame.
proof fn lemma_filling_pixel(
    dst: Seq<u8>,
    src: Seq<u8>,
    w: int,
    h: int,
    look: LookView,
    mode: BlendMode,
    p: int,
)
    requires
        exact_side(w),
        exact_side(h),
        upright(look),
        look.flip_x ==> w < 0x80_0000,
        look.flip_y ==> h < 0x80_0000,
        src.len() == w * h * 4,
        dst.len() == src.len(),
        forall|q: int| 0 <= q < w * h ==> #[trigger] src[4 * q + 3] == 255,
        0 <= p < w * h,
    ensures
        ({
            let q = mirrored_pixel(p, w, h, look);
            let out = picture_blended(
                dst,
                w,
                h,
                src,
                w,
                h,
                default_transform()@,
                look,
                whole_picture(),
                mode,
            );
            &&& 0 <= q < w * h
            &&& out.len() == dst.len()
            &&& pixel_at(out, 4 * p) == mixed(
                pixel_at(dst, 4 * p),
                Rgb {
                    r: num(src[4 * q] as int),
                    g: num(src[4 * q + 1] as int),
                    b: num(src[4 * q + 2] as int),
                },
                product(single(), num(1), smaller(look.opacity, num(1))),
                mode,
            )
        }),
{
    lemma_filling(w, h);
    let paint = picture_paint(src, filling(w, h), look, w, h);
    let out = painted(dst, w, h, paint, mode);
    let (x, y) = (p % w, p / w);
    lemma_place_of_pixel(p, w, h);
    lemma_filling_sample(w, h, look, x, y);
    let (sx, sy) = (mirrored(x, w, look.flip_x), mirrored(y, h, look.flip_y));
    let q = sy * w + sx;
    assert(0 <= q < w * h) by (nonlinear_arith)
        requires
            q == sy * w + sx,
            0 <= sx < w,
            0 <= sy < h,
    ;
    assert(src[4 * q + 3] == 255);
    lemma_ungraded_paint(src, w, h, look, sx, sy);
    let color = Rgb {
        r: num(src[4 * q] as int),
        g: num(src[4 * q + 1] as int),
        b: num(src[4 * q + 2] as int),
    };
    let a = product(single(), num(1), smaller(look.opacity, num(1)));
    assert(paint(x, y) == Some((color, a)));
    let px = mixed(pixel_at(dst, 4 * p), color, a, mode);
    assert forall|k: int| 0 <= k < 4 implies out[4 * p + k] == px[k] by {
        assert((4 * p + k) / 4 == p && (4 * p + k) % 4 == k);
    }
    assert(out[4 * p + 0] == px[0]);
    assert(pixel_at(out, 4 * p) =~= px);
}

/// A picture of the frame's size with an opacity: each channel of each pixel mixes what the
/// blend mode makes of the picture and the frame with the frame in shares. The result is the
/// opacity that is used, which rounding hardly changes.
pub proof fn lemma_filling_shares(
    dst: Seq<u8>,
    src: Seq<u8>,
    w: int,
    h: int,
    look: LookView,
    mode: BlendMode,
    share: nat,
    p: int,
) -> (z: nat)
    requires
        exact_side(w),
        exact_side(h),
        upright(look),
        look.flip_x ==> w < 0x80_0000,
        look.flip_y ==> h < 0x80_0000,
        src.len() == w * h * 4,
        dst.len() == src.len(),
        forall|q: int| 0 <= q < w * h ==> #[trigger] src[4 * q + 3] == 255,
        look.opacity == (Number::Finite { negative: false, units: share }),
        share <= pow2(149),
        0 <= p < w * h,
    ensures
        z <= pow2(149),
        (z - share) * 0x40_0000 <= pow2(149),
        (share - z) * 0x40_0000 <= pow2(149),
        ({
            let q = mirrored_pixel(p, w, h, look);
            let out = picture_blended(
                dst,
                w,
                h,
                src,
                w,
                h,
                default_transform()@,
                look,
                whole_picture(),
                mode,
            );
            &&& 0 <= q < w * h
            &&& out.len() == dst.len()
            &&& forall|k: int|
                0 <= k < 3 ==> {
                    let (c, s, d) = (
                        #[trigger] out[4 * p + k] as int,
                        src[4 * q + k] as int,
                        dst[4 * p + k] as int,
                    );
                    (c == d && z == 0) || rounds_well(
                        c,
                        mode_of_bytes(mode, s, d) * z + 255 * d * (pow2(149) - z),
                        255 * pow2(149) as int,
                    )
                }
            &&& out[4 * p + 3] == (if z == 0 {
                dst[4 * p + 3]
            } else {
                255
            })
        }),
{
    let u = pow2(149);
    let q = mirrored_pixel(p, w, h, look);
    lemma_filling_pixel(dst, src, w, h, look, mode, p);
    lemma2_to64();
    lemma_pow2_pos(149);
    lemma_small(0);
    lemma_small(1);
    assert(1 * u == u && 0 * u == 0) by (nonlinear_arith);
    assert(smaller(look.opacity, num(1)) == look.opacity) by {
        reveal(less);
    }
    let z = lemma_shared(u, share);
    assert((z - share) * 0x40_0000 <= u && (share - z) * 0x40_0000 <= u) by (nonlinear_arith)
        requires
            (z * u - u * share) * 0x40_0000 <= u * u,
            (u * share - z * u) * 0x40_0000 <= u * u,
            u > 0,
    ;
    let a = Number::Finite { negative: false, units: z };
    assert(no_more(a, num(0)) == (z == 0)) by {
        reveal(less);
    }
    let out = picture_blended(
        dst,
        w,
        h,
        src,
        w,
        h,
        default_transform()@,
        look,
        whole_picture(),
        mode,
    );
    let (was, now) = (pixel_at(dst, 4 * p), pixel_at(out, 4 * p));
    assert(now[0] == out[4 * p] && now[1] == out[4 * p + 1] && now[2] == out[4 * p + 2] && now[3]
        == out[4 * p + 3]);
    if z > 0 {
        lemma_blended_in_shares(mode, src[4 * q], dst[4 * p], z);
        lemma_blended_in_shares(mode, src[4 * q + 1], dst[4 * p + 1], z);
        lemma_blended_in_shares(mode, src[4 * q + 2], dst[4 * p + 2], z);
    }
    assert forall|k: int| 0 <= k < 3 implies ({
        let (c, s, d) = (
            #[trigger] out[4 * p + k] as int,
            src[4 * q + k] as int,
            dst[4 * p + k] as int,
        );
        (c == d && z == 0) || rounds_well(
            c,
            mode_of_bytes(mode, s, d) * z + 255 * d * (u - z),
            255 * u as int,
        )
    }) by {
        assert(k == 0 || k == 1 || k == 2);
    }
    z
}

/// An opaque picture of the frame's size, neither moved, scaled, turned, cropped, flipped
/// nor graded, takes the place of the frame. Numbers hold the middles of all pixels
/// exactly.
pub proof fn law_a_fitting_picture_fills_the_frame(dst: Seq<u8>, src: Seq<u8>, w: int, h: int)
    requires
        exact_side(w),
        exact_side(h),
        src.len() == w * h * 4,
        dst.len() == src.len(),
        forall|p: int| 0 <= p < w * h ==> #[trigger] src[4 * p + 3] == 255,
    ensures
        picture_blended(
            dst,
            w,
            h,
            src,
            w,
            h,
            default_transform()@,
            plain_look(),
            whole_picture(),
            BlendMode::Normal,
        ) == src,
{
    let look = plain_look();
    lemma_one();
    lemma_small(1);
    lemma_integers_in_order(single(), 1, 1);
    law_multiplication_by_one_is_exact(single(), 1);
    let out = picture_blended(
        dst,
        w,
        h,
        src,
        w,
        h,
        default_transform()@,
        look,
        whole_picture(),
        BlendMode::Normal,
    );
    assert forall|i: int| 0 <= i < src.len() implies #[trigger] out[i] == src[i] by {
        let p = i / 4;
        lemma_filling_pixel(dst, src, w, h, look, BlendMode::Normal, p);
        lemma_place_of_pixel(p, w, h);
        assert(mirrored_pixel(p, w, h, look) == p);
        law_opaque_pixels_replace(
            pixel_at(dst, 4 * p),
            src[4 * p],
            src[4 * p + 1],
            src[4 * p + 2],
        );
        assert(src[4 * p + 3] == 255);
        let (now, k) = (pixel_at(out, 4 * p), i % 4);
        assert(now[0] == out[4 * p] && now[1] == out[4 * p + 1] && now[2] == out[4 * p + 2]
            && now[3] == out[4 * p + 3]);
        assert(i == 4 * p + k && 0 <= k < 4);
        assert(k == 0 || k == 1 || k == 2 || k == 3);
    }
    assert(out =~= src);
}

/// A number is so many halves, be it that a zero has a minus sign.
spec fn like(z: Number, i: int) -> bool {
    z == halves(i) || (i == 0 && z == zero_with(true))
}

proof fn lemma_like_negated(z: Number, i: int)
    requires
        like(z, i),
    ensures
        like(negated(z), -i),
{
    let p = pow2(148);
    assert(0 * p == 0) by (nonlinear_arith);
}

/// Halves times one, minus one or zero.
proof fn lemma_like_product(z: Number, i: int, s: int)
    requires
        like(z, i),
        -0x100_0000 < i < 0x100_0000,
        s == 1 || s == -1 || s == 0,
    ensures
        like(product(single(), z, num(s)), s * i),
{
    reveal(product);
    let (one, p) = (pow2(149), pow2(148));
    let m = magnitude(i);
    lemma2_to64();
    lemma_pow2_pos(149);
    lemma_pow2_pos(148);
    lemma_small(s);
    assert(1 * one == one && 0 * one == 0 && (m * p) * 0 == 0 && (0 * p) * one == 0 && 0 * p == 0 && 0
        * i == 0 && 1 * i == i && -1 * i == -i) by (nonlinear_arith);
    lemma_exact(single(), false, m, 148, one);
    lemma_exact(single(), true, m, 148, one);
    lemma_exact(single(), false, 0, 148, one);
    lemma_exact(single(), true, 0, 148, one);
}

proof fn lemma_like_sum(x: Number, i: int, y: Number, j: int)
    requires
        like(x, i),
        like(y, j),
        -0x100_0000 < i < 0x100_0000,
        -0x100_0000 < j < 0x100_0000,
        -0x100_0000 < i + j < 0x100_0000,
    ensures
        like(sum(single(), x, y), i + j),
        i > 0 || j > 0 ==> sum(single(), x, y) == halves(i + j),
{
    reveal(sum);
    let p = pow2(148);
    lemma_pow2_pos(148);
    assert(0 * p == 0) by (nonlinear_arith);
    if x == halves(i) {
        lemma_signed_halves(i, j, y != halves(j));
    } else if y == halves(j) {
        lemma_halves_alone(j);
    }
}

proof fn lemma_like_over_one(z: Number, i: int)
    requires
        like(z, i),
        -0x100_0000 < i < 0x100_0000,
    ensures
        like(quotient(single(), z, num(1)), i),
{
    reveal(quotient);
    let (one, p) = (pow2(149), pow2(148));
    lemma2_to64();
    lemma_pow2_pos(149);
    lemma_small(1);
    assert(1 * one == one && 0 * one == 0 && (0 * p) * one == 0 && 0 * p == 0) by (nonlinear_arith);
    lemma_halves_alone(i);
    lemma_exact(single(), true, 0, 148, one);
}

/// The cosine and sine of a number of quarter turns.
pub open spec fn quarter_turn(q: int) -> (int, int) {
    if q == 0 {
        (1, 0)
    } else if q == 1 {
        (0, 1)
    } else if q == 2 {
        (-1, 0)
    } else {
        (0, -1)
    }
}

/// The transform of a picture of the frame's size that is moved by whole pixels.
pub open spec fn moves_pixels(t: TransformView, w: int, h: int, kx: int, ky: int) -> bool {
    &&& t.scale == num(1)
    &&& product(single(), num(w), t.x) == halves(w + 2 * kx)
    &&& product(single(), num(h), t.y) == halves(h + 2 * ky)
    &&& 0 <= w + 2 * kx < 0x20_0000
    &&& 0 <= h + 2 * ky < 0x20_0000
}

/// The look of a picture that is turned by quarters, and neither flipped nor graded.
pub open spec fn turned_by(look: LookView, q: int) -> bool {
    &&& look.cos == num(quarter_turn(q).0)
    &&& look.sin == num(quarter_turn(q).1)
    &&& look.grade == neutral_grade()
    &&& !look.flip_x
    &&& !look.flip_y
}

proof fn lemma_turned_reach(a: int, b: int, q: int)
    requires
        0 <= a <= 0x40_0000,
        0 <= b <= 0x40_0000,
        0 <= q < 4,
        q == 1 || q == 3 ==> a == b,
    ensures
        reach(a, b, num(quarter_turn(q).0), num(quarter_turn(q).1)) == a,
{
    let f = single();
    let (c, s) = quarter_turn(q);
    lemma_small(0);
    lemma_small(1);
    lemma_small(-1);
    lemma_small(a);
    lemma_small(b);
    lemma_pow2_pos(149);
    assert(0 * pow2(149) == 0) by (nonlinear_arith);
    assert(absolute(num(-1)) == num(1) && absolute(num(1)) == num(1) && absolute(num(0)) == num(0));
    law_multiplication_by_one_is_exact(f, a);
    law_multiplication_by_one_is_exact(f, b);
    lemma_times_zero(f, a);
    lemma_times_zero(f, b);
    lemma_plus_zero(f, a, false);
    lemma_plus_zero(f, b, false);
    assert(absolute(num(a)) == num(a));
    law_integers_come_back(f, Toward::Zero, a, i32::MIN as int, i32::MAX as int);
}

proof fn lemma_moved_placement(w: int, h: int, t: TransformView, q: int, kx: int, ky: int)
    requires
        0 < w <= 0x20_0000,
        0 < h <= 0x20_0000,
        moves_pixels(t, w, h, kx, ky),
        0 <= q < 4,
        q == 1 || q == 3 ==> w == h,
    ensures
        placement_of(
            w,
            h,
            w,
            h,
            t,
            num(quarter_turn(q).0),
            num(quarter_turn(q).1),
            whole_picture(),
        ) == Some(
            PlacementView { cx: halves(w + 2 * kx), cy: halves(h + 2 * ky), ..filling(w, h) },
        ),
{
    let f = single();
    lemma_one();
    lemma_small_patterns();
    lemma_small(0);
    lemma_small(1);
    lemma_small(w);
    lemma_small(h);
    lemma_integers_in_order(f, 0, 0);
    lemma_integers_in_order(f, 0, 1);
    lemma_integers_in_order(f, 1, 0);
    lemma_integers_in_order(f, 1, 1);
    let crop = whole_picture();
    assert(crop[0]@ == num(0) && crop[1]@ == num(0) && crop[2]@ == num(1) && crop[3]@ == num(1));
    assert(negated(num(0)) == zero_with(true)) by {
        assert(0 * pow2(149) == 0) by (nonlinear_arith);
    }
    lemma_plus_zero(f, 1, true);
    assert(difference(f, num(1), num(0)) == num(1));
    law_multiplication_by_one_is_exact(f, w);
    law_multiplication_by_one_is_exact(f, h);
    law_multiplication_by_one_is_exact(f, 1);
    law_integers_come_back(f, Toward::Zero, w, i32::MIN as int, i32::MAX as int);
    law_integers_come_back(f, Toward::Zero, h, i32::MIN as int, i32::MAX as int);
    lemma_over_itself(f, w);
    lemma_over_itself(f, h);
    lemma_turned_reach(w / 2 + 1, h / 2 + 1, q);
    lemma_turned_reach(h / 2 + 1, w / 2 + 1, q);
}

/// Where the place at so many halves from the middle lies along a side.
proof fn lemma_along_side(z: Number, i: int, n: int)
    requires
        like(z, i),
        0 < n <= 0x20_0000,
        -0x80_0000 < i < 0x80_0000,
        i % 2 == (n + 1) % 2,
    ensures
        along_side(z, n) == halves(i + n),
        on_side(halves(i + n), n) == (0 <= i + n < 2 * n),
        0 <= i + n < 2 * n ==> pixel_place(halves(i + n), n, false) == num((i + n) / 2),
        0 <= i + n < 2 * n ==> 0 <= (i + n) / 2 < n,
        0 <= i + n < 2 * n ==> truncated(num((i + n) / 2)) == (i + n) / 2,
        0 <= i + n < 2 * n ==> sum(
            single(),
            num((i + n) / 2),
            product(single(), num(0), num(n)),
        ) == num((i + n) / 2),
{
    let f = single();
    lemma_small(n);
    lemma_small(0);
    lemma_halves(n);
    lemma_halves(0);
    lemma_like_sum(z, i, halves(n), n);
    lemma_halves_in_order(i + n, 0);
    lemma_halves_in_order(i + n, 2 * n);
    lemma_sum_of_halves(i + n, 1);
    if 0 <= i + n < 2 * n {
        let x = (i + n) / 2;
        lemma_small(x);
        lemma_halves(x);
        lemma_halves(1);
        assert(2 * x == i + n - 1);
        assert(0 * n == 0) by (nonlinear_arith);
        law_integer_products_are_exact(f, 0, n);
        law_integer_sums_are_exact(f, x, 0);
        law_integers_come_back(f, Toward::Zero, x, i32::MIN as int, i32::MAX as int);
    }
}

/// What is so many halves to the right and below, seen from a picture that is turned.
spec fn seen_turned(q: int, i: int, j: int) -> (int, int) {
    if q == 0 {
        (i, j)
    } else if q == 1 {
        (j, -i)
    } else if q == 2 {
        (-i, -j)
    } else {
        (-j, i)
    }
}

proof fn lemma_seen_turned(q: int, i: int, j: int)
    requires
        0 <= q < 4,
        -0x40_0000 < i < 0x40_0000,
        -0x40_0000 < j < 0x40_0000,
    ensures
        ({
            let f = single();
            let (cos, sin) = (num(quarter_turn(q).0), num(quarter_turn(q).1));
            let (dx, dy) = (halves(i), halves(j));
            let u = quotient(f, sum(f, product(f, dx, cos), product(f, dy, sin)), num(1));
            let v = quotient(f, sum(f, product(f, negated(dx), sin), product(f, dy, cos)), num(1));
            like(u, seen_turned(q, i, j).0) && like(v, seen_turned(q, i, j).1)
        }),
{
    let f = single();
    let (c, s) = quarter_turn(q);
    let (cos, sin) = (num(c), num(s));
    let (dx, dy) = (halves(i), halves(j));
    let (p1, p2) = (product(f, dx, cos), product(f, dy, sin));
    let (p3, p4) = (product(f, negated(dx), sin), product(f, dy, cos));
    let (m, n) = seen_turned(q, i, j);
    lemma_like_negated(dx, i);
    lemma_like_product(dx, i, c);
    lemma_like_product(dy, j, s);
    lemma_like_product(negated(dx), -i, s);
    lemma_like_product(dy, j, c);
    let (a1, a2, a3, a4) = (c * i, s * j, s * -i, c * j);
    assert(a1 + a2 == m && a3 + a4 == n && -0x40_0000 < a1 < 0x40_0000 && -0x40_0000 < a2 < 0x40_0000
        && -0x40_0000 < a3 < 0x40_0000 && -0x40_0000 < a4 < 0x40_0000) by {
        assert(1 * i == i && 0 * i == 0 && -1 * i == -i && 1 * j == j && 0 * j == 0 && -1 * j == -j)
            by (nonlinear_arith);
        assert(1 * -i == -i && 0 * -i == 0 && -1 * -i == i) by (nonlinear_arith);
    }
    lemma_like_sum(p1, a1, p2, a2);
    lemma_like_sum(p3, a3, p4, a4);
    lemma_like_over_one(sum(f, p1, p2), m);
    lemma_like_over_one(sum(f, p3, p4), n);
}

/// The pixel of the picture that shows at a place of a picture that is turned.
pub open spec fn turned_pixel(q: int, w: int, h: int, a: int, b: int) -> (int, int) {
    if q == 0 {
        (a, b)
    } else if q == 1 {
        (b, w - 1 - a)
    } else if q == 2 {
        (w - 1 - a, h - 1 - b)
    } else {
        (h - 1 - b, a)
    }
}

/// The place of the source at a pixel of a picture that is moved and turned.
#[verifier::rlimit(60)]
proof fn lemma_turned_sample(w: int, h: int, look: LookView, q: int, kx: int, ky: int, x: int, y: int)
    requires
        0 < w <= 0x20_0000,
        0 < h <= 0x20_0000,
        0 <= w + 2 * kx < 0x20_0000,
        0 <= h + 2 * ky < 0x20_0000,
        0 <= q < 4,
        q == 1 || q == 3 ==> w == h,
        turned_by(look, q),
        0 <= x < w,
        0 <= y < h,
    ensures
        ({
            let pl = PlacementView {
                cx: halves(w + 2 * kx),
                cy: halves(h + 2 * ky),
                ..filling(w, h)
            };
            let (a, b) = (x - kx, y - ky);
            let (sx, sy) = turned_pixel(q, w, h, a, b);
            sampled(pl, look, w, h, x, y) == if 0 <= a < w && 0 <= b < h {
                Some((num(sx), num(sy)))
            } else {
                None
            }
        }),
{
    let (i, j) = (2 * x + 1 - w - 2 * kx, 2 * y + 1 - h - 2 * ky);
    let pl = PlacementView { cx: halves(w + 2 * kx), cy: halves(h + 2 * ky), ..filling(w, h) };
    lemma_small(x);
    lemma_small(y);
    lemma_halves(x);
    lemma_halves(y);
    lemma_sum_of_halves(2 * x, 1);
    lemma_sum_of_halves(2 * y, 1);
    lemma_sum_of_halves(2 * x + 1, w + 2 * kx);
    lemma_sum_of_halves(2 * y + 1, h + 2 * ky);
    lemma_halves_in_order(w + 2 * kx, 0);
    lemma_halves_in_order(h + 2 * ky, 0);
    assert(from_place(x, pl.cx) == halves(i) && from_place(y, pl.cy) == halves(j));
    lemma_seen_turned(q, i, j);
    let f = single();
    let (dx, dy) = (halves(i), halves(j));
    let u = quotient(f, sum(f, product(f, dx, look.cos), product(f, dy, look.sin)), num(1));
    let v = quotient(
        f,
        sum(f, product(f, negated(dx), look.sin), product(f, dy, look.cos)),
        num(1),
    );
    let (m, n) = seen_turned(q, i, j);
    lemma_along_side(u, m, w);
    lemma_along_side(v, n, h);
    let (a, b) = (x - kx, y - ky);
    let (sx, sy) = turned_pixel(q, w, h, a, b);
    assert((0 <= m + w < 2 * w && 0 <= n + h < 2 * h) == (0 <= a < w && 0 <= b < h));
    if 0 <= a < w && 0 <= b < h {
        assert((m + w) / 2 == sx && (n + h) / 2 == sy);
    }
}

/// What painting makes of a pixel.
proof fn lemma_pixel_painted(dst: Seq<u8>, w: int, h: int, paint: Paint, mode: BlendMode, x: int, y: int)
    requires
        0 <= x < w,
        0 <= y < h,
        dst.len() == w * h * 4,
    ensures
        0 <= y * w + x < w * h,
        pixel_at(painted(dst, w, h, paint, mode), 4 * (y * w + x)) == match paint(x, y) {
            Some((c, a)) => mixed(pixel_at(dst, 4 * (y * w + x)), c, a, mode),
            None => pixel_at(dst, 4 * (y * w + x)),
        },
{
    let p = y * w + x;
    assert(0 <= p < w * h) by (nonlinear_arith)
        requires
            p == y * w + x,
            0 <= x < w,
            0 <= y < h,
    ;
    lemma_fundamental_div_mod_converse(p, w, y, x);
    let out = painted(dst, w, h, paint, mode);
    let was = pixel_at(dst, 4 * p);
    let px = match paint(x, y) {
        Some((c, a)) => mixed(was, c, a, mode),
        None => was,
    };
    assert forall|n: int| 0 <= n < 4 implies out[4 * p + n] == px[n] by {
        assert((4 * p + n) / 4 == p && (4 * p + n) % 4 == n);
    }
    assert(out[4 * p + 0] == px[0]);
    assert(px.len() == 4);
    assert(pixel_at(out, 4 * p) =~= px);
}

/// A picture that is moved by whole pixels and turned by quarters is found there: each pixel
/// of the frame that it covers shows its own pixel of the picture, clockwise from where it
/// would be otherwise, and the others stay as they were. The picture has the size of the
/// frame and is opaque, and a square where it is turned on its side.
#[verifier::rlimit(60)]
pub proof fn law_pictures_move_and_turn(
    dst: Seq<u8>,
    src: Seq<u8>,
    w: int,
    h: int,
    t: TransformView,
    look: LookView,
    q: int,
    kx: int,
    ky: int,
    x: int,
    y: int,
)
    requires
        0 < w <= 0x20_0000,
        0 < h <= 0x20_0000,
        moves_pixels(t, w, h, kx, ky),
        0 <= q < 4,
        q == 1 || q == 3 ==> w == h,
        turned_by(look, q),
        look.opacity == num(1),
        src.len() == w * h * 4,
        dst.len() == src.len(),
        forall|k: int| 0 <= k < w * h ==> #[trigger] src[4 * k + 3] == 255,
        0 <= x < w,
        0 <= y < h,
    ensures
        ({
            let out = picture_blended(
                dst,
                w,
                h,
                src,
                w,
                h,
                t,
                look,
                whole_picture(),
                BlendMode::Normal,
            );
            let (a, b) = (x - kx, y - ky);
            let (sx, sy) = turned_pixel(q, w, h, a, b);
            let (to, from) = (4 * (y * w + x), 4 * (sy * w + sx));
            if 0 <= a < w && 0 <= b < h {
                pixel_at(out, to) == pixel_at(src, from)
            } else {
                pixel_at(out, to) == pixel_at(dst, to)
            }
        }),
{
    let f = single();
    lemma_moved_placement(w, h, t, q, kx, ky);
    let pl = PlacementView { cx: halves(w + 2 * kx), cy: halves(h + 2 * ky), ..filling(w, h) };
    let paint = picture_paint(src, pl, look, w, h);
    lemma_turned_sample(w, h, look, q, kx, ky, x, y);
    lemma_pixel_painted(dst, w, h, paint, BlendMode::Normal, x, y);
    let was = pixel_at(dst, 4 * (y * w + x));
    let (a, b) = (x - kx, y - ky);
    if 0 <= a < w && 0 <= b < h {
        let (sx, sy) = turned_pixel(q, w, h, a, b);
        let k = sy * w + sx;
        assert(0 <= k < w * h) by (nonlinear_arith)
            requires
                k == sy * w + sx,
                0 <= sx < w,
                0 <= sy < h,
        ;
        assert(src[4 * k + 3] == 255);
        lemma_small(1);
        lemma_integers_in_order(f, 1, 1);
        law_multiplication_by_one_is_exact(f, 1);
        lemma_ungraded_paint(src, w, h, look, sx, sy);
        law_opaque_pixels_replace(was, src[4 * k], src[4 * k + 1], src[4 * k + 2]);
        assert(pixel_at(src, 4 * k) =~= seq![src[4 * k], src[4 * k + 1], src[4 * k + 2], 255u8]);
    }
}

proof fn lemma_like_difference(x: Number, i: int, y: Number, j: int)
    requires
        like(x, i),
        like(y, j),
        -0x80_0000 < i < 0x80_0000,
        -0x80_0000 < j < 0x80_0000,
    ensures
        like(difference(single(), x, y), i - j),
{
    lemma_like_negated(y, j);
    lemma_like_sum(x, i, negated(y), -j);
}

/// A whole number in halves, and what becomes of it as an integer.
proof fn lemma_like_whole(z: Number, i: int)
    requires
        like(z, 2 * i),
        -0x40_0000 < i < 0x40_0000,
    ensures
        truncated(z) == i,
        rounded_place(z) == i,
        num(i) == halves(2 * i),
        like(num(i), 2 * i),
{
    lemma_small(i);
    lemma_halves(i);
    law_integers_come_back(single(), Toward::Zero, i, i32::MIN as int, i32::MAX as int);
    law_integers_come_back(single(), Toward::Nearest, i, i32::MIN as int, i32::MAX as int);
    if i == 0 {
        reveal(to_integer);
        lemma_pow2_pos(149);
        let one = pow2(149) as int;
        assert(0 * one == 0) by (nonlinear_arith);
        lemma_fundamental_div_mod_converse(0, one, 0, 0);
    }
}

/// The absolute value of halves.
proof fn lemma_like_within(z: Number, i: int, n: int)
    requires
        like(z, i),
        0 <= n,
    ensures
        no_more(absolute(z), halves(n)) == (-n <= i <= n),
{
    let m = if i < 0 {
        -i
    } else {
        i
    };
    let p = pow2(148);
    assert(0 * p == 0) by (nonlinear_arith);
    assert(absolute(z) == halves(m));
    lemma_halves_in_order(n, m);
}

/// The pixels inside an upright box of whole pixels.
proof fn lemma_in_box(x0: int, y0: int, w: int, h: int, x: int, y: int)
    requires
        -0x10_0000 < x0 < 0x10_0000,
        -0x10_0000 < y0 < 0x10_0000,
        0 <= w < 0x10_0000,
        0 <= h < 0x10_0000,
        0 <= x < 0x10_0000,
        0 <= y < 0x10_0000,
    ensures
        in_box(box_of(num(x0), num(y0), num(w), num(h), num(1), num(0)), x, y) == (x0 <= x < x0 + w
            && y0 <= y < y0 + h),
{
    let f = single();
    let b = box_of(num(x0), num(y0), num(w), num(h), num(1), num(0));
    lemma_small(0);
    lemma_small(1);
    lemma_small(2);
    lemma_box_side(x0, w, h, x);
    lemma_box_side(y0, h, w, y);
    let (dx, dy) = (difference(f, num(x), b.cx), difference(f, num(y), b.cy));
    let (i, j) = (2 * x - 2 * x0 - w, 2 * y - 2 * y0 - h);
    let (a1, a2) = (product(f, dx, num(1)), product(f, dy, num(0)));
    let (a3, a4) = (product(f, negated(dx), num(0)), product(f, dy, num(1)));
    lemma_like_negated(dx, i);
    lemma_like_product(dx, i, 1);
    lemma_like_product(dy, j, 0);
    lemma_like_product(negated(dx), -i, 0);
    lemma_like_product(dy, j, 1);
    assert(1 * i == i && 1 * j == j && 0 * j == 0 && 0 * -i == 0) by (nonlinear_arith);
    lemma_like_sum(a1, i, a2, 0);
    lemma_like_sum(a3, 0, a4, j);
    lemma_like_within(sum(f, a1, a2), i, w);
    lemma_like_within(sum(f, a3, a4), j, h);
}

proof fn lemma_box_side(x0: int, w: int, h: int, x: int)
    requires
        -0x10_0000 < x0 < 0x10_0000,
        0 <= w < 0x10_0000,
        0 <= h < 0x10_0000,
        0 <= x < 0x10_0000,
    ensures
        ({
            let f = single();
            let (hw, hh) = (quotient(f, num(w), num(2)), quotient(f, num(h), num(2)));
            let cx = sum(f, num(x0), hw);
            let rx = box_reach(hw, hh, num(1), num(0));
            &&& hw == halves(w)
            &&& truncated(difference(f, cx, rx)) == x0
            &&& truncated(sum(f, cx, rx)) == x0 + w
            &&& like(difference(f, num(x), cx), 2 * x - 2 * x0 - w)
        }),
{
    let f = single();
    let (hw, hh) = (quotient(f, num(w), num(2)), quotient(f, num(h), num(2)));
    lemma_half_side(w);
    lemma_half_side(h);
    lemma_small(0);
    lemma_small(1);
    lemma_small(x0);
    lemma_small(x);
    lemma_halves(x0);
    lemma_halves(x);
    assert(absolute(num(1)) == num(1));
    assert(absolute(num(0)) == num(0)) by {
        assert(0 * pow2(149) == 0) by (nonlinear_arith);
    }
    let cx = sum(f, num(x0), hw);
    lemma_like_sum(num(x0), 2 * x0, hw, w);
    let (a, b) = (product(f, hw, num(1)), product(f, hh, num(0)));
    lemma_like_product(hw, w, 1);
    lemma_like_product(hh, h, 0);
    assert(1 * w == w && 0 * h == 0) by (nonlinear_arith);
    lemma_like_sum(a, w, b, 0);
    let rx = sum(f, a, b);
    lemma_like_difference(cx, 2 * x0 + w, rx, w);
    lemma_like_sum(cx, 2 * x0 + w, rx, w);
    lemma_like_whole(difference(f, cx, rx), x0);
    lemma_like_whole(sum(f, cx, rx), x0 + w);
    lemma_like_difference(num(x), 2 * x, cx, 2 * x0 + w);
}

proof fn lemma_half_side(w: int)
    requires
        0 <= w < 0x80_0000,
    ensures
        quotient(single(), num(w), num(2)) == halves(w),
{
    reveal(quotient);
    lemma_small(w);
    lemma_small(2);
    lemma2_to64();
    lemma_pow2_adds(148, 1);
    lemma_pow2_pos(148);
    let (one, p) = (pow2(149), pow2(148));
    assert((w as nat * one) * one == (w as nat * p) * (2 * one) && 2 * one > 0) by (nonlinear_arith)
        requires
            one == p * 2,
            p > 0,
            w >= 0,
    ;
    lemma_exact(single(), false, w as nat, 148, 2 * one);
}

/// An upright box of whole pixels and an opaque color fills its area, from its upper left
/// corner on, and nothing else.
pub proof fn law_boxes_fill_their_area(
    dst: Seq<u8>,
    dw: int,
    dh: int,
    x0: int,
    y0: int,
    w: int,
    h: int,
    color: Seq<u8>,
    x: int,
    y: int,
)
    requires
        dst.len() == dw * dh * 4,
        dw < 0x10_0000,
        dh < 0x10_0000,
        -0x10_0000 < x0 < 0x10_0000,
        -0x10_0000 < y0 < 0x10_0000,
        0 <= w < 0x10_0000,
        0 <= h < 0x10_0000,
        color.len() == 4,
        color[3] == 255,
        0 <= x < dw,
        0 <= y < dh,
    ensures
        ({
            let b = box_of(num(x0), num(y0), num(w), num(h), num(1), num(0));
            let out = box_filled(dst, dw, dh, b, color, num(1));
            let p = 4 * (y * dw + x);
            if x0 <= x < x0 + w && y0 <= y < y0 + h {
                pixel_at(out, p) == color
            } else {
                pixel_at(out, p) == pixel_at(dst, p)
            }
        }),
{
    let f = single();
    let b = box_of(num(x0), num(y0), num(w), num(h), num(1), num(0));
    lemma_small(1);
    lemma_small(255);
    lemma_integers_in_order(f, 1, 1);
    lemma_over_itself(f, 255);
    law_multiplication_by_one_is_exact(f, 1);
    assert(box_opacity(color, num(1)) == num(1));
    assert(!no_more(num(1), faintest())) by {
        reveal(less);
        lemma_faintest();
        assert(1 * pow2(149) == pow2(149)) by (nonlinear_arith);
    }
    lemma_in_box(x0, y0, w, h, x, y);
    let paint = box_paint(b, color, num(1));
    lemma_pixel_painted(dst, dw, dh, paint, BlendMode::Normal, x, y);
    law_opaque_pixels_replace(pixel_at(dst, 4 * (y * dw + x)), color[0], color[1], color[2]);
    assert(color =~= seq![color[0], color[1], color[2], 255u8]);
}

/// Where a place comes to lie that is turned by quarters round a center.
pub open spec fn turned_place(q: int, gx: int, gy: int, cx: int, cy: int) -> (int, int) {
    let (dx, dy) = (gx - cx, gy - cy);
    if q == 0 {
        (cx + dx, cy + dy)
    } else if q == 1 {
        (cx - dy, cy + dx)
    } else if q == 2 {
        (cx - dx, cy - dy)
    } else {
        (cx + dy, cy - dx)
    }
}

proof fn lemma_like_times(cx: int, c: int)
    requires
        0 <= cx < 0x10_0000,
        c == 1 || c == 0 || c == -1,
    ensures
        like(product(single(), num(cx), difference(single(), num(1), num(c))), 2 * cx * (1 - c)),
{
    let f = single();
    lemma_small(0);
    lemma_small(1);
    lemma_small(-1);
    lemma_small(2);
    lemma_small(cx);
    lemma_small(2 * cx);
    lemma_halves(0);
    lemma_halves(1);
    lemma_halves(-1);
    lemma_halves(2);
    lemma_halves(cx);
    lemma_halves(2 * cx);
    let p = pow2(148);
    assert(0 * p == 0) by (nonlinear_arith);
    lemma_like_difference(num(1), 2, num(c), 2 * c);
    let d = difference(f, num(1), num(c));
    reveal(sum);
    assert(d == num(1 - c));
    law_integer_products_are_exact(f, cx, 1 - c);
    assert(cx * 0 == 0 && cx * 1 == cx && cx * 2 == 2 * cx && 2 * cx * 0 == 0 && 2 * cx * 1 == 2 * cx
        && 2 * cx * 2 == 4 * cx) by (nonlinear_arith);
}

/// The place of a pixel of a glyph in a text that is turned by quarters.
#[verifier::rlimit(40)]
proof fn lemma_turned_place(q: int, gx: int, gy: int, cx: int, cy: int)
    requires
        0 <= q < 4,
        0 <= gx < 0x8_0000,
        0 <= gy < 0x8_0000,
        0 <= cx < 0x8_0000,
        0 <= cy < 0x8_0000,
    ensures
        ({
            let (c, s) = quarter_turn(q);
            let (x, y) = turned(num(gx), num(gy), num(cx), num(cy), num(c), num(s));
            rounded_place(x) == turned_place(q, gx, gy, cx, cy).0 && rounded_place(y)
                == turned_place(q, gx, gy, cx, cy).1
        }),
{
    let f = single();
    let (c, s) = quarter_turn(q);
    let (x, y) = turned_place(q, gx, gy, cx, cy);
    lemma_small(gx);
    lemma_small(gy);
    lemma_small(cx);
    lemma_small(cy);
    lemma_halves(gx);
    lemma_halves(gy);
    lemma_halves(cx);
    lemma_halves(cy);
    lemma_like_product(num(gx), 2 * gx, c);
    lemma_like_product(num(gy), 2 * gy, s);
    lemma_like_product(num(gx), 2 * gx, s);
    lemma_like_product(num(gy), 2 * gy, c);
    lemma_like_product(num(cx), 2 * cx, s);
    lemma_like_product(num(cy), 2 * cy, s);
    lemma_like_times(cx, c);
    lemma_like_times(cy, c);
    let (a, b) = (product(f, num(gx), num(c)), product(f, num(gy), num(s)));
    let (d, e) = (product(f, num(gx), num(s)), product(f, num(gy), num(c)));
    let rest = difference(f, num(1), num(c));
    let (g, h) = (product(f, num(cx), rest), product(f, num(cy), rest));
    let (k, l) = (product(f, num(cy), num(s)), product(f, num(cx), num(s)));
    let (ia, ib, id, ie) = (c * (2 * gx), s * (2 * gy), s * (2 * gx), c * (2 * gy));
    let (ig, ih, ik, il) = (
        2 * cx * (1 - c),
        2 * cy * (1 - c),
        s * (2 * cy),
        s * (2 * cx),
    );
    assert(ia - ib + ig + ik == 2 * x && id + ie + ih - il == 2 * y && -0x10_0000 < ia < 0x10_0001
        && -0x10_0000 < ib < 0x10_0001 && -0x10_0000 < id < 0x10_0001 && -0x10_0000 < ie < 0x10_0001
        && 0 <= ig < 0x20_0001 && 0 <= ih < 0x20_0001 && -0x10_0000 < ik < 0x10_0001 && -0x10_0000
        < il < 0x10_0001) by {
        assert(2 * cx * 0 == 0 && 2 * cx * 1 == 2 * cx && 2 * cx * 2 == 4 * cx && 2 * cy * 0 == 0 && 2
            * cy * 1 == 2 * cy && 2 * cy * 2 == 4 * cy) by (nonlinear_arith);
        assert(1 * (2 * gx) == 2 * gx && 0 * (2 * gx) == 0 && -1 * (2 * gx) == -2 * gx)
            by (nonlinear_arith);
        assert(1 * (2 * gy) == 2 * gy && 0 * (2 * gy) == 0 && -1 * (2 * gy) == -2 * gy)
            by (nonlinear_arith);
        assert(1 * (2 * cx) == 2 * cx && 0 * (2 * cx) == 0 && -1 * (2 * cx) == -2 * cx)
            by (nonlinear_arith);
        assert(1 * (2 * cy) == 2 * cy && 0 * (2 * cy) == 0 && -1 * (2 * cy) == -2 * cy)
            by (nonlinear_arith);
    }
    lemma_like_difference(a, ia, b, ib);
    lemma_like_sum(difference(f, a, b), ia - ib, g, ig);
    let first = sum(f, difference(f, a, b), g);
    lemma_like_sum(first, ia - ib + ig, k, ik);
    lemma_like_sum(d, id, e, ie);
    lemma_like_sum(sum(f, d, e), id + ie, h, ih);
    let second = sum(f, sum(f, d, e), h);
    lemma_like_difference(second, id + ie + ih, l, il);
    lemma_like_whole(sum(f, first, k), x);
    lemma_like_whole(difference(f, second, l), y);
}

/// A pixel of a glyph that is covered in full is painted at its place, turned with its text
/// round the center: each channel mixes the color of the stroke and the frame in shares that
/// follow the opacity of the text, rounded, and no other pixel changes. What lies outside of
/// the frame is not painted. `share` counts the smallest numbers in the opacity, at least a
/// sixty-fourth part.
pub proof fn law_glyphs_are_painted_in_their_place(
    dst: Seq<u8>,
    dw: int,
    dh: int,
    s: InkView,
    q: int,
    gx: int,
    gy: int,
    cx: int,
    cy: int,
    share: nat,
)
    requires
        dst.len() == dw * dh * 4,
        0 <= q < 4,
        0 <= gx < 0x8_0000,
        0 <= gy < 0x8_0000,
        0 <= cx < 0x8_0000,
        0 <= cy < 0x8_0000,
        s.cx == num(cx),
        s.cy == num(cy),
        s.cos == num(quarter_turn(q).0),
        s.sin == num(quarter_turn(q).1),
        s.color.len() == 4,
        s.color[3] == 255,
        s.text_alpha == 255,
        s.strength == num(1),
        s.opacity == (Number::Finite { negative: false, units: share }),
        pow2(149) <= 64 * share,
        share <= pow2(149),
    ensures
        ({
            let out = glyph_painted(dst, dw, dh, s, num(gx), num(gy), num(1));
            let (x, y) = turned_place(q, gx, gy, cx, cy);
            let p = 4 * (y * dw + x);
            let u = pow2(149);
            if 0 <= x < dw && 0 <= y < dh {
                &&& out.len() == dst.len()
                &&& forall|i: int|
                    0 <= i < dst.len() && !(p <= i < p + 4) ==> #[trigger] out[i] == dst[i]
                &&& forall|k: int|
                    0 <= k < 3 ==> rounds(
                        #[trigger] out[p + k] as int,
                        255 * s.color[k] * share + 255 * dst[p + k] * (u - share),
                        255 * u as int,
                    )
            } else {
                out == dst
            }
        }),
{
    let f = single();
    let u = pow2(149);
    lemma2_to64();
    lemma_pow2_pos(149);
    lemma_turned_place(q, gx, gy, cx, cy);
    let (x, y) = turned_place(q, gx, gy, cx, cy);
    lemma_small(0);
    lemma_small(1);
    lemma_small(255);
    lemma_integers_in_order(f, 1, 1);
    lemma_over_itself(f, 255);
    law_multiplication_by_one_is_exact(f, 1);
    assert(1 * u == u && 0 * u == 0) by (nonlinear_arith);
    assert(smaller(s.opacity, num(1)) == s.opacity) by {
        reveal(less);
    }
    let z = lemma_shared(u, share);
    assert((z - share) * 0x40_0000 <= u && (share - z) * 0x40_0000 <= u) by (nonlinear_arith)
        requires
            (z * u - u * share) * 0x40_0000 <= u * u,
            (u * share - z * u) * 0x40_0000 <= u * u,
            u > 0,
    ;
    let a = Number::Finite { negative: false, units: z };
    assert(glyph_opacity(num(1), s.color[3], s.text_alpha, s.strength, s.opacity) == a);
    lemma_faintest();
    lemma_pow2_adds(30, 119);
    lemma_pow2_pos(119);
    assert(!no_more(a, faintest()) && clamp_number(a, num(0), num(1)) == a && !no_more(a, num(0))) by {
        reveal(less);
    }
    if 0 <= x < dw && 0 <= y < dh {
        let p = 4 * (y * dw + x);
        assert(0 <= y * dw + x < dw * dh) by (nonlinear_arith)
            requires
                0 <= x < dw,
                0 <= y < dh,
        ;
        let out = glyph_painted(dst, dw, dh, s, num(gx), num(gy), num(1));
        lemma_blended_in_shares(BlendMode::Normal, s.color[0], dst[p], z);
        lemma_blended_in_shares(BlendMode::Normal, s.color[1], dst[p + 1], z);
        lemma_blended_in_shares(BlendMode::Normal, s.color[2], dst[p + 2], z);
        assert(z * 1 == z && u * 1 == u) by (nonlinear_arith);
        assert forall|k: int| 0 <= k < 3 implies rounds(
            #[trigger] out[p + k] as int,
            255 * s.color[k] * share + 255 * dst[p + k] * (u - share),
            255 * u as int,
        ) by {
            assert(k == 0 || k == 1 || k == 2);
            lemma_near_shares(
                out[p + k] as int,
                BlendMode::Normal,
                s.color[k] as int,
                dst[p + k] as int,
                z as int,
                share as int,
                1,
                u as int,
            );
        }
    }
}

/// A picture of one opaque color.
pub open spec fn has_one_color(src: Seq<u8>, w: int, h: int, color: Seq<u8>) -> bool {
    &&& color.len() == 4
    &&& color[3] == 255
    &&& forall|c: int| 0 <= c < 4 ==> #[trigger] has_value(src, w, h, c, color[c])
}

/// The transform of a picture in the middle of the frame at a part of its size.
pub open spec fn shrunk_by(k: nat) -> TransformView {
    TransformView {
        scale: Number::Finite { negative: false, units: pow2((149 - k) as nat) },
        ..default_transform()@
    }
}

spec fn shrunk_placement(w: int, h: int, k: nat) -> PlacementView {
    PlacementView {
        fit: Number::Finite { negative: false, units: pow2((149 - k) as nat) },
        rx: (w / pow2(k) as int) / 2 + 3,
        ry: (h / pow2(k) as int) / 2 + 3,
        ..filling(w, h)
    }
}

/// A side times a part of one.
proof fn lemma_shrunk_side(w: int, k: nat)
    requires
        0 < w <= 0x8000,
        k <= 8,
    ensures
        truncated(
            product(
                single(),
                num(w),
                Number::Finite { negative: false, units: pow2((149 - k) as nat) },
            ),
        ) == w / pow2(k) as int,
        0 <= w / pow2(k) as int <= w,
        0 < pow2(k) <= 256,
{
    reveal(product);
    reveal(to_integer);
    let (one, g, s) = (pow2(149), pow2((149 - k) as nat), pow2(k));
    lemma2_to64();
    lemma_pow2_pos(149);
    lemma_pow2_pos((149 - k) as nat);
    lemma_pow2_pos(k);
    lemma_pow2_adds((149 - k) as nat, k);
    lemma_pow2_mono(k, 8);
    lemma_small(w);
    let n = w as nat;
    assert((n * one) * g == (n * g) * one) by (nonlinear_arith);
    lemma_exact(single(), false, n, (149 - k) as nat, one);
    let (q, r) = (w / s as int, w % s as int);
    lemma_fundamental_div_mod(w, s as int);
    lemma_mod_bound(w, s as int);
    assert(0 <= q <= w && n * g == q * one + r * g && 0 <= r * g < one) by (nonlinear_arith)
        requires
            w == s * q + r,
            0 <= r < s,
            one == g * s,
            n == w,
            w > 0,
            s >= 1,
            g > 0,
    ;
    lemma_fundamental_div_mod_converse((n * g) as int, one as int, q, r * g);
}

proof fn lemma_shrunk_placement(w: int, h: int, k: nat)
    requires
        0 < w <= 0x8000,
        0 < h <= 0x8000,
        k <= 8,
    ensures
        placement_of(w, h, w, h, shrunk_by(k), num(1), num(0), whole_picture()) == Some(
            shrunk_placement(w, h, k),
        ),
{
    let f = single();
    let (one, g) = (pow2(149), pow2((149 - k) as nat));
    let scale = Number::Finite { negative: false, units: g };
    lemma_filling(w, h);
    lemma_one();
    lemma_small_patterns();
    lemma_small(0);
    lemma_small(1);
    lemma_small(w);
    lemma_small(h);
    lemma_integers_in_order(f, 0, 0);
    lemma_integers_in_order(f, 0, 1);
    lemma_integers_in_order(f, 1, 0);
    lemma_integers_in_order(f, 1, 1);
    let crop = whole_picture();
    assert(crop[0]@ == num(0) && crop[1]@ == num(0) && crop[2]@ == num(1) && crop[3]@ == num(1));
    assert(negated(num(0)) == zero_with(true)) by {
        assert(0 * pow2(149) == 0) by (nonlinear_arith);
    }
    lemma_plus_zero(f, 1, true);
    assert(difference(f, num(1), num(0)) == num(1));
    law_multiplication_by_one_is_exact(f, w);
    law_multiplication_by_one_is_exact(f, h);
    law_integers_come_back(f, Toward::Zero, w, i32::MIN as int, i32::MAX as int);
    law_integers_come_back(f, Toward::Zero, h, i32::MIN as int, i32::MAX as int);
    lemma_over_itself(f, w);
    lemma_over_itself(f, h);
    lemma_halves(w);
    lemma_halves(h);
    // The scale is not held at its least.
    lemma2_to64();
    lemma_pow2_pos(116);
    lemma_pow2_adds(116, 24);
    lemma_pow2_mono(141, (149 - k) as nat);
    lemma_pow2_mono(140, 141);
    assert(larger(scale, (Float32 { bits: 0x3a83_126f })@) == scale) by {
        reveal(less);
        reveal(number_of_bits32);
        assert((Float32 { bits: 0x3a83_126f })@ == (Number::Finite {
            negative: false,
            units: 0x83_126f * pow2(116),
        }));
    }
    assert(product(f, num(1), scale) == scale) by {
        reveal(product);
        lemma_pow2_pos(149);
        assert((1 * one) * g == (1 * g) * one && 1 * g == g) by (nonlinear_arith);
        lemma_exact(f, false, 1, (149 - k) as nat, one);
    }
    lemma_shrunk_side(w, k);
    lemma_shrunk_side(h, k);
    let (a, b) = (w / pow2(k) as int / 2 + 1, h / pow2(k) as int / 2 + 1);
    lemma_full_reach(a, b);
    lemma_full_reach(b, a);
}

/// Halves over a part of one.
proof fn lemma_over_part(i: int, k: nat)
    requires
        k <= 8,
        -0x8000 <= i <= 0x8000,
    ensures
        quotient(
            single(),
            halves(i),
            Number::Finite { negative: false, units: pow2((149 - k) as nat) },
        ) == halves(i * pow2(k)),
        -0x80_0000 <= i * pow2(k) <= 0x80_0000,
{
    reveal(quotient);
    let (one, p, g, s) = (pow2(149), pow2(148), pow2((149 - k) as nat), pow2(k));
    let m = magnitude(i);
    lemma2_to64();
    lemma_pow2_pos((149 - k) as nat);
    lemma_pow2_pos(k);
    lemma_pow2_adds((149 - k) as nat, k);
    lemma_pow2_mono(k, 8);
    let n = i * s;
    assert(-0x80_0000 <= n <= 0x80_0000 && magnitude(n) == m * s && (n < 0) == (i < 0))
        by (nonlinear_arith)
        requires
            n == i * s,
            -0x8000 <= i <= 0x8000,
            1 <= s <= 256,
            m == magnitude(i),
            magnitude(n) == (if n < 0 {
                -n
            } else {
                n
            }),
            magnitude(i) == (if i < 0 {
                -i
            } else {
                i
            }),
    ;
    assert((m * p) * one == ((m * s) * p) * g) by (nonlinear_arith)
        requires
            one == g * s,
    ;
    lemma_exact(single(), i < 0, m * s, 148, g);
}

/// The pixels around a place of a side of `n`.
proof fn lemma_place_bounds(m: int, n: int)
    requires
        0 < n <= 0x8000,
        -1 <= m <= 2 * n - 2,
    ensures
        0 <= truncated(halves(m)) < n,
        0 <= pixel_before(halves(m)) < n,
        halves(m) is Finite,
{
    reveal(to_integer);
    let (one, p) = (pow2(149) as int, pow2(148) as int);
    lemma2_to64();
    lemma_pow2_pos(148);
    lemma_pow2_adds(148, 1);
    lemma_small(0);
    lemma_halves(0);
    lemma_halves_in_order(m, 0);
    assert(0 * one == 0 && 0 * p == 0 && 1 * p == p) by (nonlinear_arith);
    if m < 0 {
        lemma_fundamental_div_mod_converse(p, one, 0, p);
        lemma_fundamental_div_mod_converse(0, one, 0, 0);
    } else {
        let r = (m % 2) * p;
        assert(m * p == one * (m / 2) + r && 0 <= r < one) by (nonlinear_arith)
            requires
                one == p * 2,
                r == (m % 2) * p,
                m == 2 * (m / 2) + m % 2,
                0 <= m % 2 < 2,
                p > 0,
        ;
        lemma_mul_is_commutative(one, m / 2);
        lemma_fundamental_div_mod_converse(m * p, one, m / 2, r);
    }
}

/// A pixel of the frame lies in a picture of a part of its size: its middle is no further
/// from the middle of the frame than half of that part.
pub open spec fn in_shrunk(x: int, n: int, k: nat) -> bool {
    -n <= (2 * x + 1 - n) * pow2(k) < n
}

/// Along one side of a picture of a part of its size.
proof fn lemma_shrunk_place(x: int, n: int, k: nat, j: int)
    requires
        0 < n <= 0x8000,
        k <= 8,
        0 <= x < n,
        -0x8000 <= j <= 0x8000,
    ensures
        ({
            let f = single();
            let fit = Number::Finite { negative: false, units: pow2((149 - k) as nat) };
            let d = from_place(x, halves(n));
            let v = (2 * x + 1 - n) * pow2(k) + n;
            let a = along_side(halves((2 * x + 1 - n) * pow2(k)), n);
            let (mid, r) = (truncated(halves(n)), (n / pow2(k) as int) / 2 + 3);
            &&& d == halves(2 * x + 1 - n)
            &&& quotient(f, sum(f, product(f, d, num(1)), product(f, halves(j), num(0))), fit)
                == halves((2 * x + 1 - n) * pow2(k))
            &&& quotient(f, sum(f, product(f, negated(halves(j)), num(0)), product(f, d, num(1))), fit)
                == halves((2 * x + 1 - n) * pow2(k))
            &&& a == halves(v)
            &&& on_side(a, n) == in_shrunk(x, n, k)
            &&& in_shrunk(x, n, k) ==> {
                let px = sum(f, pixel_place(a, n, false), product(f, num(0), num(n)));
                &&& px is Finite
                &&& 0 <= truncated(px) < n
                &&& 0 <= pixel_before(px) < n
                &&& mid - r <= x < mid + r
            }
        }),
{
    let f = single();
    let i = 2 * x + 1 - n;
    let s = pow2(k) as int;
    let v = i * s + n;
    lemma_own_place(x, n);
    lemma_upright(i, j);
    lemma_over_part(i, k);
    lemma_small(0);
    lemma_small(n);
    lemma_halves(0);
    lemma_halves(n);
    lemma_halves(1);
    lemma_sum_of_halves(i * s, n);
    lemma_halves_in_order(v, 0);
    lemma_halves_in_order(v, 2 * n);
    lemma_sum_of_halves(v, 1);
    lemma_sum_of_halves(v - 1, 0);
    assert(0 * n == 0) by (nonlinear_arith);
    law_integer_products_are_exact(f, 0, n);
    if in_shrunk(x, n, k) {
        lemma_place_bounds(v - 1, n);
        lemma_shrunk_side(n, k);
        let q = n / s;
        let r = n % s;
        lemma_fundamental_div_mod(n, s);
        lemma_mod_bound(n, s);
        assert(-q <= i <= q) by (nonlinear_arith)
            requires
                -n <= i * s <= n,
                n == s * q + r,
                0 <= r < s,
                s > 0,
        ;
    }
}

/// A picture is scaled round its middle: at a half, a quarter and so on of the size of the
/// frame, an opaque picture of one color covers the pixels in the middle half, quarter and so
/// on of the frame, with its color, and no others.
pub proof fn law_pictures_scale_down(
    dst: Seq<u8>,
    src: Seq<u8>,
    w: int,
    h: int,
    color: Seq<u8>,
    k: nat,
    x: int,
    y: int,
)
    requires
        0 < w <= 0x8000,
        0 < h <= 0x8000,
        k <= 8,
        dst.len() == w * h * 4,
        has_one_color(src, w, h, color),
        0 <= x < w,
        0 <= y < h,
    ensures
        ({
            let out = picture_blended(
                dst,
                w,
                h,
                src,
                w,
                h,
                shrunk_by(k),
                plain_look(),
                whole_picture(),
                BlendMode::Normal,
            );
            let p = 4 * (y * w + x);
            if in_shrunk(x, w, k) && in_shrunk(y, h, k) {
                pixel_at(out, p) == color
            } else {
                pixel_at(out, p) == pixel_at(dst, p)
            }
        }),
{
    let f = single();
    let look = plain_look();
    let pl = shrunk_placement(w, h, k);
    lemma_shrunk_placement(w, h, k);
    lemma_shrunk_place(x, w, k, 2 * y + 1 - h);
    lemma_shrunk_place(y, h, k, 2 * x + 1 - w);
    let paint = picture_paint(src, pl, look, w, h);
    lemma_pixel_painted(dst, w, h, paint, BlendMode::Normal, x, y);
    assert(has_value(src, w, h, 0, color[0]));
    assert(src.len() == w * h * 4);
    if in_shrunk(x, w, k) && in_shrunk(y, h, k) {
        let placed = sampled(pl, look, w, h, x, y);
        assert(placed.is_some());
        let (px, py) = placed.unwrap();
        lemma_colored_paint(src, w, h, color, px, py);
        law_opaque_pixels_replace(pixel_at(dst, 4 * (y * w + x)), color[0], color[1], color[2]);
        assert(color =~= seq![color[0], color[1], color[2], 255u8]);
    } else {
        assert(sampled(pl, look, w, h, x, y).is_none());
    }
}

/// What a picture of one color paints.
proof fn lemma_colored_paint(src: Seq<u8>, w: int, h: int, color: Seq<u8>, px: Number, py: Number)
    requires
        0 < w <= 0x8000,
        0 < h <= 0x8000,
        has_one_color(src, w, h, color),
        px is Finite,
        py is Finite,
        0 <= pixel_before(px) < w,
        0 <= pixel_before(py) < h,
    ensures
        source_paint(src, w, h, px, py, plain_look()) == (
            Rgb { r: num(color[0] as int), g: num(color[1] as int), b: num(color[2] as int) },
            num(1),
        ),
{
    let f = single();
    assert(has_value(src, w, h, 0, color[0]));
    assert(has_value(src, w, h, 1, color[1]));
    assert(has_value(src, w, h, 2, color[2]));
    assert(has_value(src, w, h, 3, color[3]));
    lemma_value_of_one_color(src, w, h, px, py, 0, color[0]);
    lemma_value_of_one_color(src, w, h, px, py, 1, color[1]);
    lemma_value_of_one_color(src, w, h, px, py, 2, color[2]);
    lemma_value_of_one_color(src, w, h, px, py, 3, color[3]);
    lemma_one();
    lemma_small_patterns();
    lemma_small(0);
    lemma_small(1);
    lemma_small(255);
    lemma_small(color[0] as int);
    lemma_small(color[1] as int);
    lemma_small(color[2] as int);
    lemma_integers_in_order(f, 0, 0);
    lemma_integers_in_order(f, 1, 1);
    lemma_integers_in_order(f, 255, color[0] as int);
    lemma_integers_in_order(f, 255, color[1] as int);
    lemma_integers_in_order(f, 255, color[2] as int);
    assert(absolute(num(0)) == num(0)) by {
        assert(0 * pow2(149) == 0) by (nonlinear_arith);
    }
    lemma_over_itself(f, 255);
    law_multiplication_by_one_is_exact(f, 1);
}

} // verus!
