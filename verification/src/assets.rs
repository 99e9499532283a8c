//! Asset import: what becomes of a media file.

use crate::decoder::{
    compute_peaks, image_in, load_image_rgba, one_or_more, peak_views, peaks_of, scale_rgba, scaled,
};
use crate::exact::{law_integers_are_exact, lemma_rounded_above, lemma_rounded_bound};
use crate::float::{
    lemma_pow2_mono, less, of_integer, product, quotient, rounded, single, smaller, to_integer,
    Float32, Float64, Number, Toward,
};
use crate::pixel::num;
use crate::strings::{chars_of, same_text, string_of};
use crate::timeline::{Asset, AssetId, AssetKind, AssetStore, SECOND_US};
use vstd::arithmetic::div_mod::{lemma_fundamental_div_mod, lemma_mod_bound};
use vstd::arithmetic::mul::lemma_mul_is_commutative;
use vstd::arithmetic::power2::{
    lemma2_to64, lemma2_to64_rest, lemma_pow2_adds, lemma_pow2_pos, pow2,
};
use vstd::prelude::*;
use vstd::string::*;

verus! {

/// The largest scale at which a picture fits into a box.
pub open spec fn fit_scale(w: int, h: int, max_w: int, max_h: int) -> Number {
    smaller(quotient(single(), num(max_w), num(w)), quotient(single(), num(max_h), num(h)))
}

/// A side scaled, rounded, at least one pixel.
pub open spec fn scaled_side(n: int, scale: Number) -> int {
    one_or_more(
        to_integer(
            single(),
            Toward::Nearest,
            product(single(), num(n), scale),
            0,
            u32::MAX as int,
        ),
    )
}

/// The size of a picture of `w` by `h` pixels scaled to fit into a box; the box itself
/// for a picture without pixels.
pub open spec fn fitted(w: int, h: int, max_w: int, max_h: int) -> (int, int) {
    if w == 0 || h == 0 {
        (max_w, max_h)
    } else {
        let s = fit_scale(w, h, max_w, max_h);
        (scaled_side(w, s), scaled_side(h, s))
    }
}

/// The largest size that fits into a box and keeps the aspect of `w` by `h`.
pub fn fit_box(w: u32, h: u32, max_w: u32, max_h: u32) -> (r: (u32, u32))
    ensures
        (r.0 as int, r.1 as int) == fitted(w as int, h as int, max_w as int, max_h as int),
{
    if w == 0 || h == 0 {
        return (max_w, max_h);
    }
    let wf: Float32 = Float32::from_i64(w as i64);
    let hf: Float32 = Float32::from_i64(h as i64);
    let scale: Float32 = Float32::from_i64(max_w as i64).over(wf).minimum(
        Float32::from_i64(max_h as i64).over(hf),
    );
    let tw: u32 = wf.times(scale).to_u32(Toward::Nearest);
    let th: u32 = hf.times(scale).to_u32(Toward::Nearest);
    (
        if tw > 1 {
            tw
        } else {
            1
        },
        if th > 1 {
            th
        } else {
            1
        },
    )
}

/// An integer above zero as a number: finite, and not far off.
proof fn lemma_number_of(n: int) -> (units: nat)
    requires
        1 <= n <= u32::MAX,
    ensures
        num(n) == (Number::Finite { negative: false, units }),
        2 * units >= n * pow2(149),
        units <= 0x4_0000_0000 * pow2(149),
        units > 0,
{
    reveal(of_integer);
    let u = pow2(149);
    let a = n as nat * u;
    let units = rounded(24, a, 1);
    lemma_pow2_pos(149);
    lemma2_to64();
    lemma2_to64_rest();
    assert(a >= 1 && a >= u && a <= 0x1_0000_0000 * u) by (nonlinear_arith)
        requires
            a == n as nat * u,
            1 <= n <= 0xffff_ffff,
            u >= 1,
    ;
    lemma_rounded_above(24, a, 1);
    lemma_rounded_bound(24, a, 1);
    assert(units * 1 == units) by (nonlinear_arith);
    let e = pow2(24);
    assert(units <= 0x4_0000_0000 * u) by (nonlinear_arith)
        requires
            units * e <= a * (e + 1) + 1 * e,
            a <= 0x1_0000_0000 * u,
            u >= 1,
            e >= 1,
    ;
    lemma_pow2_adds(34, 149);
    lemma_pow2_mono(183, 276);
    lemma_pow2_adds(1, 276);
    units
}

/// A side times a scale no larger than what makes it `m` rounds to no more than `m`.
proof fn lemma_side(n: int, m: int, qu: nat, su: nat)
    requires
        1 <= n <= u32::MAX,
        1 <= m <= 0x10_0000,
        quotient(single(), num(m), num(n)) == (Number::Finite { negative: false, units: qu }),
        su <= qu,
    ensures
        scaled_side(n, Number::Finite { negative: false, units: su }) <= m,
{
    reveal(product);
    reveal(quotient);
    reveal(to_integer);
    let u = pow2(149);
    let e = pow2(24);
    lemma_pow2_pos(149);
    lemma2_to64();
    lemma2_to64_rest();
    let nu = lemma_number_of(n);
    law_integers_are_exact(single(), m);
    let mu = m as nat * u;
    let a = mu * u;
    assert(qu == rounded(24, a, nu));
    lemma_rounded_bound(24, a, nu);
    let b = nu * su;
    let pu = rounded(24, b, u);
    lemma_rounded_bound(24, b, u);
    assert(b <= nu * qu) by (nonlinear_arith)
        requires
            b == nu * su,
            su <= qu,
    ;
    lemma_mul_is_commutative(qu as int, nu as int);
    let x = nu * qu;
    // x * e <= a * (e + 1) + nu * e, and (pu * u) * e <= x * (e + 1) + u * e
    assert((pu * u) * e <= x * (e + 1) + u * e) by (nonlinear_arith)
        requires
            (pu * u) * e <= b * (e + 1) + u * e,
            b <= x,
            e >= 1,
    ;
    lemma_side_bound(m as nat, u, nu, x, pu);
    assert(2 * pu < (2 * m + 1) * u);
    lemma_pow2_adds(22, 149);
    lemma_pow2_mono(171, 277);
    assert((2 * m + 1) * u <= 0x40_0000 * u) by (nonlinear_arith)
        requires
            m <= 0x10_0000,
            u >= 1,
    ;
    let down = pu as int / u as int;
    let r = pu as int % u as int;
    lemma_fundamental_div_mod(pu as int, u as int);
    lemma_mod_bound(pu as int, u as int);
    assert(down <= m && (down == m ==> 2 * r < u)) by (nonlinear_arith)
        requires
            pu == u * down + r,
            0 <= r < u,
            2 * pu < (2 * m + 1) * u,
            u >= 1,
    ;
}

proof fn lemma_side_bound(m: nat, u: nat, nu: nat, x: nat, pu: nat)
    requires
        1 <= m <= 0x10_0000,
        u == pow2(149),
        nu <= 0x4_0000_0000 * u,
        x * 0x100_0000 <= ((m * u) * u) * 0x100_0001 + nu * 0x100_0000,
        (pu * u) * 0x100_0000 <= x * 0x100_0001 + u * 0x100_0000,
    ensures
        2 * pu < (2 * m + 1) * u,
{
    lemma_pow2_pos(149);
    lemma2_to64();
    lemma2_to64_rest();
    lemma_pow2_mono(64, 149);
    assert(u >= 0x1_0000_0000_0000_0000);
    let e: int = 0x100_0000;
    let a = (m * u) * u;
    // (pu * u) * e * e <= a * (e + 1)^2 + nu * e * (e + 1) + u * e * e
    assert(((pu * u) * e) * e <= (x * e) * (e + 1) + (u * e) * e) by (nonlinear_arith)
        requires
            (pu * u) * e <= x * (e + 1) + u * e,
            e == 0x100_0000,
    ;
    assert((x * e) * (e + 1) <= (a * (e + 1) + nu * e) * (e + 1)) by (nonlinear_arith)
        requires
            x * e <= a * (e + 1) + nu * e,
            e == 0x100_0000,
    ;
    let v = (u as int) * (u as int);
    assert(a == m * v) by (nonlinear_arith)
        requires
            a == (m * u) * u,
            v == (u as int) * (u as int),
    ;
    assert(nu * e <= 0x4_0000_0000 * (u * e)) by (nonlinear_arith)
        requires
            nu <= 0x4_0000_0000 * u,
            e == 0x100_0000,
    ;
    assert(m * v <= 0x10_0000 * v && m * v >= v) by (nonlinear_arith)
        requires
            1 <= m <= 0x10_0000,
            v >= 0,
    ;
    assert(v >= 0x1_0000_0000_0000_0000 * u) by (nonlinear_arith)
        requires
            v == (u as int) * (u as int),
            u >= 0x1_0000_0000_0000_0000,
    ;
    if 2 * pu >= (2 * m + 1) * u {
        assert(2 * (pu * u) >= 2 * (m * v) + v) by (nonlinear_arith)
            requires
                2 * pu >= (2 * m + 1) * u,
                v == (u as int) * (u as int),
        ;
        assert(((pu * u) * e) * e == (pu * u) * 0x1_0000_0000_0000) by (nonlinear_arith)
            requires
                e == 0x100_0000,
        ;
        assert((a * (e + 1) + nu * e) * (e + 1) == a * 0x1_0000_0200_0001 + (nu * e) * 0x100_0001)
            by (nonlinear_arith)
            requires
                e == 0x100_0000,
        ;
    }
}

/// A picture scaled to fit into a box lies within it.
pub proof fn law_fitted_lies_within(w: int, h: int, max_w: int, max_h: int)
    requires
        0 <= w <= u32::MAX,
        0 <= h <= u32::MAX,
        1 <= max_w <= 0x10_0000,
        1 <= max_h <= 0x10_0000,
    ensures
        1 <= fitted(w, h, max_w, max_h).0 <= max_w,
        1 <= fitted(w, h, max_w, max_h).1 <= max_h,
{
    if w > 0 && h > 0 {
        let qw = lemma_quotient_of(max_w, w);
        let qh = lemma_quotient_of(max_h, h);
        reveal(less);
        lemma2_to64();
        lemma2_to64_rest();
        let s = fit_scale(w, h, max_w, max_h);
        let su = match s {
            Number::Finite { negative, units } => units,
            _ => 0,
        };
        assert(s == (Number::Finite { negative: false, units: su }));
        assert(su <= qw && su <= qh);
        lemma_side(w, max_w, qw, su);
        lemma_side(h, max_h, qh, su);
    }
}

/// A side times the scale that makes it `m` rounds to no less than `m`.
proof fn lemma_side_from_below(n: int, m: int, qu: nat)
    requires
        1 <= n <= u32::MAX,
        1 <= m <= 0x10_0000,
        quotient(single(), num(m), num(n)) == (Number::Finite { negative: false, units: qu }),
    ensures
        scaled_side(n, Number::Finite { negative: false, units: qu }) >= m,
{
    reveal(product);
    reveal(quotient);
    reveal(to_integer);
    let u = pow2(149);
    let e = pow2(24);
    lemma_pow2_pos(149);
    lemma2_to64();
    lemma2_to64_rest();
    let nu = lemma_number_of(n);
    law_integers_are_exact(single(), m);
    let a = (m as nat * u) * u;
    assert(qu == rounded(24, a, nu));
    lemma_rounded_bound(24, a, nu);
    let x = nu * qu;
    lemma_mul_is_commutative(qu as int, nu as int);
    let pu = rounded(24, x, u);
    lemma_rounded_bound(24, x, u);
    lemma_side_bound_below(m as nat, u, nu, x, pu);
    let down = pu as int / u as int;
    let r = pu as int % u as int;
    lemma_fundamental_div_mod(pu as int, u as int);
    lemma_mod_bound(pu as int, u as int);
    assert(down >= m || (down == m - 1 && 2 * r >= u)) by (nonlinear_arith)
        requires
            pu == u * down + r,
            0 <= r < u,
            2 * pu >= (2 * m - 1) * u,
            u >= 1,
    ;
}

proof fn lemma_side_bound_below(m: nat, u: nat, nu: nat, x: nat, pu: nat)
    requires
        1 <= m <= 0x10_0000,
        u == pow2(149),
        nu <= 0x4_0000_0000 * u,
        ((m * u) * u) * 0x100_0000 <= x * 0x100_0000 + (m * u) * u + nu * 0x100_0000,
        x * 0x100_0000 <= (pu * u) * 0x100_0000 + x + u * 0x100_0000,
        x * 0x100_0000 <= ((m * u) * u) * 0x100_0001 + nu * 0x100_0000,
    ensures
        2 * pu >= (2 * m - 1) * u,
{
    lemma_pow2_pos(149);
    lemma2_to64();
    lemma2_to64_rest();
    lemma_pow2_mono(64, 149);
    let a = ((m * u) * u) as int;
    let v = (u as int) * (u as int);
    assert(a == m * v) by (nonlinear_arith)
        requires
            a == (m * u) * u,
            v == (u as int) * (u as int),
    ;
    assert(m * v <= 0x10_0000 * v && v >= 0x1_0000_0000_0000_0000 * u) by (nonlinear_arith)
        requires
            1 <= m <= 0x10_0000,
            v == (u as int) * (u as int),
            u >= 0x1_0000_0000_0000_0000,
    ;
    let y = (pu * u) as int;
    assert(2 * y >= 2 * a - v);
    assert(2 * pu >= (2 * m - 1) * u) by (nonlinear_arith)
        requires
            2 * y >= 2 * a - v,
            y == pu * u,
            a == m * v,
            v == (u as int) * (u as int),
            u >= 1,
    ;
}

/// A picture scaled to fit into a box is as large as it can be there: it fills the width
/// or the height of the box.
pub proof fn law_fitted_fills_a_side(w: int, h: int, max_w: int, max_h: int)
    requires
        0 <= w <= u32::MAX,
        0 <= h <= u32::MAX,
        1 <= max_w <= 0x10_0000,
        1 <= max_h <= 0x10_0000,
    ensures
        fitted(w, h, max_w, max_h).0 == max_w || fitted(w, h, max_w, max_h).1 == max_h,
{
    if w > 0 && h > 0 {
        law_fitted_lies_within(w, h, max_w, max_h);
        let qw = lemma_quotient_of(max_w, w);
        let qh = lemma_quotient_of(max_h, h);
        lemma_side_from_below(w, max_w, qw);
        lemma_side_from_below(h, max_h, qh);
    }
}

/// The quotient of two integers above zero is a finite number.
proof fn lemma_quotient_of(m: int, n: int) -> (units: nat)
    requires
        1 <= n <= u32::MAX,
        1 <= m <= 0x10_0000,
    ensures
        quotient(single(), num(m), num(n)) == (Number::Finite { negative: false, units }),
{
    reveal(quotient);
    let u = pow2(149);
    lemma_pow2_pos(149);
    lemma2_to64();
    lemma2_to64_rest();
    let nu = lemma_number_of(n);
    law_integers_are_exact(single(), m);
    let a = (m as nat * u) * u;
    let units = rounded(24, a, nu);
    lemma_rounded_bound(24, a, nu);
    let e = pow2(24);
    let y = units * nu;
    assert(y <= 2 * a + nu) by (nonlinear_arith)
        requires
            y * e <= a * (e + 1) + nu * e,
            e >= 1,
            a >= 0,
    ;
    assert(a <= (0x10_0000 * u) * u) by (nonlinear_arith)
        requires
            a == (m as nat * u) * u,
            1 <= m <= 0x10_0000,
    ;
    assert(2 * nu >= u) by (nonlinear_arith)
        requires
            2 * nu >= n * u,
            n >= 1,
    ;
    assert(units * u <= 2 * y) by (nonlinear_arith)
        requires
            y == units * nu,
            2 * nu >= u,
    ;
    assert(units * u <= (0x40_0000 * u + 0x8_0000_0000) * u) by (nonlinear_arith)
        requires
            units * u <= 2 * y,
            y <= 2 * a + nu,
            a <= (0x10_0000 * u) * u,
            nu <= 0x4_0000_0000 * u,
    ;
    assert(units <= 0x40_0000 * u + 0x8_0000_0000) by (nonlinear_arith)
        requires
            units * u <= (0x40_0000 * u + 0x8_0000_0000) * u,
            u >= 1,
    ;
    lemma_pow2_adds(22, 149);
    lemma_pow2_mono(171, 275);
    lemma_pow2_mono(35, 275);
    lemma_pow2_adds(1, 275);
    lemma_pow2_adds(1, 276);
    lemma_pow2_pos(276);
    units
}

/// A letter in lower case; other characters as they are.
pub open spec fn ascii_lower(c: char) -> char {
    if 'A' <= c && c <= 'Z' {
        (c as u8 + 32) as char
    } else {
        c
    }
}

pub open spec fn ascii_lowered(s: Seq<char>) -> Seq<char> {
    Seq::new(s.len(), |i: int| ascii_lower(s[i]))
}

/// The text with its ASCII letters in lower case.
pub fn to_ascii_lower(s: &str) -> (r: String)
    ensures
        r@ == ascii_lowered(s@),
{
    let cs: Vec<char> = chars_of(s);
    let mut out: Vec<char> = Vec::new();
    let mut i: usize = 0;
    while i < cs.len()
        invariant
            i <= cs.len(),
            out.len() == i,
            forall|k: int| 0 <= k < i ==> #[trigger] out@[k] == ascii_lower(cs@[k]),
        decreases cs.len() - i,
    {
        let c: char = cs[i];
        out.push(
            if 'A' <= c && c <= 'Z' {
                (c as u8 + 32) as char
            } else {
                c
            },
        );
        i = i + 1;
    }
    assert(out@ =~= ascii_lowered(s@));
    string_of(&out)
}

/// What a file is imported as.
#[derive(Debug, Clone, Copy, PartialEq, Eq, Structural)]
pub enum ImportAs {
    Subtitles,
    Image,
    Media,
}

pub open spec fn is_subtitle_extension(e: Seq<char>) -> bool {
    e == "srt"@ || e == "vtt"@
}

pub open spec fn is_image_extension(e: Seq<char>) -> bool {
    ||| e == "png"@
    ||| e == "webp"@
    ||| e == "tif"@
    ||| e == "tiff"@
    ||| e == "jpg"@
    ||| e == "jpeg"@
    ||| e == "bmp"@
    ||| e == "gif"@
}

/// What a file is imported as, by its extension, whatever its case.
pub open spec fn import_kind(extension: Seq<char>) -> ImportAs {
    let e = ascii_lowered(extension);
    if is_subtitle_extension(e) {
        ImportAs::Subtitles
    } else if is_image_extension(e) {
        ImportAs::Image
    } else {
        ImportAs::Media
    }
}

/// What a file is imported as, by its extension.
pub fn import_as(extension: &str) -> (r: ImportAs)
    ensures
        r == import_kind(extension@),
{
    let lower: String = to_ascii_lower(extension);
    let e: &str = lower.as_str();
    if same_text(e, "srt") || same_text(e, "vtt") {
        ImportAs::Subtitles
    } else if same_text(e, "png") || same_text(e, "webp") || same_text(e, "tif") || same_text(
        e,
        "tiff",
    ) || same_text(e, "jpg") || same_text(e, "jpeg") || same_text(e, "bmp") || same_text(e, "gif") {
        ImportAs::Image
    } else {
        ImportAs::Media
    }
}

/// A small picture by its values.
pub open spec fn thumb_view(t: Option<(u32, u32, Vec<u8>)>) -> Option<(int, int, Seq<u8>)> {
    match t {
        Some((w, h, rgba)) => Some((w as int, h as int, rgba@)),
        None => None,
    }
}

/// The asset of an image: its pixels, a thumbnail of at most 96 by 54, and a second
/// of time.
pub open spec fn is_image_asset(
    a: Asset,
    path: Seq<char>,
    name: Seq<char>,
    pic: (u32, u32, Seq<u8>),
) -> bool {
    let (tw, th) = fitted(pic.0 as int, pic.1 as int, 96, 54);
    &&& a.id.0 == 0
    &&& a.kind == AssetKind::Image
    &&& a.name@ == name
    &&& a.path@ == path
    &&& a.duration_us == SECOND_US
    &&& a.width == pic.0
    &&& a.height == pic.1
    &&& a.frame_rate.bits == 0
    &&& a.sample_rate == 0
    &&& a.channels == 1
    &&& a.peaks@.len() == 0
    &&& a.rgba.is_some() && a.rgba.unwrap()@ == pic.2
    &&& thumb_view(a.thumb) == Some(
        (tw, th, scaled(pic.2, pic.0 as int, pic.1 as int, tw, th)),
    )
    &&& a.pcm.is_none()
    &&& a.filmstrip.is_none()
}

fn image_asset(path: &str, name: &str, w: u32, h: u32, rgba: Vec<u8>) -> (a: Asset)
    ensures
        is_image_asset(a, path@, name@, (w, h, rgba@)),
{
    let (tw, th): (u32, u32) = fit_box(w, h, 96, 54);
    proof {
        law_fitted_lies_within(w as int, h as int, 96, 54);
        assert(one_or_more(tw as int) * one_or_more(th as int) <= 96 * 54) by (nonlinear_arith)
            requires
                1 <= tw <= 96,
                1 <= th <= 54,
        ;
    }
    let small: Vec<u8> = scale_rgba(&rgba, w, h, tw, th);
    Asset {
        id: AssetId(0),
        kind: AssetKind::Image,
        name: name.to_string(),
        path: path.to_string(),
        duration_us: SECOND_US,
        width: w,
        height: h,
        frame_rate: Float64 { bits: 0 },
        sample_rate: 0,
        channels: 1,
        peaks: Vec::new(),
        rgba: Some(rgba),
        thumb: Some((tw, th, small)),
        pcm: None,
        filmstrip: None,
    }
}

/// Imports the bytes of an image file.
pub fn import_image(store: &mut AssetStore, path: &str, name: &str, bytes: &Vec<u8>) -> (r: Result<
    AssetId,
    String,
>)
    requires
        old(store)@.next_id < u64::MAX,
    ensures
        match image_in(path@, bytes@) {
            Some(pic) => r.is_ok() && exists|a: Asset| #[trigger]
                is_image_asset(a, path@, name@, pic) && final(store)@ == old(store)@.inserted(a)
                    && r.unwrap().0 == old(store)@.number_for(a),
            None => {
                &&& r matches Err(e) && e@ == "import image "@ + path@
                &&& final(store)@ == old(store)@
            },
        },
{
    match load_image_rgba(path, bytes) {
        Ok((w, h, rgba)) => {
            let a: Asset = image_asset(path, name, w, h, rgba);
            let ghost seen = a;
            let id: AssetId = store.insert(a);
            proof {
                assert(is_image_asset(seen, path@, name@, image_in(path@, bytes@).unwrap()));
            }
            Ok(id)
        },
        Err(_) => {
            let mut e: String = "import image ".to_string();
            e.append(path);
            Err(e)
        },
    }
}

/// What was found out about a media file.
#[derive(Debug, Clone)]
pub struct MediaInfo {
    pub has_video: bool,
    pub has_audio: bool,
    pub duration_us: i64,
    pub fps: Float64,
    pub width: u32,
    pub height: u32,
    /// The channels and samples at 48 kHz, where the sound could be decoded.
    pub audio: Option<(u32, Vec<Float32>)>,
}

/// How many samples of a file are kept: five minutes.
pub open spec fn sample_cap(channels: int) -> int {
    channels * 48_000 * 300
}

/// The samples of a file that are kept.
pub open spec fn kept_samples(channels: int, samples: Seq<Float32>) -> Seq<Float32> {
    if samples.len() > sample_cap(channels) {
        samples.take(sample_cap(channels))
    } else {
        samples
    }
}

/// The asset of a video or audio file, without its thumbnail.
pub open spec fn is_media_asset(a: Asset, path: Seq<char>, name: Seq<char>, m: MediaInfo) -> bool {
    &&& a.id.0 == 0
    &&& a.kind == (if m.has_video {
        AssetKind::Video
    } else {
        AssetKind::Audio
    })
    &&& a.name@ == name
    &&& a.path@ == path
    &&& a.duration_us == m.duration_us
    &&& a.width == m.width
    &&& a.height == m.height
    &&& a.frame_rate == m.fps
    &&& a.rgba.is_none()
    &&& a.filmstrip.is_none()
    &&& match m.audio {
        Some((channels, samples)) => if m.has_audio {
            &&& a.sample_rate == 48_000
            &&& a.channels == (if channels > 1 {
                channels
            } else {
                1
            })
            &&& a.pcm.is_some()
            &&& a.pcm.unwrap()@ == kept_samples(channels as int, samples@)
            &&& peak_views(a.peaks@) == peaks_of(
                kept_samples(channels as int, samples@),
                channels as int,
                4096,
            )
        } else {
            silent(a)
        },
        None => silent(a),
    }
}

/// An asset without sound.
pub open spec fn silent(a: Asset) -> bool {
    a.sample_rate == 0 && a.channels == 1 && a.pcm.is_none() && a.peaks@.len() == 0
}

/// The size of the thumbnail to make of a file: of a video with a size, at most 96 by
/// 54.
pub open spec fn thumbnail_size(m: MediaInfo) -> Option<(int, int)> {
    if m.has_video && m.width > 0 && m.height > 0 {
        Some(fitted(m.width as int, m.height as int, 96, 54))
    } else {
        None
    }
}

/// The size of the thumbnail to make of a file.
pub fn thumbnail_box(m: &MediaInfo) -> (r: Option<(u32, u32)>)
    ensures
        match thumbnail_size(*m) {
            Some((w, h)) => r.is_some() && r.unwrap().0 == w && r.unwrap().1 == h,
            None => r.is_none(),
        },
{
    if m.has_video && m.width > 0 && m.height > 0 {
        Some(fit_box(m.width, m.height, 96, 54))
    } else {
        None
    }
}

fn keep_samples(channels: u32, samples: &Vec<Float32>) -> (r: Vec<Float32>)
    ensures
        r@ == kept_samples(channels as int, samples@),
{
    let cap: u64 = channels as u64 * 48_000 * 300;
    let n: usize = if samples.len() as u64 > cap {
        cap as usize
    } else {
        samples.len()
    };
    let mut r: Vec<Float32> = Vec::new();
    let mut i: usize = 0;
    while i < n
        invariant
            i <= n <= samples.len(),
            r@ == samples@.take(i as int),
        decreases n - i,
    {
        r.push(samples[i]);
        i = i + 1;
        assert(r@ =~= samples@.take(i as int));
    }
    assert(samples@.take(samples.len() as int) =~= samples@);
    r
}

/// Imports a video or audio file from what was found out about it; a file with
/// neither video nor sound is refused.
pub fn import_media(
    store: &mut AssetStore,
    path: &str,
    name: &str,
    m: &MediaInfo,
    thumb: Option<(u32, u32, Vec<u8>)>,
) -> (r: Result<AssetId, String>)
    requires
        old(store)@.next_id < u64::MAX,
    ensures
        if m.has_video || m.has_audio {
            r.is_ok() && exists|a: Asset| #[trigger]
                is_media_asset(a, path@, name@, *m) && a.thumb == (if thumbnail_size(*m).is_some() {
                    thumb
                } else {
                    None
                }) && final(store)@ == old(store)@.inserted(a) && r.unwrap().0
                    == old(store)@.number_for(a)
        } else {
            &&& r matches Err(e) && e@ == "no supported video/audio stream in "@ + path@
            &&& final(store)@ == old(store)@
        },
{
    if !m.has_video && !m.has_audio {
        let mut e: String = "no supported video/audio stream in ".to_string();
        e.append(path);
        return Err(e);
    }
    let mut a: Asset = Asset {
        id: AssetId(0),
        kind: if m.has_video {
            AssetKind::Video
        } else {
            AssetKind::Audio
        },
        name: name.to_string(),
        path: path.to_string(),
        duration_us: m.duration_us,
        width: m.width,
        height: m.height,
        frame_rate: m.fps,
        sample_rate: 0,
        channels: 1,
        peaks: Vec::new(),
        rgba: None,
        thumb: if m.has_video && m.width > 0 && m.height > 0 {
            thumb
        } else {
            None
        },
        pcm: None,
        filmstrip: None,
    };
    if m.has_audio {
        if let Some((channels, samples)) = &m.audio {
            let kept: Vec<Float32> = keep_samples(*channels, samples);
            a.sample_rate = 48_000;
            a.channels = if *channels > 1 {
                *channels
            } else {
                1
            };
            a.peaks = compute_peaks(&kept, *channels, 4096);
            a.pcm = Some(kept);
        }
    }
    let ghost seen = a;
    let id: AssetId = store.insert(a);
    proof {
        assert(is_media_asset(seen, path@, name@, *m));
    }
    Ok(id)
}

} // verus!
