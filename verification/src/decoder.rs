//! What is decoded, and what the decoder's output is turned into.

use crate::exact::{
    integer, law_integer_sums_are_exact, law_integers_are_exact, law_integers_come_back,
    lemma_exact, lemma_halves, lemma_halves_alone, lemma_integers_in_order, lemma_over_itself,
    lemma_plus_zero, lemma_rounded_bound, lemma_rounded_within, lemma_small_difference,
    lemma_sum_of_halves, lemma_times_zero, lemma_zero_times_zero, zero_with,
};
use crate::float::{
    clamp_number, difference, double, larger, less, of_integer, product, quotient, rounded, single, sum,
    to_integer, Float32, Float64, Number, Toward,
};
use crate::pixel::{n32, num};
use crate::timeline::{views, HALF_BITS};
use vstd::arithmetic::div_mod::{lemma_fundamental_div_mod, lemma_mod_bound};
use vstd::arithmetic::mul::lemma_mul_is_commutative;
use vstd::arithmetic::power2::{
    lemma2_to64, lemma2_to64_rest, lemma_pow2_adds, lemma_pow2_pos, lemma_pow2_strictly_increases,
    pow2,
};
use vstd::prelude::*;
use vstd::string::*;

verus! {

/// A decoded frame: RGBA8 pixels at a time.
#[derive(Debug, Clone)]
pub struct VideoFrame {
    pub pts_us: i64,
    pub width: u32,
    pub height: u32,
    pub rgba: Vec<u8>,
}

/// A timestamp of a stream, in units of its time base, in microseconds.
pub open spec fn pts_of(raw: int, base: (int, int)) -> int {
    to_integer(
        double(),
        Toward::Zero,
        quotient(
            double(),
            product(
                double(),
                product(double(), of_integer(double(), raw), of_integer(double(), base.0)),
                of_integer(double(), 1_000_000),
            ),
            of_integer(double(), base.1),
        ),
        i64::MIN as int,
        i64::MAX as int,
    )
}

/// A timestamp of a stream in microseconds.
pub fn pts_us(raw: i64, base: (i64, i64)) -> (r: i64)
    ensures
        r == pts_of(raw as int, (base.0 as int, base.1 as int)),
{
    Float64::from_i64(raw).times(Float64::from_i64(base.0)).times(
        Float64::from_i64(1_000_000),
    ).over(Float64::from_i64(base.1)).to_i64(Toward::Zero)
}

/// The frame rate of a stream; zero where it is not known.
pub open spec fn rate_of(over: int, under: int) -> Number {
    if over > 0 && under > 0 {
        quotient(double(), of_integer(double(), over), of_integer(double(), under))
    } else {
        of_integer(double(), 0)
    }
}

/// The frame rate of a stream.
pub fn frame_rate(over: i32, under: i32) -> (r: Float64)
    ensures
        r@ == rate_of(over as int, under as int),
{
    if over > 0 && under > 0 {
        Float64::from_i64(over as i64).over(Float64::from_i64(under as i64))
    } else {
        Float64::from_i64(0)
    }
}

/// Where a decoder goes for the frame at `pts`, given the last one that it gave:
/// nowhere while `pts` lies ahead, else to a tenth of a second before it.
pub open spec fn seek_for(last: Option<i64>, pts: int) -> Option<int> {
    let back = if pts > 100_000 {
        pts - 100_000
    } else {
        0
    };
    match last {
        Some(l) => if pts < l {
            Some(back)
        } else {
            None
        },
        None => Some(back),
    }
}

/// Where a decoder goes for the frame at `pts`.
pub fn seek_before(last: Option<i64>, pts: i64) -> (r: Option<i64>)
    ensures
        match seek_for(last, pts as int) {
            Some(t) => r.is_some() && r.unwrap() == t,
            None => r.is_none(),
        },
{
    let back: i64 = if pts > 100_000 {
        pts - 100_000
    } else {
        0
    };
    match last {
        Some(l) => if pts < l {
            Some(back)
        } else {
            None
        },
        None => Some(back),
    }
}

pub open spec fn off(a: int, b: int) -> int {
    if a < b {
        b - a
    } else {
        a - b
    }
}

/// What to do with a decoded frame on the way to the one at a time.
#[derive(Clone, Copy, Debug, PartialEq, Eq, Structural)]
pub struct Choice {
    /// It is the best one so far.
    pub keep: bool,
    /// No better one follows.
    pub stop: bool,
}

/// The first frame is kept, and a later one while it is nearer; frames are decoded
/// until one is no nearer or reaches the time.
pub open spec fn choice_of(best: Option<i64>, pts: int, want: int) -> Choice {
    let keep = match best {
        Some(b) => off(pts, want) < off(b as int, want),
        None => true,
    };
    Choice { keep, stop: !keep || pts >= want }
}

fn apart(a: i64, b: i64) -> (d: i128)
    ensures
        d == off(a as int, b as int),
{
    if a < b {
        b as i128 - a as i128
    } else {
        a as i128 - b as i128
    }
}

/// What to do with a decoded frame on the way to the one at a time.
pub fn choose_frame(best: Option<i64>, pts: i64, want: i64) -> (c: Choice)
    ensures
        c == choice_of(best, pts as int, want as int),
{
    let keep: bool = match best {
        Some(b) => apart(pts, want) < apart(b, want),
        None => true,
    };
    Choice { keep, stop: !keep || pts >= want }
}

/// The place of the frame that a search keeps: of the frames from the `i`th on, given in
/// order, with the one at `best` kept so far. It stops where no better one follows.
pub open spec fn search_from(pts: Seq<i64>, want: int, i: int, best: Option<int>) -> Option<int>
    decreases pts.len() - i,
{
    if i < 0 || i >= pts.len() {
        best
    } else {
        let held = match best {
            Some(b) => Some(pts[b]),
            None => None,
        };
        let c = choice_of(held, pts[i] as int, want);
        let kept = if c.keep {
            Some(i)
        } else {
            best
        };
        if c.stop {
            kept
        } else {
            search_from(pts, want, i + 1, kept)
        }
    }
}

/// Over frames in the order of their times, a search gives the one nearest to a time, the
/// earlier of two that are as near; it gives none only where there is none.
pub proof fn law_search_gives_the_nearest(pts: Seq<i64>, want: int)
    requires
        forall|i: int, j: int| 0 <= i < j < pts.len() ==> pts[i] < pts[j],
    ensures
        search_from(pts, want, 0, None).is_some() == (pts.len() > 0),
        pts.len() > 0 ==> {
            let r = search_from(pts, want, 0, None).unwrap();
            &&& 0 <= r < pts.len()
            &&& forall|j: int|
                #![trigger pts[j]]
                0 <= j < pts.len() ==> off(pts[r] as int, want) <= off(pts[j] as int, want) && (off(
                    pts[j] as int,
                    want,
                ) == off(pts[r] as int, want) ==> r <= j)
        },
{
    if pts.len() > 0 {
        let c = choice_of(None, pts[0] as int, want);
        if !c.stop {
            lemma_search_on(pts, want, 1);
        }
    }
}

/// The search goes on as long as each frame is before the time, the last one the nearest
/// of them.
proof fn lemma_search_on(pts: Seq<i64>, want: int, i: int)
    requires
        forall|i: int, j: int| 0 <= i < j < pts.len() ==> pts[i] < pts[j],
        1 <= i <= pts.len(),
        pts[i - 1] < want,
    ensures
        ({
            let r = search_from(pts, want, i, Some(i - 1));
            &&& r.is_some()
            &&& 0 <= r.unwrap() < pts.len()
            &&& forall|j: int|
                #![trigger pts[j]]
                0 <= j < pts.len() ==> off(pts[r.unwrap()] as int, want) <= off(
                    pts[j] as int,
                    want,
                ) && (off(pts[j] as int, want) == off(pts[r.unwrap()] as int, want) ==> r.unwrap()
                    <= j)
        }),
    decreases pts.len() - i,
{
    if i < pts.len() {
        assert(pts[i - 1] < pts[i]);
        let c = choice_of(Some(pts[i - 1]), pts[i] as int, want);
        if !c.stop {
            lemma_search_on(pts, want, i + 1);
        }
    }
}

/// What comes back from a decoder.
#[derive(Clone, Copy, Debug, PartialEq, Eq, Structural)]
pub enum DecoderEvent {
    /// A frame was received.
    Frame,
    /// No frame was ready.
    Empty,
    /// A packet was sent to it.
    Fed,
    /// There was no packet left.
    Dry,
    /// It was told that no packet follows.
    Told,
}

/// What to do next with a decoder.
#[derive(Clone, Copy, Debug, PartialEq, Eq, Structural)]
pub enum DecoderAction {
    /// Ask it for a frame.
    Receive,
    /// Send it the next packet.
    Feed,
    /// Tell it that no packet follows.
    Tell,
    /// Hand out the frame.
    Give,
    /// There is no frame left.
    End,
}

/// What to do after an event, where `drained` says that the decoder was told of the end:
/// frames that are ready come first, packets are sent while there are any, and then what
/// the decoder still holds is taken until nothing is left.
pub open spec fn decoding(drained: bool, event: DecoderEvent) -> DecoderAction {
    match event {
        DecoderEvent::Frame => DecoderAction::Give,
        DecoderEvent::Empty => if drained {
            DecoderAction::End
        } else {
            DecoderAction::Feed
        },
        DecoderEvent::Fed => DecoderAction::Receive,
        DecoderEvent::Dry => DecoderAction::Tell,
        DecoderEvent::Told => DecoderAction::Receive,
    }
}

/// What to do next with a decoder.
pub fn decode_step(drained: bool, event: DecoderEvent) -> (a: DecoderAction)
    ensures
        a == decoding(drained, event),
{
    match event {
        DecoderEvent::Frame => DecoderAction::Give,
        DecoderEvent::Empty => {
            if drained {
                DecoderAction::End
            } else {
                DecoderAction::Feed
            }
        },
        DecoderEvent::Fed => DecoderAction::Receive,
        DecoderEvent::Dry => DecoderAction::Tell,
        DecoderEvent::Told => DecoderAction::Receive,
    }
}

/// Decoding ends only once the decoder knows of the end and has nothing left: no frame is
/// left behind.
pub proof fn law_no_frame_is_left_behind(drained: bool, event: DecoderEvent)
    ensures
        decoding(drained, event) == DecoderAction::End <==> drained && event == DecoderEvent::Empty,
        event == DecoderEvent::Frame ==> decoding(drained, event) == DecoderAction::Give,
{
}

/// The number with the bits of four bytes, the lowest first.
pub open spec fn float_of_bytes(b: Seq<u8>) -> u32 {
    (b[0] as int + 0x100 * b[1] as int + 0x1_0000 * b[2] as int + 0x100_0000 * b[3] as int) as u32
}

/// The numbers of a run of bytes, four for each; what is left over is dropped.
pub open spec fn floats_of(bytes: Seq<u8>) -> Seq<Float32> {
    Seq::new(
        bytes.len() / 4,
        |i: int| Float32 { bits: float_of_bytes(bytes.subrange(4 * i, 4 * i + 4)) },
    )
}

/// The numbers of a run of bytes.
pub fn pcm_to_floats(bytes: &Vec<u8>) -> (r: Vec<Float32>)
    ensures
        r@ == floats_of(bytes@),
{
    let n: usize = bytes.len() / 4;
    let mut r: Vec<Float32> = Vec::new();
    let mut i: usize = 0;
    while i < n
        invariant
            i <= n,
            n == bytes.len() / 4,
            r.len() == i,
            forall|k: int|
                0 <= k < i ==> #[trigger] r@[k] == (Float32 {
                    bits: float_of_bytes(bytes@.subrange(4 * k, 4 * k + 4)),
                }),
        decreases n - i,
    {
        let bits: u32 = bytes[4 * i] as u32 + 0x100 * bytes[4 * i + 1] as u32 + 0x1_0000
            * bytes[4 * i + 2] as u32 + 0x100_0000 * bytes[4 * i + 3] as u32;
        proof {
            let b = bytes@.subrange(4 * i, 4 * i + 4);
            assert(b[0] == bytes@[4 * i] && b[1] == bytes@[4 * i + 1] && b[2] == bytes@[4 * i + 2]
                && b[3] == bytes@[4 * i + 3]);
        }
        r.push(Float32 { bits });
        i = i + 1;
    }
    assert(r@ =~= floats_of(bytes@));
    r
}

/// The length of the longest of some planes.
pub open spec fn longest(planes: Seq<Seq<Float32>>) -> nat
    decreases planes.len(),
{
    if planes.len() == 0 {
        0
    } else {
        let before = longest(planes.drop_last());
        if planes.last().len() > before {
            planes.last().len()
        } else {
            before
        }
    }
}

/// The samples of some planes in turn; a plane that is too short is silent.
pub open spec fn interleaved(planes: Seq<Seq<Float32>>) -> Seq<Float32> {
    let n = planes.len();
    Seq::new(
        n * longest(planes),
        |i: int|
            {
                let p = planes[i % (n as int)];
                let s = i / (n as int);
                if s < p.len() {
                    p[s]
                } else {
                    Float32 { bits: 0 }
                }
            },
    )
}

/// The samples of some planes in turn.
pub fn interleave(planes: &Vec<Vec<Float32>>) -> (r: Vec<Float32>)
    ensures
        r@ == interleaved(views(planes@)),
{
    let ghost vs = views(planes@);
    let n: usize = planes.len();
    let mut most: usize = 0;
    let mut i: usize = 0;
    while i < n
        invariant
            i <= n,
            n == planes.len(),
            vs == views(planes@),
            most == longest(vs.take(i as int)),
        decreases n - i,
    {
        proof {
            assert(vs.take(i + 1).drop_last() =~= vs.take(i as int));
            assert(vs.take(i + 1).last() == planes@[i as int]@);
        }
        if planes[i].len() > most {
            most = planes[i].len();
        }
        i = i + 1;
    }
    assert(vs.take(n as int) =~= vs);
    let ghost all = interleaved(vs);
    let mut r: Vec<Float32> = Vec::new();
    let mut s: usize = 0;
    assert(0 * n as int == 0) by (nonlinear_arith);
    while s < most
        invariant
            s <= most,
            n == planes.len(),
            vs == views(planes@),
            most == longest(vs),
            all == interleaved(vs),
            r@.len() == s * n,
            forall|k: int| 0 <= k < r@.len() ==> #[trigger] r@[k] == all[k],
        decreases most - s,
    {
        let mut p: usize = 0;
        while p < n
            invariant
                s < most,
                p <= n,
                n == planes.len(),
                vs == views(planes@),
                most == longest(vs),
                all == interleaved(vs),
                r@.len() == s * n + p,
                forall|k: int| 0 <= k < r@.len() ==> #[trigger] r@[k] == all[k],
            decreases n - p,
        {
            proof {
                let k = s * n + p;
                vstd::arithmetic::div_mod::lemma_fundamental_div_mod_converse(
                    k,
                    n as int,
                    s as int,
                    p as int,
                );
                assert(vs[p as int] == planes@[p as int]@);
                assert(s * n + n <= n * most) by (nonlinear_arith)
                    requires
                        s + 1 <= most,
                        n > 0,
                ;
                assert(0 <= s * n) by (nonlinear_arith)
                    requires
                        s >= 0,
                        n >= 0,
                ;
            }
            let v: Float32 = if s < planes[p].len() {
                planes[p][s]
            } else {
                Float32 { bits: 0 }
            };
            r.push(v);
            p = p + 1;
        }
        proof {
            assert(s * n + n == (s + 1) * n) by (nonlinear_arith);
        }
        s = s + 1;
    }
    proof {
        lemma_mul_is_commutative(n as int, most as int);
        assert(r@ =~= all);
    }
    r
}

/// The lowest and highest of the samples `from..to` of a channel, with zero among
/// them.
pub open spec fn peak_of(pcm: Seq<Float32>, step: int, from: int, to: int) -> (Number, Number)
    decreases to - from,
{
    if from >= to {
        (num(0), num(0))
    } else {
        let (min, max) = peak_of(pcm, step, from, to - 1);
        let v = pcm[(to - 1) * step]@;
        (
            if less(v, min) {
                v
            } else {
                min
            },
            if less(max, v) {
                v
            } else {
                max
            },
        )
    }
}

/// The peaks of stretches of `per` samples from the `i`th of `n` on.
pub open spec fn peaks_from(pcm: Seq<Float32>, step: int, n: int, per: int, i: int) -> Seq<
    (Number, Number),
>
    decreases n - i,
{
    if i >= n || per <= 0 {
        Seq::empty()
    } else {
        let hi = if i + per < n {
            i + per
        } else {
            n
        };
        seq![peak_of(pcm, step, i, hi)] + peaks_from(pcm, step, n, per, hi)
    }
}

/// How many samples a bin holds: so many that `bins` bins are enough.
pub open spec fn samples_per_bin(n: int, bins: int) -> int {
    let per = to_integer(
        single(),
        Toward::Above,
        quotient(single(), num(n), num(bins)),
        0,
        u64::MAX as int,
    );
    if per > 1 {
        per
    } else {
        1
    }
}

/// The lowest and highest sample of each bin of the first channel.
pub open spec fn peaks_of(pcm: Seq<Float32>, channels: int, bins: int) -> Seq<(Number, Number)> {
    let step = if channels > 1 {
        channels
    } else {
        1
    };
    let n = pcm.len() as int / step;
    if n == 0 || bins == 0 {
        Seq::empty()
    } else {
        peaks_from(pcm, step, n, samples_per_bin(n, bins), 0)
    }
}

/// A sample lies between the peaks of a stretch that holds it.
proof fn lemma_peak_holds(pcm: Seq<Float32>, step: int, from: int, to: int, k: int)
    requires
        from <= k < to,
    ensures
        !less(pcm[k * step]@, peak_of(pcm, step, from, to).0),
        !less(peak_of(pcm, step, from, to).1, pcm[k * step]@),
    decreases to - from,
{
    reveal(less);
    lemma_peak_is_a_number(pcm, step, from, to - 1);
    if k < to - 1 {
        lemma_peak_holds(pcm, step, from, to - 1, k);
    }
}

proof fn lemma_peak_is_a_number(pcm: Seq<Float32>, step: int, from: int, to: int)
    ensures
        peak_of(pcm, step, from, to).0 != Number::Nan,
        peak_of(pcm, step, from, to).1 != Number::Nan,
    decreases to - from,
{
    reveal(less);
    lemma2_to64();
    law_integers_are_exact(single(), 0);
    if from < to {
        lemma_peak_is_a_number(pcm, step, from, to - 1);
    }
}

/// Some bin holds a sample.
proof fn lemma_bin_of(pcm: Seq<Float32>, step: int, n: int, per: int, i: int, k: int) -> (j: int)
    requires
        per > 0,
        i <= k < n,
    ensures
        0 <= j < peaks_from(pcm, step, n, per, i).len(),
        !less(pcm[k * step]@, peaks_from(pcm, step, n, per, i)[j].0),
        !less(peaks_from(pcm, step, n, per, i)[j].1, pcm[k * step]@),
    decreases n - i,
{
    let hi = if i + per < n {
        i + per
    } else {
        n
    };
    let rest = peaks_from(pcm, step, n, per, hi);
    assert(peaks_from(pcm, step, n, per, i) == seq![peak_of(pcm, step, i, hi)] + rest);
    if k < hi {
        lemma_peak_holds(pcm, step, i, hi, k);
        0
    } else {
        let j = lemma_bin_of(pcm, step, n, per, hi, k);
        assert((seq![peak_of(pcm, step, i, hi)] + rest)[j + 1] == rest[j]);
        j + 1
    }
}

/// No peak is lost: each sample of the first channel lies between the lowest and the
/// highest of some bin.
pub proof fn law_no_peak_is_lost(pcm: Seq<Float32>, channels: int, bins: int, k: int) -> (j: int)
    requires
        bins > 0,
        0 <= k < pcm.len() as int / (if channels > 1 { channels } else { 1 }),
    ensures
        ({
            let v = pcm[k * (if channels > 1 { channels } else { 1 })]@;
            let peaks = peaks_of(pcm, channels, bins);
            &&& 0 <= j < peaks.len()
            &&& !less(v, peaks[j].0)
            &&& !less(peaks[j].1, v)
        }),
{
    let step = if channels > 1 {
        channels
    } else {
        1
    };
    let n = pcm.len() as int / step;
    lemma_bin_of(pcm, step, n, samples_per_bin(n, bins), 0, k)
}

proof fn lemma_bins(pcm: Seq<Float32>, step: int, n: int, per: int, i: int)
    requires
        per > 0,
        i < n,
    ensures
        peaks_from(pcm, step, n, per, i).len() * per < n - i + per,
    decreases n - i,
{
    let hi = if i + per < n {
        i + per
    } else {
        n
    };
    let rest = peaks_from(pcm, step, n, per, hi);
    let all = peaks_from(pcm, step, n, per, i);
    assert(all.len() == 1 + rest.len());
    assert(all.len() * per == per + rest.len() * per) by (nonlinear_arith)
        requires
            all.len() == 1 + rest.len(),
    ;
    if hi < n {
        lemma_bins(pcm, step, n, per, hi);
    } else {
        assert(rest.len() * per == 0) by (nonlinear_arith)
            requires
                rest.len() == 0,
        ;
    }
}

/// Bins of so many samples are enough.
proof fn lemma_bins_are_enough(n: int, bins: int)
    requires
        0 < bins < n < 0x80_0000,
    ensures
        samples_per_bin(n, bins) * bins >= n,
{
    reveal(quotient);
    reveal(to_integer);
    let u = pow2(149);
    lemma2_to64();
    lemma2_to64_rest();
    lemma_pow2_pos(149);
    lemma_pow2_strictly_increases(64, 149);
    law_integers_are_exact(single(), n);
    law_integers_are_exact(single(), bins);
    let (w, b) = (n as nat * u, bins as nat * u);
    let a = w * u;
    let r = rounded(24, a, b);
    assert(b > 0) by (nonlinear_arith)
        requires
            b == bins as nat * u,
            bins > 0,
            u > 0,
    ;
    lemma_rounded_bound(24, a, b);
    // In units of the quotient: r * bins >= n * u - n * u / 2^24 - bins.
    assert(w * 0x100_0000 <= (r * bins) * 0x100_0000 + w + bins * 0x100_0000) by (nonlinear_arith)
        requires
            a * 0x100_0000 <= (r * b) * 0x100_0000 + a + b * 0x100_0000,
            a == w * u,
            b == bins as nat * u,
            bins > 0,
            u > 0,
    ;
    lemma_ratio_is_finite(n, bins);
    let down = r as int / u as int;
    let left = r as int % u as int;
    lemma_fundamental_div_mod(r as int, u as int);
    lemma_mod_bound(r as int, u as int);
    let c = if left != 0 {
        down + 1
    } else {
        down
    };
    assert(c * u >= r && c >= 0) by (nonlinear_arith)
        requires
            r == u * down + left,
            0 <= left < u,
            c == down || c == down + 1,
            left != 0 ==> c == down + 1,
            u > 0,
            r >= 0,
    ;
    assert((c * bins) * u >= r * bins) by (nonlinear_arith)
        requires
            c * u >= r,
            bins > 0,
    ;
    assert(c * bins >= n) by (nonlinear_arith)
        requires
            (c * bins) * u * 0x100_0000 >= w * 0x100_0000 - w - bins * 0x100_0000,
            w == n * u,
            n < 0x80_0000,
            bins < 0x80_0000,
            u >= 0x1_0000_0000_0000_0000,
    ;
    assert(c <= n) by (nonlinear_arith)
        requires
            r == u * down + left,
            0 <= left < u,
            c == (if left != 0 {
                down + 1
            } else {
                down
            }),
            u > 0,
            r <= n * u,
    ;
    let q = quotient(single(), num(n), num(bins));
    assert(q == (Number::Finite { negative: false, units: r }));
    assert(to_integer(single(), Toward::Above, q, 0, u64::MAX as int) == c);
    let per = samples_per_bin(n, bins);
    assert(per * bins >= c * bins) by (nonlinear_arith)
        requires
            per >= c,
            bins > 0,
    ;
}

proof fn lemma_ratio_is_finite(n: int, bins: int)
    requires
        0 < bins < n < 0x80_0000,
    ensures
        ({
            let u = pow2(149);
            let r = rounded(24, (n as nat * u) * u, bins as nat * u);
            &&& r <= n * u
            &&& r < pow2(277)
        }),
{
    let u = pow2(149);
    lemma2_to64();
    lemma_pow2_pos(149);
    assert(bins as nat * u > 0 && (n as nat * u) * u <= (n as nat * u) * (bins as nat * u))
        by (nonlinear_arith)
        requires
            bins >= 1,
            u > 0,
            n >= 0,
    ;
    lemma_rounded_within(24, (n as nat * u) * u, bins as nat * u, n as nat, 149);
    assert(n as nat * u <= 0x80_0000 * u) by (nonlinear_arith)
        requires
            0 <= n <= 0x80_0000,
    ;
    lemma_pow2_adds(23, 149);
    lemma_pow2_strictly_increases(172, 277);
}

/// There are no more bins than were asked for, below 2^23 samples.
pub proof fn law_peaks_fit_their_bins(pcm: Seq<Float32>, channels: int, bins: int)
    requires
        bins >= 0,
        pcm.len() as int / (if channels > 1 { channels } else { 1 }) < 0x80_0000,
    ensures
        peaks_of(pcm, channels, bins).len() <= bins,
{
    let step = if channels > 1 {
        channels
    } else {
        1
    };
    let n = pcm.len() as int / step;
    if n > 0 && bins > 0 {
        let per = samples_per_bin(n, bins);
        let count = peaks_of(pcm, channels, bins).len() as int;
        lemma_bins(pcm, step, n, per, 0);
        if bins < n {
            lemma_bins_are_enough(n, bins);
            assert(count <= bins) by (nonlinear_arith)
                requires
                    count * per < n + per,
                    per * bins >= n,
                    per >= 1,
            ;
        } else {
            assert(count <= bins) by (nonlinear_arith)
                requires
                    count * per < n + per,
                    per >= 1,
                    n <= bins,
                    n >= 1,
            ;
        }
    }
}

/// Peaks by their values.
pub open spec fn peak_views(peaks: Seq<(Float32, Float32)>) -> Seq<(Number, Number)> {
    Seq::new(peaks.len(), |i: int| (peaks[i].0@, peaks[i].1@))
}

fn peak(pcm: &Vec<Float32>, step: usize, from: usize, to: usize) -> (r: (Float32, Float32))
    requires
        step >= 1,
        from <= to,
        to <= pcm.len() / step,
    ensures
        (r.0@, r.1@) == peak_of(pcm@, step as int, from as int, to as int),
{
    let mut min: Float32 = n32(0);
    let mut max: Float32 = n32(0);
    let mut i: usize = from;
    while i < to
        invariant
            step >= 1,
            from <= i <= to,
            to <= pcm.len() / step,
            (min@, max@) == peak_of(pcm@, step as int, from as int, i as int),
        decreases to - i,
    {
        proof {
            lemma_fundamental_div_mod(pcm.len() as int, step as int);
            assert(i * step < pcm.len()) by (nonlinear_arith)
                requires
                    i + 1 <= to,
                    to <= pcm.len() as int / step as int,
                    pcm.len() as int == step * (pcm.len() as int / step as int) + pcm.len() as int
                        % step as int,
                    pcm.len() as int % step as int >= 0,
                    step >= 1,
            ;
        }
        let v: Float32 = pcm[i * step];
        if max.less_than(v) {
            max = v;
        }
        if v.less_than(min) {
            min = v;
        }
        i = i + 1;
    }
    (min, max)
}

/// Peaks of interleaved samples for a waveform of about `bins` bins.
pub fn compute_peaks(pcm: &Vec<Float32>, channels: u32, bins: usize) -> (r: Vec<(Float32, Float32)>)
    ensures
        peak_views(r@) == peaks_of(pcm@, channels as int, bins as int),
{
    let step: usize = if channels > 1 {
        channels as usize
    } else {
        1
    };
    let n: usize = pcm.len() / step;
    let mut out: Vec<(Float32, Float32)> = Vec::new();
    if n == 0 || bins == 0 {
        proof {
            assert(peak_views(out@) =~= Seq::empty());
        }
        return out;
    }
    let ceil: u64 = Float32::from_u64(n as u64).over(Float32::from_u64(bins as u64)).to_u64(
        Toward::Above,
    );
    let per: u64 = if ceil > 1 {
        ceil
    } else {
        1
    };
    let ghost all = peaks_from(pcm@, step as int, n as int, per as int, 0);
    let mut i: usize = 0;
    proof {
        assert(peak_views(out@) + all =~= all);
    }
    while i < n
        invariant
            i <= n,
            step >= 1,
            per >= 1,
            n == pcm.len() / step,
            peak_views(out@) + peaks_from(pcm@, step as int, n as int, per as int, i as int) == all,
        decreases n - i,
    {
        let hi: usize = if (n - i) as u64 > per {
            i + per as usize
        } else {
            n
        };
        let p: (Float32, Float32) = peak(pcm, step, i, hi);
        let ghost held = peak_views(out@);
        let ghost pv = (p.0@, p.1@);
        let ghost rest = peaks_from(pcm@, step as int, n as int, per as int, hi as int);
        out.push(p);
        proof {
            assert(peak_views(out@) =~= held.push(pv));
            assert(held.push(pv) + rest =~= held + (seq![pv] + rest));
        }
        i = hi;
    }
    proof {
        assert(peak_views(out@) + Seq::empty() =~= peak_views(out@));
    }
    out
}

/// A thumbnail of a video file: as much of its first frame as its size says.
pub open spec fn thumbnail_of(f: VideoFrame) -> (int, int, Seq<u8>) {
    let w = if f.width > 1 {
        f.width as int
    } else {
        1
    };
    let h = if f.height > 1 {
        f.height as int
    } else {
        1
    };
    (w, h, if w * h * 4 < f.rgba@.len() { f.rgba@.take(w * h * 4) } else { f.rgba@ })
}

/// A thumbnail of a video file from its first frame, or why there is none.
pub fn video_thumbnail(path: &str, first: Option<&VideoFrame>) -> (r: Result<
    (u32, u32, Vec<u8>),
    String,
>)
    ensures
        match (first, r) {
            (Some(f), Ok(t)) => (t.0 as int, t.1 as int, t.2@) == thumbnail_of(*f),
            (None, Err(e)) => e@ == "no decodable frame in "@ + path@,
            _ => false,
        },
{
    match first {
        Some(f) => {
            let w: u32 = if f.width > 1 {
                f.width
            } else {
                1
            };
            let h: u32 = if f.height > 1 {
                f.height
            } else {
                1
            };
            assert(0 <= w as int * h as int <= 0xffff_ffff * 0xffff_ffff) by (nonlinear_arith)
                requires
                    0 <= w <= 0xffff_ffff,
                    0 <= h <= 0xffff_ffff,
            ;
            let size: u128 = w as u128 * h as u128 * 4;
            let n: usize = if size < f.rgba.len() as u128 {
                size as usize
            } else {
                f.rgba.len()
            };
            let mut rgba: Vec<u8> = Vec::new();
            let mut i: usize = 0;
            while i < n
                invariant
                    i <= n <= f.rgba.len(),
                    rgba@ == f.rgba@.take(i as int),
                decreases n - i,
            {
                rgba.push(f.rgba[i]);
                i = i + 1;
                assert(rgba@ =~= f.rgba@.take(i as int));
            }
            assert(f.rgba@.take(f.rgba.len() as int) =~= f.rgba@);
            Ok((w, h, rgba))
        },
        None => {
            let mut e: String = "no decodable frame in ".to_string();
            e.append(path);
            Err(e)
        },
    }
}

/// A byte of a picture; zero outside it.
pub open spec fn byte_or_zero(rgba: Seq<u8>, i: int) -> u8 {
    if i < rgba.len() {
        rgba[i]
    } else {
        0
    }
}

pub open spec fn byte_at(rgba: Seq<u8>, i: int) -> Number {
    num(byte_or_zero(rgba, i) as int)
}

/// The place in the source of the `x`th pixel of a side scaled by `s`.
pub open spec fn source_place(x: int, s: Number) -> Number {
    let half = (Float32 { bits: HALF_BITS })@;
    difference(single(), product(single(), sum(single(), num(x), half), s), half)
}

/// The pixel at or before a place.
pub open spec fn pixel_before(place: Number) -> int {
    to_integer(single(), Toward::Zero, larger(place, num(0)), 0, u32::MAX as int)
}

/// The pixel after one of a side of `n`.
pub open spec fn pixel_after(x0: int, n: int) -> int {
    if x0 + 1 < n - 1 {
        x0 + 1
    } else {
        n - 1
    }
}

/// How far a place is from the pixel before it.
pub open spec fn fraction_of(place: Number, x0: int) -> Number {
    clamp_number(difference(single(), place, num(x0)), num(0), num(1))
}

/// The value between four corners.
pub open spec fn bilinear(
    a: Number,
    b: Number,
    c: Number,
    d: Number,
    fx: Number,
    fy: Number,
) -> Number {
    let s = single();
    clamp_number(
        sum(
            s,
            sum(
                s,
                sum(s, a, product(s, difference(s, b, a), fx)),
                product(s, difference(s, c, a), fy),
            ),
            product(
                s,
                product(s, sum(s, difference(s, difference(s, a, b), c), d), fx),
                fy,
            ),
        ),
        num(0),
        num(255),
    )
}

/// One channel at a place of a picture, between the four pixels around it.
pub open spec fn value_between(
    rgba: Seq<u8>,
    w: int,
    h: int,
    px: Number,
    py: Number,
    c: int,
) -> Number {
    let x0 = pixel_before(px);
    let y0 = pixel_before(py);
    let x1 = pixel_after(x0, w);
    let y1 = pixel_after(y0, h);
    bilinear(
        byte_at(rgba, (y0 * w + x0) * 4 + c),
        byte_at(rgba, (y0 * w + x1) * 4 + c),
        byte_at(rgba, (y1 * w + x0) * 4 + c),
        byte_at(rgba, (y1 * w + x1) * 4 + c),
        fraction_of(px, x0),
        fraction_of(py, y0),
    )
}

/// One channel of the pixel at `x`, `y` of a picture scaled from `w` by `h` to `tw` by
/// `th`.
pub open spec fn scaled_byte(
    rgba: Seq<u8>,
    w: int,
    h: int,
    tw: int,
    th: int,
    x: int,
    y: int,
    c: int,
) -> u8 {
    let px = source_place(x, quotient(single(), num(w), num(tw)));
    let py = source_place(y, quotient(single(), num(h), num(th)));
    to_integer(single(), Toward::Zero, value_between(rgba, w, h, px, py, c), 0, 255) as u8
}

pub open spec fn one_or_more(n: int) -> int {
    if n > 1 {
        n
    } else {
        1
    }
}

/// A picture scaled from `w` by `h` to `tw` by `th`, by the values between the four
/// nearest pixels.
pub open spec fn scaled(rgba: Seq<u8>, w: int, h: int, tw: int, th: int) -> Seq<u8> {
    let (w, h, tw, th) = (one_or_more(w), one_or_more(h), one_or_more(tw), one_or_more(th));
    Seq::new(
        (tw * th * 4) as nat,
        |i: int| scaled_byte(rgba, w, h, tw, th, (i / 4) % tw, (i / 4) / tw, i % 4),
    )
}

fn place_in_source(x: u32, s: Float32) -> (r: Float32)
    ensures
        r@ == source_place(x as int, s@),
{
    let half: Float32 = Float32 { bits: HALF_BITS };
    n32(x as i64).plus(half).times(s).minus(half)
}

fn read_byte(rgba: &Vec<u8>, w: u32, x: u32, y: u32, c: u32) -> (r: Float32)
    requires
        c < 4,
    ensures
        r@ == byte_at(rgba@, (y as int * w as int + x as int) * 4 + c),
{
    assert(0 <= y as int * w as int <= 0xffff_ffff * 0xffff_ffff) by (nonlinear_arith)
        requires
            0 <= y <= 0xffff_ffff,
            0 <= w <= 0xffff_ffff,
    ;
    let i: u128 = (y as u128 * w as u128 + x as u128) * 4 + c as u128;
    if i < rgba.len() as u128 {
        n32(rgba[i as usize] as i64)
    } else {
        n32(0)
    }
}

fn lerp(
    a: Float32,
    b: Float32,
    c: Float32,
    d: Float32,
    fx: Float32,
    fy: Float32,
) -> (r: Float32)
    ensures
        r@ == bilinear(a@, b@, c@, d@, fx@, fy@),
{
    a.plus(b.minus(a).times(fx)).plus(c.minus(a).times(fy)).plus(
        a.minus(b).minus(c).plus(d).times(fx).times(fy),
    ).clamped(n32(0), n32(255))
}

fn next_pixel(x0: u32, n: u32) -> (r: u32)
    requires
        n >= 1,
    ensures
        r == pixel_after(x0 as int, n as int),
{
    if (x0 as u64) + 1 < (n - 1) as u64 {
        x0 + 1
    } else {
        n - 1
    }
}

/// One channel at a place of a picture, by the values of the four nearest pixels.
pub fn sample_between(
    rgba: &Vec<u8>,
    w: u32,
    h: u32,
    px: Float32,
    py: Float32,
    c: u32,
) -> (r: Float32)
    requires
        w >= 1,
        h >= 1,
        c < 4,
    ensures
        r@ == value_between(rgba@, w as int, h as int, px@, py@, c as int),
{
    let x0: u32 = px.maximum(n32(0)).to_u32(Toward::Zero);
    let y0: u32 = py.maximum(n32(0)).to_u32(Toward::Zero);
    let x1: u32 = next_pixel(x0, w);
    let y1: u32 = next_pixel(y0, h);
    let fx: Float32 = px.minus(n32(x0 as i64)).clamped(n32(0), n32(1));
    let fy: Float32 = py.minus(n32(y0 as i64)).clamped(n32(0), n32(1));
    lerp(
        read_byte(rgba, w, x0, y0, c),
        read_byte(rgba, w, x1, y0, c),
        read_byte(rgba, w, x0, y1, c),
        read_byte(rgba, w, x1, y1, c),
        fx,
        fy,
    )
}

fn scale_pixel(
    rgba: &Vec<u8>,
    w: u32,
    h: u32,
    tw: u32,
    th: u32,
    sx: Float32,
    sy: Float32,
    x: u32,
    y: u32,
    c: u32,
) -> (r: u8)
    requires
        w >= 1,
        h >= 1,
        c < 4,
        sx@ == quotient(single(), num(w as int), num(tw as int)),
        sy@ == quotient(single(), num(h as int), num(th as int)),
    ensures
        r == scaled_byte(
            rgba@,
            w as int,
            h as int,
            tw as int,
            th as int,
            x as int,
            y as int,
            c as int,
        ),
{
    let px: Float32 = place_in_source(x, sx);
    let py: Float32 = place_in_source(y, sy);
    sample_between(rgba, w, h, px, py, c).to_u8(Toward::Zero)
}

/// Scales a picture to `tw` by `th` pixels.
pub fn scale_rgba(rgba: &Vec<u8>, w: u32, h: u32, tw: u32, th: u32) -> (out: Vec<u8>)
    requires
        one_or_more(tw as int) * one_or_more(th as int) * 4 <= u32::MAX,
    ensures
        out@ == scaled(rgba@, w as int, h as int, tw as int, th as int),
{
    let ghost all = scaled(rgba@, w as int, h as int, tw as int, th as int);
    let w: u32 = if w > 1 {
        w
    } else {
        1
    };
    let h: u32 = if h > 1 {
        h
    } else {
        1
    };
    let tw: u32 = if tw > 1 {
        tw
    } else {
        1
    };
    let th: u32 = if th > 1 {
        th
    } else {
        1
    };
    let sx: Float32 = n32(w as i64).over(n32(tw as i64));
    let sy: Float32 = n32(h as i64).over(n32(th as i64));
    let total: u64 = tw as u64 * th as u64;
    let mut out: Vec<u8> = Vec::new();
    let mut p: u64 = 0;
    while p < total
        invariant
            p <= total,
            total == tw as int * th as int,
            total * 4 <= u32::MAX,
            tw >= 1,
            w >= 1,
            h >= 1,
            sx@ == quotient(single(), num(w as int), num(tw as int)),
            sy@ == quotient(single(), num(h as int), num(th as int)),
            all == scaled(rgba@, w as int, h as int, tw as int, th as int),
            th >= 1,
            out@.len() == 4 * p,
            forall|k: int| 0 <= k < out@.len() ==> #[trigger] out@[k] == all[k],
        decreases total - p,
    {
        proof {
            assert(p / tw as u64 <= p) by (nonlinear_arith)
                requires
                    tw >= 1,
            ;
        }
        let x: u32 = (p % tw as u64) as u32;
        let y: u32 = (p / tw as u64) as u32;
        let mut c: u32 = 0;
        while c < 4
            invariant
                c <= 4,
                p < total,
                total == tw as int * th as int,
                total * 4 <= u32::MAX,
                tw >= 1,
                th >= 1,
                w >= 1,
                h >= 1,
                x == p as int % tw as int,
                y == p as int / tw as int,
                sx@ == quotient(single(), num(w as int), num(tw as int)),
                sy@ == quotient(single(), num(h as int), num(th as int)),
                all == scaled(rgba@, w as int, h as int, tw as int, th as int),
                out@.len() == 4 * p + c,
                forall|k: int| 0 <= k < out@.len() ==> #[trigger] out@[k] == all[k],
            decreases 4 - c,
        {
            let v: u8 = scale_pixel(rgba, w, h, tw, th, sx, sy, x, y, c);
            proof {
                let k = 4 * p + c;
                assert(k / 4 == p && k % 4 == c);
            }
            out.push(v);
            c = c + 1;
        }
        p = p + 1;
    }
    assert(out@ =~= all);
    out
}

/// A scaled picture has the size that was asked for, at least one pixel.
pub proof fn law_scaled_size(rgba: Seq<u8>, w: int, h: int, tw: int, th: int)
    ensures
        scaled(rgba, w, h, tw, th).len() == one_or_more(tw) * one_or_more(th) * 4,
{
    assert(one_or_more(tw) * one_or_more(th) >= 0) by (nonlinear_arith)
        requires
            one_or_more(tw) >= 0,
            one_or_more(th) >= 0,
    ;
}

/// An error of the image decoders.
#[verifier::external_type_specification]
#[verifier::external_body]
pub struct ExImageError(image::ImageError);

/// The picture in the bytes of an image file with a name: width, height and RGBA8
/// pixels; nothing where the name has no known extension or the bytes are no such
/// image.
pub uninterp spec fn image_in(path: Seq<char>, bytes: Seq<u8>) -> Option<(u32, u32, Seq<u8>)>;

/// `image::load_from_memory_with_format` decodes the bytes of an image, here in the
/// format that the extension of its name stands for, and the picture is turned to
/// RGBA8. What it gives depends on the name and the bytes alone, and the buffer holds
/// at least four bytes for each pixel.
#[verifier::external_body]
fn decode_image(path: &str, bytes: &Vec<u8>) -> (r: Result<(u32, u32, Vec<u8>), image::ImageError>)
    ensures
        r.is_ok() == image_in(path@, bytes@).is_some(),
        r.is_ok() ==> (r.unwrap().0, r.unwrap().1, r.unwrap().2@) == image_in(
            path@,
            bytes@,
        ).unwrap(),
        r.is_ok() ==> r.unwrap().2@.len() >= r.unwrap().0 as int * r.unwrap().1 as int * 4,
{
    let format = image::ImageFormat::from_path(path)?;
    let rgba = image::load_from_memory_with_format(bytes, format)?.to_rgba8();
    Ok((rgba.width(), rgba.height(), rgba.into_raw()))
}

/// The still image in the bytes of a file, or the error on it.
pub fn load_image_rgba(path: &str, bytes: &Vec<u8>) -> (r: Result<(u32, u32, Vec<u8>), String>)
    ensures
        match image_in(path@, bytes@) {
            Some(pic) => r.is_ok() && (r.unwrap().0, r.unwrap().1, r.unwrap().2@) == pic,
            None => r matches Err(e) && e@ == "open image"@,
        },
{
    match decode_image(path, bytes) {
        Ok(pic) => Ok(pic),
        Err(_) => Err("open image".to_string()),
    }
}

/// At its first corner a patch has the value of that corner.
proof fn lemma_bilinear_corner(a: u8, b: u8, c: u8, d: u8)
    ensures
        bilinear(num(a as int), num(b as int), num(c as int), num(d as int), num(0), num(0))
            == num(a as int),
{
    let f = single();
    let (i, j, k, l) = (a as int, b as int, c as int, d as int);
    lemma2_to64();
    law_integers_are_exact(f, i);
    law_integers_are_exact(f, j);
    law_integers_are_exact(f, k);
    law_integers_are_exact(f, l);
    law_integers_are_exact(f, 0);
    law_integers_are_exact(f, 255);
    lemma_small_difference(j, i);
    lemma_small_difference(k, i);
    lemma_small_difference(i, j);
    lemma_small_difference(i - j, k);
    law_integer_sums_are_exact(f, i - j - k, l);
    lemma_times_zero(f, j - i);
    lemma_times_zero(f, k - i);
    lemma_times_zero(f, i - j - k + l);
    lemma_zero_times_zero(f, i - j - k + l < 0);
    lemma_plus_zero(f, i, j - i < 0);
    lemma_plus_zero(f, i, k - i < 0);
    lemma_plus_zero(f, i, i - j - k + l < 0);
    lemma_integers_in_order(f, i, 0);
    lemma_integers_in_order(f, 255, i);
}

/// On a pixel the value between the pixels is that of the pixel.
pub proof fn lemma_value_on_pixel(rgba: Seq<u8>, w: int, h: int, x: int, y: int, c: int)
    requires
        0 <= x < w < 0x100_0000,
        0 <= y < h < 0x100_0000,
        0 <= (y * w + x) * 4 + c < rgba.len(),
    ensures
        value_between(rgba, w, h, num(x), num(y), c) == num(rgba[(y * w + x) * 4 + c] as int),
{
    let f = single();
    lemma2_to64();
    law_integers_are_exact(f, x);
    law_integers_are_exact(f, y);
    law_integers_are_exact(f, 0);
    law_integers_are_exact(f, 1);
    lemma_integers_in_order(f, x, 0);
    lemma_integers_in_order(f, y, 0);
    lemma_integers_in_order(f, 0, 0);
    lemma_integers_in_order(f, 1, 0);
    law_integers_come_back(f, Toward::Zero, x, 0, u32::MAX as int);
    law_integers_come_back(f, Toward::Zero, y, 0, u32::MAX as int);
    lemma_itself(x);
    lemma_itself(y);
    let (x1, y1) = (pixel_after(x, w), pixel_after(y, h));
    lemma_bilinear_corner(
        byte_or_zero(rgba, (y * w + x) * 4 + c),
        byte_or_zero(rgba, (y * w + x1) * 4 + c),
        byte_or_zero(rgba, (y1 * w + x) * 4 + c),
        byte_or_zero(rgba, (y1 * w + x1) * 4 + c),
    );
}

/// A number minus itself.
proof fn lemma_itself(i: int)
    requires
        0 <= i < 0x100_0000,
    ensures
        difference(single(), integer(single(), i), integer(single(), i)) == integer(single(), 0),
{
    reveal(sum);
    assert(0 * pow2(149) == 0) by (nonlinear_arith);
}

/// In a picture that keeps its size each pixel stays at its place.
proof fn lemma_place_at_own_size(x: int)
    requires
        0 <= x < 0x80_0000,
    ensures
        source_place(x, num(1)) == num(x),
{
    lemma2_to64();
    law_integers_are_exact(single(), x);
    law_integers_are_exact(single(), 1);
    lemma_halves(x);
    lemma_sum_of_halves(2 * x, 1);
    lemma_halves_alone(2 * x + 1);
    lemma_sum_of_halves(2 * x + 1, 1);
}

/// A picture scaled to its own size stays as it is.
pub proof fn law_scaling_to_the_same_size(rgba: Seq<u8>, w: int, h: int)
    requires
        1 <= w <= 0x80_0000,
        1 <= h <= 0x80_0000,
        rgba.len() == w * h * 4,
    ensures
        scaled(rgba, w, h, w, h) == rgba,
{
    let f = single();
    let out = scaled(rgba, w, h, w, h);
    lemma2_to64();
    law_integers_are_exact(f, w);
    law_integers_are_exact(f, h);
    law_integers_are_exact(f, 1);
    lemma_over_itself(f, w);
    lemma_over_itself(f, h);
    assert forall|i: int| 0 <= i < rgba.len() implies #[trigger] out[i] == rgba[i] by {
        let p = i / 4;
        let (x, y) = (p % w, p / w);
        lemma_fundamental_div_mod(p, w);
        lemma_mul_is_commutative(w, y);
        assert(0 <= y < h) by (nonlinear_arith)
            requires
                0 <= p < w * h,
                w > 0,
                p == y * w + x,
                0 <= x < w,
        ;
        lemma_place_at_own_size(x);
        lemma_place_at_own_size(y);
        lemma_value_on_pixel(rgba, w, h, x, y, i % 4);
        law_integers_are_exact(f, rgba[i] as int);
        law_integers_come_back(f, Toward::Zero, rgba[i] as int, 0, 255);
    }
    assert(out =~= rgba);
}

/// A zero of either sign times a finite number.
proof fn lemma_zero_times(negative: bool, x: Number) -> (sign: bool)
    requires
        x is Finite,
    ensures
        product(single(), zero_with(negative), x) == zero_with(sign),
{
    reveal(product);
    let u = pow2(149);
    lemma_pow2_pos(149);
    lemma2_to64();
    if let Number::Finite { negative: n, units } = x {
        assert(0 * units == 0 && (0 * u) * u == 0 && 0 * u == 0) by (nonlinear_arith);
        lemma_exact(single(), negative != n, 0, 149, u);
        negative != n
    } else {
        false
    }
}

proof fn lemma_fraction_is_finite(place: Number, x0: int)
    requires
        place is Finite,
        0 <= x0 < 0x100_0000,
    ensures
        fraction_of(place, x0) is Finite,
{
    reveal(sum);
    reveal(less);
    lemma2_to64();
    law_integers_are_exact(single(), x0);
    law_integers_are_exact(single(), 0);
    law_integers_are_exact(single(), 1);
}

/// Every pixel of a picture has the same value in a channel.
pub open spec fn has_value(rgba: Seq<u8>, w: int, h: int, c: int, v: u8) -> bool {
    &&& rgba.len() == w * h * 4
    &&& forall|q: int| 0 <= q < w * h ==> #[trigger] rgba[4 * q + c] == v
}

/// A picture of one color has that color between its pixels too.
pub proof fn lemma_value_of_one_color(
    rgba: Seq<u8>,
    w: int,
    h: int,
    px: Number,
    py: Number,
    c: int,
    v: u8,
)
    requires
        0 < w < 0x100_0000,
        0 < h < 0x100_0000,
        0 <= c < 4,
        has_value(rgba, w, h, c, v),
        px is Finite,
        py is Finite,
        0 <= pixel_before(px) < w,
        0 <= pixel_before(py) < h,
    ensures
        value_between(rgba, w, h, px, py, c) == num(v as int),
{
    let f = single();
    let (x0, y0) = (pixel_before(px), pixel_before(py));
    let (x1, y1) = (pixel_after(x0, w), pixel_after(y0, h));
    lemma_one_pixel(rgba, w, h, c, v, x0, y0);
    lemma_one_pixel(rgba, w, h, c, v, x1, y0);
    lemma_one_pixel(rgba, w, h, c, v, x0, y1);
    lemma_one_pixel(rgba, w, h, c, v, x1, y1);
    let (fx, fy) = (fraction_of(px, x0), fraction_of(py, y0));
    lemma_fraction_is_finite(px, x0);
    lemma_fraction_is_finite(py, y0);
    let i = v as int;
    lemma2_to64();
    law_integers_are_exact(f, i);
    law_integers_are_exact(f, 0);
    law_integers_are_exact(f, 255);
    lemma_itself(i);
    assert(0 * pow2(149) == 0) by (nonlinear_arith);
    assert(integer(f, 0) == zero_with(false));
    let s1 = lemma_zero_times(false, fx);
    let s2 = lemma_zero_times(false, fy);
    let s3 = lemma_zero_times(s1, fy);
    lemma_plus_zero(f, i, s1);
    lemma_plus_zero(f, i, s2);
    lemma_plus_zero(f, i, s3);
    lemma_small_difference(0, i);
    law_integer_sums_are_exact(f, -i, i);
    lemma_integers_in_order(f, i, 0);
    lemma_integers_in_order(f, 255, i);
}

proof fn lemma_one_pixel(rgba: Seq<u8>, w: int, h: int, c: int, v: u8, x: int, y: int)
    requires
        0 <= x < w,
        0 <= y < h,
        0 <= c < 4,
        has_value(rgba, w, h, c, v),
    ensures
        byte_at(rgba, (y * w + x) * 4 + c) == num(v as int),
{
    let q = y * w + x;
    assert(0 <= q < w * h) by (nonlinear_arith)
        requires
            q == y * w + x,
            0 <= x < w,
            0 <= y < h,
    ;
    assert(rgba[4 * q + c] == v);
    assert((y * w + x) * 4 + c == 4 * q + c);
}

} // verus!
