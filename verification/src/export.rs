//! Export: what is rendered, frame by frame and sample by sample, and the form that
//! says how.

use crate::audio::{big, f64_of};
use crate::exact::{
    integer, law_integer_products_are_exact, law_integer_sums_are_exact, law_integers_are_exact,
    law_whole_quotients, lemma_rounded_bound,
};
use crate::float::{
    absolute, difference, double, less, magnitude, negated, number_of_bits64, of_integer, product,
    quotient, rounded, single, to_integer, Float32, Float64, Number, Toward,
};
use crate::project::{is_time, Project};
use crate::strings::{
    chars_of, ends_with, extend, finishes_with, lowercase, pieces, same_text, split, string_of,
};
use crate::timeline::{views, SECOND_US};
use vstd::arithmetic::div_mod::{lemma_fundamental_div_mod, lemma_mod_bound};
use vstd::arithmetic::power2::{
    lemma2_to64, lemma2_to64_rest, lemma_pow2_adds, lemma_pow2_pos, lemma_pow2_strictly_increases,
    pow2,
};
use vstd::prelude::*;
use vstd::string::*;

verus! {

/// How a project is rendered to a file.
#[derive(Debug, Clone)]
pub struct ExportConfig {
    pub path: String,
    pub width: u32,
    pub height: u32,
    pub fps: Float64,
    pub bitrate_kbps: u32,
    pub audio_only: bool,
    pub vp9: bool,
    /// The part to render; all of it where the end is not after the start.
    pub from_us: i64,
    pub to_us: i64,
}

/// What an export renders.
#[derive(Debug, Clone, Copy, PartialEq, Eq, Structural)]
pub struct ExportPlan {
    /// The time of the first frame.
    pub from_us: i64,
    /// The time from one frame to the next.
    pub rate_us: i64,
    pub total_frames: u64,
    pub total_samples: u64,
}

/// The part of a project of some duration that is rendered.
pub open spec fn export_range(cfg: ExportConfig, duration: int) -> (int, int) {
    if cfg.to_us > cfg.from_us {
        (cfg.from_us as int, cfg.to_us as int)
    } else {
        (0, duration)
    }
}

/// The whole microseconds from one frame to the next.
pub open spec fn export_rate(fps: Float64) -> int {
    to_integer(
        double(),
        Toward::Zero,
        quotient(double(), big(1_000_000), fps@),
        i64::MIN as int,
        i64::MAX as int,
    )
}

pub open spec fn at_least_1(n: int) -> int {
    if n > 1 {
        n
    } else {
        1
    }
}

/// How many frames cover a length.
pub open spec fn frame_count(length: int, rate: int) -> int {
    at_least_1(
        to_integer(
            double(),
            Toward::Above,
            quotient(double(), big(length), big(rate)),
            0,
            u64::MAX as int,
        ),
    )
}

/// The sample at 48 kHz at a time.
pub open spec fn sample_at(us: int) -> int {
    to_integer(
        double(),
        Toward::Zero,
        quotient(double(), product(double(), big(us), big(48_000)), big(1_000_000)),
        0,
        u64::MAX as int,
    )
}

/// What an export renders of a project of some duration.
pub open spec fn plan_of(cfg: ExportConfig, duration: int) -> ExportPlan {
    let (from, to) = export_range(cfg, duration);
    let rate = export_rate(cfg.fps);
    ExportPlan {
        from_us: from as i64,
        rate_us: rate as i64,
        total_frames: frame_count(to - from, rate) as u64,
        total_samples: at_least_1(sample_at(to - from)) as u64,
    }
}

fn to_sample(us: i64) -> (r: u64)
    ensures
        r == sample_at(us as int),
{
    f64_of(us).times(f64_of(48_000)).over(f64_of(1_000_000)).to_u64(Toward::Zero)
}

/// Plans an export; an empty timeline is refused.
pub fn export_project(project: &Project, cfg: &ExportConfig) -> (r: Result<ExportPlan, String>)
    requires
        project@.times_fit(),
        is_time(cfg.to_us - cfg.from_us),
    ensures
        if project@.duration() > 0 {
            r == Ok::<ExportPlan, String>(plan_of(*cfg, project@.duration()))
        } else {
            r matches Err(e) && e@ == "timeline is empty"@
        },
{
    let duration: i64 = project.duration_us();
    if duration <= 0 {
        return Err("timeline is empty".to_string());
    }
    let (from, length): (i64, i64) = if cfg.to_us > cfg.from_us {
        (cfg.from_us, cfg.to_us - cfg.from_us)
    } else {
        (0, duration)
    };
    let rate: i64 = f64_of(SECOND_US).over(cfg.fps).to_i64(Toward::Zero);
    let frames: u64 = f64_of(length).over(f64_of(rate)).to_u64(Toward::Above);
    let samples: u64 = to_sample(length);
    Ok(
        ExportPlan {
            from_us: from,
            rate_us: rate,
            total_frames: if frames > 1 {
                frames
            } else {
                1
            },
            total_samples: if samples > 1 {
                samples
            } else {
                1
            },
        },
    )
}

/// A stretch of samples of one frame, sent in chunks.
#[derive(Debug, Clone, Copy, PartialEq, Eq, Structural)]
pub struct Chunk {
    pub start: u64,
    /// How many of its samples are rendered; the rest is silence.
    pub take: usize,
}

/// The chunks from sample `s` up to `end`.
pub open spec fn chunks_from(s: int, end: int, size: int) -> Seq<Chunk>
    decreases (if s < end { end - s } else { 0 }),
{
    if s >= end || size <= 0 {
        Seq::empty()
    } else {
        let take = if end - s < size {
            end - s
        } else {
            size
        };
        seq![Chunk { start: s as u64, take: take as usize }] + chunks_from(s + size, end, size)
    }
}

impl ExportPlan {
    /// The offset of a frame from the first one can be computed.
    pub open spec fn reaches(self, f: int) -> bool {
        &&& is_time(f * self.rate_us)
        &&& is_time((f + 1) * self.rate_us)
        &&& is_time(self.from_us + f * self.rate_us)
    }

    /// Whether the offset of a frame can be computed.
    pub fn can_reach(&self, f: u64) -> (r: bool)
        ensures
            r == self.reaches(f as int),
    {
        let rate: i128 = self.rate_us as i128;
        assert(-0x8000_0000_0000_0000 * 0xffff_ffff_ffff_ffff <= (f as int) * (self.rate_us as int)
            <= 0x7fff_ffff_ffff_ffff * 0xffff_ffff_ffff_ffff) by (nonlinear_arith)
            requires
                0 <= f <= 0xffff_ffff_ffff_ffff,
                -0x8000_0000_0000_0000 <= self.rate_us <= 0x7fff_ffff_ffff_ffff,
        ;
        assert((f + 1) * (self.rate_us as int) == (f as int) * (self.rate_us as int) + self.rate_us)
            by (nonlinear_arith);
        let at: i128 = f as i128 * rate;
        let next: i128 = at + rate;
        let pts: i128 = self.from_us as i128 + at;
        let low: i128 = i64::MIN as i128;
        let high: i128 = i64::MAX as i128;
        low <= at && at <= high && low <= next && next <= high && low <= pts && pts <= high
    }

    /// The time of a frame.
    pub fn frame_pts(&self, f: u64) -> (r: i64)
        requires
            self.reaches(f as int),
        ensures
            r == self.from_us + f * self.rate_us,
    {
        let at: i64 = self.offset(f);
        self.from_us + at
    }

    fn offset(&self, f: u64) -> (r: i64)
        requires
            is_time(f * self.rate_us),
        ensures
            r == f * self.rate_us,
    {
        assert(-0x8000_0000_0000_0000 * 0xffff_ffff_ffff_ffff <= (f as int) * (self.rate_us as int)
            <= 0x7fff_ffff_ffff_ffff * 0xffff_ffff_ffff_ffff) by (nonlinear_arith)
            requires
                0 <= f <= 0xffff_ffff_ffff_ffff,
                -0x8000_0000_0000_0000 <= self.rate_us <= 0x7fff_ffff_ffff_ffff,
        ;
        let at: i128 = f as i128 * self.rate_us as i128;
        at as i64
    }

    /// The samples of a frame: from its time up to that of the next one, no further
    /// than the last sample.
    pub open spec fn samples_of_frame(self, f: int) -> (int, int) {
        let a = sample_at(f * self.rate_us);
        let b = sample_at((f + 1) * self.rate_us);
        (
            if a < self.total_samples {
                a
            } else {
                self.total_samples as int
            },
            if b < self.total_samples {
                b
            } else {
                self.total_samples as int
            },
        )
    }

    /// The chunks of samples to send with a frame.
    pub fn audio_chunks(&self, f: u64, size: usize) -> (r: Vec<Chunk>)
        requires
            self.reaches(f as int),
            f < u64::MAX,
            size >= 1,
        ensures
            r@ == chunks_from(
                self.samples_of_frame(f as int).0,
                self.samples_of_frame(f as int).1,
                size as int,
            ),
    {
        let a: u64 = to_sample(self.offset(f));
        let b: u64 = to_sample(self.offset(f + 1));
        let start: u64 = if a < self.total_samples {
            a
        } else {
            self.total_samples
        };
        let end: u64 = if b < self.total_samples {
            b
        } else {
            self.total_samples
        };
        let ghost all = chunks_from(start as int, end as int, size as int);
        let mut r: Vec<Chunk> = Vec::new();
        let mut s: u64 = start;
        let mut done: bool = false;
        assert(r@ + all =~= all);
        while !done && s < end
            invariant
                size >= 1,
                done ==> r@ == all,
                !done ==> r@ + chunks_from(s as int, end as int, size as int) == all,
            decreases (if done { 0int } else { 1int }), end - s,
        {
            let take: usize = if end - s < size as u64 {
                (end - s) as usize
            } else {
                size
            };
            let c: Chunk = Chunk { start: s, take };
            let ghost held = r@;
            let ghost rest = chunks_from(s + size, end as int, size as int);
            r.push(c);
            proof {
                assert(r@ + rest =~= held + (seq![c] + rest));
            }
            if end - s <= size as u64 {
                done = true;
                proof {
                    assert(rest =~= Seq::empty());
                    assert(r@ + rest =~= r@);
                }
            } else {
                s = s + size as u64;
            }
        }
        proof {
            if !done {
                assert(r@ + Seq::empty() =~= r@);
            }
        }
        r
    }

    /// How much of the export is done after a frame.
    pub fn progress(&self, f: u64) -> (r: Float32)
        requires
            f < u64::MAX,
        ensures
            r@ == quotient(
                single(),
                of_integer(single(), f + 1),
                of_integer(single(), self.total_frames as int),
            ),
    {
        Float32::from_u64(f + 1).over(Float32::from_u64(self.total_frames))
    }
}

/// How many samples some chunks render.
pub open spec fn taken(chunks: Seq<Chunk>) -> int
    decreases chunks.len(),
{
    if chunks.len() == 0 {
        0
    } else {
        taken(chunks.drop_first()) + chunks[0].take
    }
}

/// The chunks of a frame render its samples, each once: they follow each other, and
/// together they are as long as the stretch.
pub proof fn law_chunks_cover(s: int, end: int, size: int)
    requires
        0 <= s,
        end <= u64::MAX,
        1 <= size <= usize::MAX,
    ensures
        s <= end ==> taken(chunks_from(s, end, size)) == end - s,
        chunks_from(s, end, size).len() > 0 ==> chunks_from(s, end, size)[0].start == s,
        forall|i: int|
            0 < i < chunks_from(s, end, size).len() ==> (#[trigger] chunks_from(s, end, size)[i]).start
                == s + i * size,
    decreases (if s < end { end - s } else { 0 }),
{
    if s < end {
        let rest = chunks_from(s + size, end, size);
        let all = chunks_from(s, end, size);
        law_chunks_cover(s + size, end, size);
        assert(all.drop_first() =~= rest);
        let take = if end - s < size {
            end - s
        } else {
            size
        };
        assert(all[0].take == take);
        assert(taken(all) == taken(rest) + take);
        if s + size >= end {
            assert(rest =~= Seq::empty());
            assert(taken(rest) == 0);
        }
        assert forall|i: int| 0 < i < all.len() implies (#[trigger] all[i]).start == s + i * size by {
            assert(all[i] == rest[i - 1]);
            assert(s + size + (i - 1) * size == s + i * size) by (nonlinear_arith);
            if i == 1 {
                assert(rest[0].start == s + size);
            }
        }
    }
}

/// The samples of one frame end where those of the next one begin, and none lies
/// past the last sample.
pub proof fn law_frames_share_no_samples(p: ExportPlan, f: int)
    ensures
        p.samples_of_frame(f).1 == p.samples_of_frame(f + 1).0,
        p.samples_of_frame(f).1 <= p.total_samples,
{
}

/// A sample lies at its time: so many 48ths of a thousandth of a second have passed, and not
/// one more.
pub proof fn law_samples_keep_time(us: int)
    requires
        0 <= us,
        us * 48_000 < 0x20_0000_0000_0000,
    ensures
        sample_at(us) * 1_000_000 <= us * 48_000 < (sample_at(us) + 1) * 1_000_000,
{
    let d = double();
    lemma2_to64_rest();
    law_integers_are_exact(d, us);
    law_integers_are_exact(d, 48_000);
    law_integers_are_exact(d, 1_000_000);
    law_integer_products_are_exact(d, us, 48_000);
    law_whole_quotients(d, us * 48_000, 1_000_000, 0, u64::MAX as int);
    lemma_fundamental_div_mod(us * 48_000, 1_000_000);
}

/// The frames of an export fit the chosen rate: for a whole number of frames per second,
/// that many times the step from one frame to the next fills a second but for less than
/// one microsecond each. They cover the chosen part, or the whole timeline where none is
/// chosen, the last of them begins inside it, and so do the samples.
pub proof fn law_exports_keep_their_rate(cfg: ExportConfig, duration: int, fps: int)
    requires
        1 <= fps <= 1_000_000,
        cfg.fps@ == big(fps),
        cfg.from_us < cfg.to_us || 0 < duration,
        (if cfg.from_us < cfg.to_us {
            cfg.to_us - cfg.from_us
        } else {
            duration
        }) * 48_000 < 0x20_0000_0000_0000,
    ensures
        ({
            let p = plan_of(cfg, duration);
            let length = if cfg.from_us < cfg.to_us {
                cfg.to_us - cfg.from_us
            } else {
                duration
            };
            let n = p.total_samples as int;
            &&& p.from_us == (if cfg.from_us < cfg.to_us {
                cfg.from_us
            } else {
                0
            })
            &&& fps * p.rate_us <= 1_000_000 < fps * (p.rate_us + 1)
            &&& (p.total_frames - 1) * p.rate_us < length <= p.total_frames * p.rate_us
            &&& length * 48_000 < (n + 1) * 1_000_000
            &&& n * 1_000_000 <= length * 48_000 || n == 1
        }),
{
    let d = double();
    let p = plan_of(cfg, duration);
    let length = if cfg.from_us < cfg.to_us {
        cfg.to_us - cfg.from_us
    } else {
        duration
    };
    lemma2_to64_rest();
    law_integers_are_exact(d, fps);
    law_integers_are_exact(d, 1_000_000);
    law_whole_quotients(d, 1_000_000, fps, i64::MIN as int, i64::MAX as int);
    let rate = 1_000_000int / fps;
    let rest = 1_000_000int % fps;
    lemma_fundamental_div_mod(1_000_000, fps);
    lemma_mod_bound(1_000_000, fps);
    assert(1 <= rate <= 1_000_000 && fps * (rate + 1) == fps * rate + fps) by (nonlinear_arith)
        requires
            1_000_000 == fps * rate + rest,
            0 <= rest < fps,
            1 <= fps <= 1_000_000,
    ;
    law_integers_are_exact(d, length);
    law_integers_are_exact(d, rate);
    law_whole_quotients(d, length, rate, 0, u64::MAX as int);
    let frames = (length + rate - 1) / rate;
    lemma_fundamental_div_mod(length + rate - 1, rate);
    lemma_mod_bound(length + rate - 1, rate);
    assert(1 <= frames <= length && (frames - 1) * rate < length <= frames * rate)
        by (nonlinear_arith)
        requires
            length + rate - 1 == rate * frames + (length + rate - 1) % rate,
            0 <= (length + rate - 1) % rate < rate,
            length >= 1,
            rate >= 1,
    ;
    law_samples_keep_time(length);
}

/// The same at any rate of at least one frame per second, be it whole or not: as many steps
/// as there are frames in a second fill it but for one microsecond each, up to what numbers
/// can tell. `units` counts the smallest numbers in the rate.
pub proof fn law_exports_keep_fractional_rates(cfg: ExportConfig, duration: int, units: nat)
    requires
        cfg.fps@ == (Number::Finite { negative: false, units }),
        pow2(1074) <= units <= 1_000_000 * pow2(1074),
    ensures
        plan_of(cfg, duration).rate_us * units <= 1_000_001 * pow2(1074),
        999_999 * pow2(1074) < (plan_of(cfg, duration).rate_us + 1) * units,
{
    let d = double();
    let u = pow2(1074) as int;
    let w = pow2(53) as int;
    let v = units as int;
    reveal(quotient);
    reveal(to_integer);
    lemma2_to64_rest();
    lemma_pow2_pos(1074);
    lemma_pow2_strictly_increases(60, 1074);
    law_integers_are_exact(d, 1_000_000);
    let a = ((1_000_000 * u) * u) as nat;
    let q = rounded(53, a, units);
    lemma_rounded_bound(53, a, units);
    let qi = q as int;
    assert(qi * v * w <= 1_000_000 * u * u * (w + 1) + v * w && 1_000_000 * u * u * w <= qi * v * w
        + 1_000_000 * u * u + v * w) by (nonlinear_arith)
        requires
            (q * units) * pow2(53) <= a * (pow2(53) + 1) + units * pow2(53),
            a * pow2(53) <= (q * units) * pow2(53) + a + units * pow2(53),
            a == (1_000_000 * u) * u,
            qi == q,
            v == units,
            w == pow2(53),
    ;
    assert(qi <= 1_000_001 * u) by (nonlinear_arith)
        requires
            qi * v * w <= 1_000_000 * u * u * (w + 1) + v * w,
            u <= v,
            w >= 0x20_0000_0000_0000,
            u >= w,
    ;
    lemma2_to64();
    lemma_pow2_adds(1074, 20);
    lemma_pow2_strictly_increases(1094, 2098);
    assert(quotient(d, big(1_000_000), cfg.fps@) == (Number::Finite { negative: false, units: q }));
    let rate = qi / u;
    let rest = qi % u;
    lemma_fundamental_div_mod(qi, u);
    lemma_mod_bound(qi, u);
    assert(0 <= rate <= 1_000_001) by (nonlinear_arith)
        requires
            qi == u * rate + rest,
            0 <= rest < u,
            0 <= qi <= 1_000_001 * u,
            u > 0,
    ;
    assert(plan_of(cfg, duration).rate_us == rate);
    assert(rate * v * w <= 1_000_000 * u * (w + 1) + 1_000_000 * w) by (nonlinear_arith)
        requires
            qi * v * w <= 1_000_000 * u * u * (w + 1) + v * w,
            qi == u * rate + rest,
            0 <= rest,
            0 < v <= 1_000_000 * u,
            w > 0,
            u > 0,
    ;
    assert(rate * v <= 1_000_001 * u) by (nonlinear_arith)
        requires
            rate * v * w <= 1_000_000 * u * (w + 1) + 1_000_000 * w,
            w >= 0x20_0000_0000_0000,
            u >= w,
    ;
    assert(1_000_000 * u * w <= (rate + 1) * v * w + 1_000_000 * u + 1_000_000 * w)
        by (nonlinear_arith)
        requires
            1_000_000 * u * u * w <= qi * v * w + 1_000_000 * u * u + v * w,
            qi == u * rate + rest,
            rest < u,
            0 < v <= 1_000_000 * u,
            w > 0,
            u > 0,
    ;
    assert(999_999 * u < (rate + 1) * v) by (nonlinear_arith)
        requires
            1_000_000 * u * w <= (rate + 1) * v * w + 1_000_000 * u + 1_000_000 * w,
            w >= 0x20_0000_0000_0000,
            u >= w,
    ;
}

/// Each sample of an export goes with exactly one frame: the first frame begins at the first
/// sample, each other one where the one before it ends, and at the right time.
pub proof fn law_frames_carry_their_samples(p: ExportPlan, f: int)
    requires
        0 <= f,
        0 < p.rate_us,
        (f + 1) * p.rate_us * 48_000 < 0x20_0000_0000_0000,
    ensures
        ({
            let (a, b) = p.samples_of_frame(f);
            let (now, next) = (f * p.rate_us, (f + 1) * p.rate_us);
            &&& f == 0 ==> a == 0
            &&& a <= b <= p.total_samples
            &&& a < p.total_samples ==> a * 1_000_000 <= now * 48_000 < (a + 1) * 1_000_000
            &&& b < p.total_samples ==> b * 1_000_000 <= next * 48_000 < (b + 1) * 1_000_000
            &&& b == p.samples_of_frame(f + 1).0
        }),
{
    let rate = p.rate_us as int;
    let (now, next) = (f * rate, (f + 1) * rate);
    assert(0 <= now < next && now * 48_000 < next * 48_000) by (nonlinear_arith)
        requires
            now == f * rate,
            next == (f + 1) * rate,
            f >= 0,
            rate > 0,
    ;
    assert((f + 1) * p.rate_us * 48_000 == next * 48_000);
    law_samples_keep_time(now);
    law_samples_keep_time(next);
}

/// The choices of size and rate.
#[derive(Debug, Clone, Copy, PartialEq, Eq, Structural)]
pub enum Preset {
    FullHd30,
    FullHd60,
    Uhd30,
    Portrait,
    Custom,
}

/// The name of a preset.
pub open spec fn preset_label(p: Preset) -> Seq<char> {
    match p {
        Preset::FullHd30 => "1080p 30"@,
        Preset::FullHd60 => "1080p 60"@,
        Preset::Uhd30 => "4K 30"@,
        Preset::Portrait => "9:16 1080p"@,
        Preset::Custom => "Custom"@,
    }
}

/// The width, height and frame rate of a preset.
pub open spec fn preset_values(p: Preset) -> (u32, u32, int) {
    match p {
        Preset::FullHd30 => (1920, 1080, 30),
        Preset::FullHd60 => (1920, 1080, 60),
        Preset::Uhd30 => (3840, 2160, 30),
        Preset::Portrait => (1080, 1920, 30),
        Preset::Custom => (0, 0, 0),
    }
}

pub fn preset_name(p: Preset) -> (r: &'static str)
    ensures
        r@ == preset_label(p),
{
    match p {
        Preset::FullHd30 => "1080p 30",
        Preset::FullHd60 => "1080p 60",
        Preset::Uhd30 => "4K 30",
        Preset::Portrait => "9:16 1080p",
        Preset::Custom => "Custom",
    }
}

/// The presets in the order of their listing.
pub fn presets() -> (r: Vec<Preset>)
    ensures
        r@ == seq![
            Preset::FullHd30,
            Preset::FullHd60,
            Preset::Uhd30,
            Preset::Portrait,
            Preset::Custom,
        ],
{
    let r: Vec<Preset> = vec![
        Preset::FullHd30,
        Preset::FullHd60,
        Preset::Uhd30,
        Preset::Portrait,
        Preset::Custom,
    ];
    assert(r@ =~= seq![
        Preset::FullHd30,
        Preset::FullHd60,
        Preset::Uhd30,
        Preset::Portrait,
        Preset::Custom,
    ]);
    r
}

/// A size and rate are those of a preset, the rate to a hundredth.
pub open spec fn is_preset(p: Preset, w: u32, h: u32, fps: Number) -> bool {
    let (pw, ph, pf) = preset_values(p);
    &&& w == pw
    &&& h == ph
    &&& less(absolute(difference(double(), fps, big(pf))), (Float64 { bits: 0x3f84_7ae1_47ae_147b })@)
}

/// The preset of a size and rate: the first that it matches, else a custom one.
pub open spec fn preset_for(w: u32, h: u32, fps: Number) -> Preset {
    if is_preset(Preset::FullHd30, w, h, fps) {
        Preset::FullHd30
    } else if is_preset(Preset::FullHd60, w, h, fps) {
        Preset::FullHd60
    } else if is_preset(Preset::Uhd30, w, h, fps) {
        Preset::Uhd30
    } else if is_preset(Preset::Portrait, w, h, fps) {
        Preset::Portrait
    } else {
        Preset::Custom
    }
}

fn matches_preset(p: Preset, w: u32, h: u32, fps: Float64) -> (r: bool)
    ensures
        r == is_preset(p, w, h, fps@),
{
    let (pw, ph, pf): (u32, u32, i64) = match p {
        Preset::FullHd30 => (1920, 1080, 30),
        Preset::FullHd60 => (1920, 1080, 60),
        Preset::Uhd30 => (3840, 2160, 30),
        Preset::Portrait => (1080, 1920, 30),
        Preset::Custom => (0, 0, 0),
    };
    w == pw && h == ph && fps.minus(f64_of(pf)).magnitude().less_than(
        Float64 { bits: 0x3f84_7ae1_47ae_147b },
    )
}

/// The form of an export.
#[derive(Debug, Clone)]
pub struct ExportForm {
    pub path: String,
    pub width: u32,
    pub height: u32,
    pub fps: Float64,
    pub bitrate: u32,
    /// One for VP9, else H.264.
    pub codec: u8,
    pub audio_only: bool,
    /// Only the loop region.
    pub range: bool,
}

/// The text with `to` for every place where `from` stands.
pub open spec fn replaced(s: Seq<char>, from: Seq<char>, to: Seq<char>) -> Seq<char> {
    joined_by(pieces(s, from), to)
}

pub open spec fn joined_by(ps: Seq<Seq<char>>, by: Seq<char>) -> Seq<char>
    decreases ps.len(),
{
    if ps.len() == 0 {
        Seq::empty()
    } else if ps.len() == 1 {
        ps[0]
    } else {
        joined_by(ps.drop_last(), by) + by + ps.last()
    }
}

fn replace(s: &Vec<char>, from: &Vec<char>, to: &Vec<char>) -> (r: Vec<char>)
    requires
        from.len() > 0,
    ensures
        r@ == replaced(s@, from@, to@),
{
    let ps: Vec<Vec<char>> = split(s, from);
    let ghost vs = views(ps@);
    let mut r: Vec<char> = Vec::new();
    let mut i: usize = 0;
    while i < ps.len()
        invariant
            i <= ps.len(),
            vs == views(ps@),
            r@ == joined_by(vs.take(i as int), to@),
        decreases ps.len() - i,
    {
        proof {
            assert(vs.take(i + 1).drop_last() =~= vs.take(i as int));
            assert(vs.take(i + 1).last() == ps@[i as int]@);
        }
        if i > 0 {
            extend(&mut r, to);
        } else {
            assert(r@ + ps@[0]@ =~= ps@[0]@);
        }
        extend(&mut r, &ps[i]);
        i = i + 1;
    }
    assert(vs.take(ps.len() as int) =~= vs);
    r
}

/// The name ends as that of a sound file.
pub open spec fn is_m4a(path: Seq<char>) -> bool {
    ends_with(lowercase(path), ".m4a"@)
}

/// The file can be rendered to: it has a name, and that of a sound file where there
/// is only sound.
pub open spec fn can_render(path: Seq<char>, audio_only: bool) -> bool {
    path.len() > 0 && (audio_only ==> is_m4a(path))
}

/// The file that is rendered to.
pub open spec fn render_path(path: Seq<char>, audio_only: bool) -> Seq<char> {
    if audio_only && !is_m4a(path) {
        replaced(path, ".mp4"@, ".m4a"@)
    } else {
        path
    }
}

/// Whether a name that was turned to lower case ends as that of a sound file.
pub fn ends_as_sound(lower: &str) -> (r: bool)
    ensures
        r == ends_with(lower@, ".m4a"@),
{
    finishes_with(&chars_of(lower), &chars_of(".m4a"))
}

/// The file to render to, given whether its name ends as that of a sound file.
pub fn output_path(path: &str, audio_only: bool, sound_name: bool) -> (r: String)
    ensures
        r@ == (if audio_only && !sound_name {
            replaced(path@, ".mp4"@, ".m4a"@)
        } else {
            path@
        }),
{
    if audio_only && !sound_name {
        proof {
            reveal_strlit(".mp4");
        }
        string_of(&replace(&chars_of(path), &chars_of(".mp4"), &chars_of(".m4a")))
    } else {
        path.to_string()
    }
}

impl ExportForm {
    pub fn new() -> (f: ExportForm)
        ensures
            f.path@ == "out.mp4"@,
            f.width == 1920 && f.height == 1080,
            f.fps@ == big(30),
            f.bitrate == 8000,
            f.codec == 0 && !f.audio_only && !f.range,
    {
        ExportForm {
            path: "out.mp4".to_string(),
            width: 1920,
            height: 1080,
            fps: f64_of(30),
            bitrate: 8000,
            codec: 0,
            audio_only: false,
            range: false,
        }
    }

    /// The preset of the form's size and rate.
    pub fn preset(&self) -> (r: Preset)
        ensures
            r == preset_for(self.width, self.height, self.fps@),
    {
        if matches_preset(Preset::FullHd30, self.width, self.height, self.fps) {
            Preset::FullHd30
        } else if matches_preset(Preset::FullHd60, self.width, self.height, self.fps) {
            Preset::FullHd60
        } else if matches_preset(Preset::Uhd30, self.width, self.height, self.fps) {
            Preset::Uhd30
        } else if matches_preset(Preset::Portrait, self.width, self.height, self.fps) {
            Preset::Portrait
        } else {
            Preset::Custom
        }
    }

    /// Takes the size and rate of a preset; the custom one changes nothing.
    pub fn take_preset(&mut self, p: Preset)
        ensures
            p == Preset::Custom ==> *final(self) == *old(self),
            p != Preset::Custom ==> {
                &&& *final(self) == (ExportForm {
                    width: preset_values(p).0,
                    height: preset_values(p).1,
                    fps: final(self).fps,
                    ..*old(self)
                })
                &&& final(self).fps@ == big(preset_values(p).2)
            },
    {
        match p {
            Preset::FullHd30 => {
                self.width = 1920;
                self.height = 1080;
                self.fps = f64_of(30);
            },
            Preset::FullHd60 => {
                self.width = 1920;
                self.height = 1080;
                self.fps = f64_of(60);
            },
            Preset::Uhd30 => {
                self.width = 3840;
                self.height = 2160;
                self.fps = f64_of(30);
            },
            Preset::Portrait => {
                self.width = 1080;
                self.height = 1920;
                self.fps = f64_of(30);
            },
            Preset::Custom => {},
        }
    }

    /// Whether the file of the form can be rendered to.
    pub fn ready(&self) -> (r: bool)
        ensures
            r == can_render(self.path@, self.audio_only),
    {
        let lower: String = self.path.to_lowercase();
        chars_of(self.path.as_str()).len() > 0 && (!self.audio_only || ends_as_sound(lower.as_str()))
    }

    /// The configuration that the form stands for, in a project.
    pub fn config(&self, project: &Project) -> (c: ExportConfig)
        ensures
            c.path@ == render_path(self.path@, self.audio_only),
            c.width == self.width && c.height == self.height,
            c.fps == self.fps && c.bitrate_kbps == self.bitrate,
            c.audio_only == self.audio_only && c.vp9 == (self.codec == 1),
            c.from_us == (if self.range && project.loop_start.is_some() {
                project.loop_start.unwrap()
            } else {
                0
            }),
            c.to_us == (if self.range && project.loop_end.is_some() {
                project.loop_end.unwrap()
            } else {
                0
            }),
    {
        let lower: String = self.path.to_lowercase();
        let from_us: i64 = match project.loop_start {
            Some(s) => if self.range {
                s
            } else {
                0
            },
            None => 0,
        };
        let to_us: i64 = match project.loop_end {
            Some(e) => if self.range {
                e
            } else {
                0
            },
            None => 0,
        };
        ExportConfig {
            path: output_path(self.path.as_str(), self.audio_only, ends_as_sound(lower.as_str())),
            width: self.width,
            height: self.height,
            fps: self.fps,
            bitrate_kbps: self.bitrate,
            audio_only: self.audio_only,
            vp9: self.codec == 1,
            from_us,
            to_us,
        }
    }
}

/// The distance of two whole rates is whole.
proof fn lemma_rate_distance(f: int, g: int)
    requires
        1 <= f <= 60,
        1 <= g <= 60,
    ensures
        less(
            absolute(difference(double(), big(f), big(g))),
            (Float64 { bits: 0x3f84_7ae1_47ae_147b })@,
        ) == (f == g),
{
    reveal(less);
    reveal(number_of_bits64);
    lemma2_to64_rest();
    law_integers_are_exact(double(), f);
    law_integers_are_exact(double(), g);
    law_integer_sums_are_exact(double(), f, -g);
    let one = pow2(1074);
    lemma_pow2_pos(1074);
    assert(g * one > 0) by (nonlinear_arith)
        requires
            g >= 1,
            one > 0,
    ;
    assert(negated(integer(double(), g)) == integer(double(), -g));
    let limit = 0x14_7ae1_47ae_147bnat * pow2(1015);
    assert((Float64 { bits: 0x3f84_7ae1_47ae_147b })@ == (Number::Finite {
        negative: false,
        units: limit,
    }));
    lemma_pow2_pos(1015);
    lemma_pow2_adds(59, 1015);
    assert(limit > 0 && limit < one) by (nonlinear_arith)
        requires
            limit == 0x14_7ae1_47ae_147bnat * pow2(1015),
            pow2(1015) > 0,
            one == 0x800_0000_0000_0000nat * pow2(1015),
    ;
    let d = magnitude(f - g);
    if f == g {
        assert(d * one == 0) by (nonlinear_arith)
            requires
                d == 0,
        ;
    } else {
        assert(d * one >= one) by (nonlinear_arith)
            requires
                d >= 1,
        ;
    }
}

/// A form that took a preset shows that preset.
pub proof fn law_chosen_preset_shows(p: Preset)
    requires
        p != Preset::Custom,
    ensures
        preset_for(preset_values(p).0, preset_values(p).1, big(preset_values(p).2)) == p,
{
    lemma_rate_distance(30, 30);
    lemma_rate_distance(60, 30);
    lemma_rate_distance(60, 60);
}

/// How an export ended.
#[derive(Debug, Clone)]
pub enum ExportOutcome {
    Done,
    Failed(String),
    Panicked,
}

/// The message on how an export ended.
pub open spec fn outcome_text(o: ExportOutcome) -> Seq<char> {
    match o {
        ExportOutcome::Done => "Export complete."@,
        ExportOutcome::Failed(e) => if e@ == "export cancelled"@ {
            "Export cancelled."@
        } else {
            "Export failed: "@ + e@
        },
        ExportOutcome::Panicked => "Export thread panicked."@,
    }
}

/// The message on how an export ended.
pub fn outcome_message(o: &ExportOutcome) -> (r: String)
    ensures
        r@ == outcome_text(*o),
{
    match o {
        ExportOutcome::Done => "Export complete.".to_string(),
        ExportOutcome::Failed(e) => if same_text(e.as_str(), "export cancelled") {
            "Export cancelled.".to_string()
        } else {
            let mut m: String = "Export failed: ".to_string();
            m.append(e.as_str());
            m
        },
        ExportOutcome::Panicked => "Export thread panicked.".to_string(),
    }
}

} // verus!
