//! Audio mixing: the snapshot of what sounds, the samples that it gives for
//! playback and for export, and the timecode.

use crate::exact::{
    halves, integer, law_integer_products_are_exact, law_integer_sums_are_exact, law_integers_are_exact,
    law_integers_come_back, law_multiplication_by_one_is_exact, law_whole_quotients, lemma_exact,
    lemma_exact_quotient, lemma_halves, lemma_integers_in_order, lemma_plus_zero, lemma_rounded_bound,
    lemma_rounded_within, lemma_unsigned, unsigned, zero_with,
};
use crate::float::{
    difference, double, larger, less, narrowed, negated, no_more, number_of_bits32, of_integer, product,
    quotient, remainder, rounded, single, sum, to_integer, widened, Float32, Float64, Number, Toward,
};
use crate::pixel::{lemma_shared, num};
use crate::project::{is_time, Project, ProjectView};
use crate::strings::{two_digit_string, two_digits};
use crate::timeline::{
    copy_items, envelope_at, envelope_fits, envelope_gain, views, AudioClip, AudioClipView,
    Timecode, TrackView, HALF_BITS,
};
use vstd::arithmetic::div_mod::{
    lemma_div_pos_is_pos, lemma_fundamental_div_mod, lemma_fundamental_div_mod_converse,
};
use vstd::arithmetic::mul::lemma_mul_is_commutative;
use vstd::arithmetic::power2::{
    lemma2_to64, lemma2_to64_rest, lemma_pow2_adds, lemma_pow2_pos, lemma_pow2_strictly_increases,
    pow2,
};
use vstd::prelude::*;
use vstd::string::*;

verus! {

/// A clip of the mix: its samples, interleaved at 48 kHz, and how they sound.
#[derive(Debug, Clone)]
pub struct MixClip {
    pub pcm: Vec<Float32>,
    pub channels: usize,
    pub source_in: i64,
    pub source_out: i64,
    pub timeline_start: i64,
    /// Linear gain.
    pub gain: Float32,
    pub fade_in: i64,
    pub fade_out: i64,
    pub speed: Float32,
    pub envelope: Vec<(Timecode, Float32)>,
}

/// A clip of the mix by its values.
pub struct MixClipView {
    pub pcm: Seq<Float32>,
    pub channels: int,
    pub source_in: i64,
    pub source_out: i64,
    pub timeline_start: i64,
    pub gain: Number,
    pub fade_in: i64,
    pub fade_out: i64,
    pub speed: Float32,
    pub envelope: Seq<(Timecode, Float32)>,
}

impl View for MixClip {
    type V = MixClipView;

    open spec fn view(&self) -> MixClipView {
        MixClipView {
            pcm: self.pcm@,
            channels: self.channels as int,
            source_in: self.source_in,
            source_out: self.source_out,
            timeline_start: self.timeline_start,
            gain: self.gain@,
            fade_in: self.fade_in,
            fade_out: self.fade_out,
            speed: self.speed,
            envelope: self.envelope@,
        }
    }
}

/// What sounds: the clips of the audible tracks.
#[derive(Debug, Clone)]
pub struct MixSnapshot {
    pub clips: Vec<MixClip>,
    pub master_gain: Float32,
}

/// The linear gain of a level in decibels: silence at -90 and below, else ten to the
/// power of a twentieth of it, which is given.
pub open spec fn linear_gain(db: Number, power: Number) -> Number {
    if no_more(db, num(-90)) {
        num(0)
    } else {
        power
    }
}

/// The linear gain of a level in decibels; `power` is ten to the power of a twentieth
/// of it.
pub fn db_to_linear(db: Float32, power: Float32) -> (r: Float32)
    ensures
        r@ == linear_gain(db@, power@),
{
    if db.at_most(Float32::from_i64(-90)) {
        Float32::from_i64(0)
    } else {
        power
    }
}

/// Some track plays alone.
pub open spec fn any_solo(tracks: Seq<TrackView<AudioClipView>>) -> bool {
    exists|i: int| 0 <= i < tracks.len() && (#[trigger] tracks[i]).solo
}

/// A track is heard: it is not muted, and it plays alone where some track does.
pub open spec fn audible(tracks: Seq<TrackView<AudioClipView>>, i: int) -> bool {
    !tracks[i].muted && (any_solo(tracks) ==> tracks[i].solo)
}

/// The decoded samples of a clip are there.
pub open spec fn has_samples(p: ProjectView, c: AudioClipView) -> bool {
    p.assets.assets.contains_key(c.asset.0) && p.assets.assets[c.asset.0].pcm.is_some()
}

/// A clip of the mix: its gain is its own times that of its track.
pub open spec fn mix_clip(
    p: ProjectView,
    c: AudioClipView,
    power: Number,
    track_gain: Number,
) -> MixClipView {
    let a = p.assets.assets[c.asset.0];
    MixClipView {
        pcm: a.pcm.unwrap()@,
        channels: if a.channels > 1 {
            a.channels as int
        } else {
            1
        },
        source_in: c.source_in,
        source_out: c.source_out,
        timeline_start: c.timeline_start,
        gain: product(single(), linear_gain(c.gain_db@, power), track_gain),
        fade_in: c.fade_in_us,
        fade_out: c.fade_out_us,
        speed: c.speed,
        envelope: c.envelope,
    }
}

/// The clips of the mix among the first `n` of a track.
pub open spec fn track_mix(
    p: ProjectView,
    track: int,
    powers: Seq<Float32>,
    track_power: Number,
    n: int,
) -> Seq<MixClipView>
    decreases n,
{
    if n <= 0 {
        Seq::empty()
    } else {
        let before = track_mix(p, track, powers, track_power, n - 1);
        let c = p.audio_tracks[track].clips[n - 1];
        let track_gain = linear_gain(p.audio_tracks[track].gain_db@, track_power);
        if has_samples(p, c) {
            before.push(mix_clip(p, c, powers[n - 1]@, track_gain))
        } else {
            before
        }
    }
}

/// The clips of the mix on the first `n` tracks.
pub open spec fn mix_upto(
    p: ProjectView,
    powers: Seq<Seq<Float32>>,
    track_powers: Seq<Float32>,
    n: int,
) -> Seq<MixClipView>
    decreases n,
{
    if n <= 0 {
        Seq::empty()
    } else {
        let before = mix_upto(p, powers, track_powers, n - 1);
        if audible(p.audio_tracks, n - 1) {
            before + track_mix(
                p,
                n - 1,
                powers[n - 1],
                track_powers[n - 1]@,
                p.audio_tracks[n - 1].clips.len() as int,
            )
        } else {
            before
        }
    }
}

/// There is a power for each track, and for each clip of each track.
pub open spec fn powers_match(
    p: ProjectView,
    powers: Seq<Seq<Float32>>,
    track_powers: Seq<Float32>,
) -> bool {
    &&& powers.len() == p.audio_tracks.len()
    &&& track_powers.len() == p.audio_tracks.len()
    &&& forall|i: int|
        0 <= i < powers.len() ==> (#[trigger] powers[i]).len() == p.audio_tracks[i].clips.len()
}

fn solo_somewhere(project: &Project) -> (r: bool)
    ensures
        r == any_solo(project@.audio_tracks),
{
    let ghost ts = project@.audio_tracks;
    let mut i: usize = 0;
    while i < project.audio_tracks.len()
        invariant
            i <= project.audio_tracks.len(),
            ts == project@.audio_tracks,
            forall|k: int| 0 <= k < i ==> !(#[trigger] ts[k]).solo,
        decreases project.audio_tracks.len() - i,
    {
        if project.audio_tracks[i].solo {
            assert(ts[i as int].solo);
            return true;
        }
        i = i + 1;
    }
    false
}

/// The snapshot of what sounds in a project: the gain of a clip is its own times that of
/// its track, and the master gain comes last. `powers` holds, for each clip of each audio
/// track, ten to the power of a twentieth of its gain in decibels, `track_powers` the same
/// for each track, and `master_power` for the whole. Clips on tracks that are not heard,
/// and clips without samples, are left out.
pub fn build_snapshot(
    project: &Project,
    powers: &Vec<Vec<Float32>>,
    track_powers: &Vec<Float32>,
    master_power: Float32,
) -> (s: MixSnapshot)
    requires
        powers_match(project@, views(powers@), track_powers@),
    ensures
        views(s.clips@) == mix_upto(
            project@,
            views(powers@),
            track_powers@,
            project@.audio_tracks.len() as int,
        ),
        s.master_gain@ == linear_gain(project@.master_gain@, master_power@),
{
    let ghost p = project@;
    let ghost ps = views(powers@);
    let solo: bool = solo_somewhere(project);
    let mut clips: Vec<MixClip> = Vec::new();
    let mut i: usize = 0;
    assert(views(clips@) =~= mix_upto(p, ps, track_powers@, 0));
    while i < project.audio_tracks.len()
        invariant
            i <= project.audio_tracks.len(),
            p == project@,
            ps == views(powers@),
            powers_match(p, ps, track_powers@),
            solo == any_solo(p.audio_tracks),
            views(clips@) == mix_upto(p, ps, track_powers@, i as int),
        decreases project.audio_tracks.len() - i,
    {
        let ghost below = views(clips@);
        if !project.audio_tracks[i].muted && (!solo || project.audio_tracks[i].solo) {
            let source: &Vec<AudioClip> = &project.audio_tracks[i].clips;
            let power: &Vec<Float32> = &powers[i];
            let track_gain: Float32 = db_to_linear(project.audio_tracks[i].gain_db, track_powers[i]);
            let ghost q = track_powers@[i as int]@;
            proof {
                assert(ps[i as int] == power@);
                assert(ps[i as int].len() == p.audio_tracks[i as int].clips.len());
            }
            let mut j: usize = 0;
            assert(below + track_mix(p, i as int, power@, q, 0) =~= below);
            while j < source.len()
                invariant
                    i < project.audio_tracks.len(),
                    j <= source.len(),
                    p == project@,
                    source@ == project.audio_tracks@[i as int].clips@,
                    power.len() == source.len(),
                    views(clips@) == below + track_mix(p, i as int, power@, q, j as int),
                    track_gain@ == linear_gain(p.audio_tracks[i as int].gain_db@, q),
                decreases source.len() - j,
            {
                let c: &AudioClip = &source[j];
                let ghost held = views(clips@);
                let ghost before = track_mix(p, i as int, power@, q, j as int);
                assert(c@ == p.audio_tracks[i as int].clips[j as int]);
                if let Some(asset) = project.assets.get(c.asset) {
                    if let Some(pcm) = &asset.pcm {
                        let m: MixClip = MixClip {
                            pcm: copy_items(pcm),
                            channels: if asset.channels > 1 {
                                asset.channels as usize
                            } else {
                                1
                            },
                            source_in: c.source_in,
                            source_out: c.source_out,
                            timeline_start: c.timeline_start,
                            gain: db_to_linear(c.gain_db, power[j]).times(track_gain),
                            fade_in: c.fade_in_us,
                            fade_out: c.fade_out_us,
                            speed: c.speed,
                            envelope: copy_items(&c.envelope),
                        };
                        let ghost mv = m@;
                        clips.push(m);
                        proof {
                            assert(mv == mix_clip(p, c@, power@[j as int]@, track_gain@));
                            assert(views(clips@) =~= held.push(mv));
                            assert(held.push(mv) =~= below + before.push(mv));
                        }
                    }
                }
                j = j + 1;
            }
        }
        i = i + 1;
    }
    MixSnapshot { clips, master_gain: db_to_linear(project.master_gain, master_power) }
}

/// A track that is not heard, be it muted or beside one that plays alone, adds nothing
/// to the mix.
pub proof fn law_only_audible_tracks_sound(
    p: ProjectView,
    powers: Seq<Seq<Float32>>,
    track_powers: Seq<Float32>,
    track: int,
)
    requires
        0 <= track < p.audio_tracks.len(),
        !audible(p.audio_tracks, track),
    ensures
        mix_upto(p, powers, track_powers, track + 1) == mix_upto(p, powers, track_powers, track),
{
}

/// A number of the 64-bit format.
pub open spec fn big(i: int) -> Number {
    of_integer(double(), i)
}

/// Microseconds to samples of a rate, as a 64-bit number.
pub open spec fn samples_of(us: Number, rate: int) -> Number {
    quotient(double(), product(double(), us, big(rate)), big(1_000_000))
}

/// Samples of a rate to microseconds, as a 64-bit number.
pub open spec fn micros_of(samples: int, rate: int) -> Number {
    quotient(double(), product(double(), big(samples), big(1_000_000)), big(rate))
}

pub open spec fn to_index(x: Number) -> int {
    to_integer(double(), Toward::Zero, x, 0, u64::MAX as int)
}

pub open spec fn to_time(x: Number) -> int {
    to_integer(double(), Toward::Zero, x, i64::MIN as int, i64::MAX as int)
}

/// The length of the source of a clip, not below zero.
pub open spec fn source_length(c: MixClipView) -> int {
    if c.source_out > c.source_in {
        c.source_out - c.source_in
    } else {
        0
    }
}

/// The speed at which a clip sounds, at least a hundredth.
pub open spec fn mix_speed(c: MixClipView) -> Number {
    widened(larger(c.speed@, (Float32 { bits: 0x3c23_d70a })@))
}

/// How long a clip sounds, in microseconds.
pub open spec fn sounding_length(c: MixClipView) -> Number {
    quotient(double(), big(source_length(c)), mix_speed(c))
}

/// The first sample of a clip, and the one after its last.
pub open spec fn span_of(c: MixClipView, rate: int) -> (int, int) {
    let start = to_index(samples_of(big(c.timeline_start as int), rate));
    (start, start + to_index(samples_of(sounding_length(c), rate)))
}

/// The gain of a clip at a time from its start: its own, times its envelope, times
/// its fades.
pub open spec fn gain_at(c: MixClipView, local: Number) -> Number {
    let g = product(single(), c.gain, envelope_at(c.envelope, to_time(local)));
    let faded_in = if c.fade_in > 0 && less(local, big(c.fade_in as int)) {
        product(single(), g, narrowed(quotient(double(), local, big(c.fade_in as int))))
    } else {
        g
    };
    let rem = difference(double(), sounding_length(c), local);
    if c.fade_out > 0 && less(rem, big(c.fade_out as int)) && no_more(big(0), rem) {
        product(single(), faded_in, narrowed(quotient(double(), rem, big(c.fade_out as int))))
    } else {
        faded_in
    }
}

/// The frame of the source that sounds at a time from the start of a clip.
pub open spec fn source_frame(c: MixClipView, local: Number) -> int {
    let off = product(double(), local, mix_speed(c));
    to_index(
        sum(double(), samples_of(big(c.source_in as int), 48_000), samples_of(off, 48_000)),
    )
}

/// What a clip adds to a channel of sample `s` of an export.
pub open spec fn clip_sample(c: MixClipView, s: int, ch: int, rate: int) -> Option<Number> {
    let (start, end) = span_of(c, rate);
    if s < start || s >= end || c.channels == 0 {
        None
    } else {
        let local = micros_of(s - start, rate);
        let i = if c.channels == 1 {
            source_frame(c, local)
        } else {
            source_frame(c, local) * c.channels + ch
        };
        if i < c.pcm.len() {
            Some(product(single(), c.pcm[i]@, gain_at(c, local)))
        } else {
            None
        }
    }
}

/// The sum of what the first `n` clips add to a channel of sample `s`.
pub open spec fn summed(clips: Seq<MixClipView>, s: int, ch: int, rate: int, n: int) -> Number
    decreases n,
{
    if n <= 0 {
        num(0)
    } else {
        let before = summed(clips, s, ch, rate, n - 1);
        match clip_sample(clips[n - 1], s, ch, rate) {
            Some(v) => sum(single(), before, v),
            None => before,
        }
    }
}

/// A channel of sample `s` of an export.
pub open spec fn mixed_sample(clips: Seq<MixClipView>, master: Number, s: int, ch: int, rate: int) -> Number {
    product(single(), summed(clips, s, ch, rate, clips.len() as int), master)
}

/// Where no clip reaches, nothing is added: the export is silent there.
pub proof fn law_silence_where_no_clip_reaches(
    clips: Seq<MixClipView>,
    s: int,
    ch: int,
    rate: int,
    n: int,
)
    requires
        0 <= n <= clips.len(),
        forall|k: int|
            0 <= k < n ==> s < span_of(#[trigger] clips[k], rate).0 || s >= span_of(
                clips[k],
                rate,
            ).1,
    ensures
        summed(clips, s, ch, rate, n) == num(0),
    decreases n,
{
    if n > 0 {
        law_silence_where_no_clip_reaches(clips, s, ch, rate, n - 1);
        assert(clip_sample(clips[n - 1], s, ch, rate).is_none());
    }
}

/// The lengths and envelopes of the clips can be computed with.
pub open spec fn mixable(clips: Seq<MixClipView>) -> bool {
    forall|k: int| 0 <= k < clips.len() ==> clip_mixable(#[trigger] clips[k])
}

pub open spec fn clip_mixable(c: MixClipView) -> bool {
    is_time(source_length(c)) && envelope_fits(c.envelope)
}

/// The 64-bit number nearest to an integer.
pub fn f64_of(i: i64) -> (r: Float64)
    ensures
        r@ == big(i as int),
{
    Float64::from_i64(i)
}

fn to_samples(us: Float64, rate: u32) -> (r: Float64)
    ensures
        r@ == samples_of(us@, rate as int),
{
    us.times(f64_of(rate as i64)).over(f64_of(1_000_000))
}

impl MixClip {
    fn length_us(&self) -> (r: i64)
        requires
            is_time(source_length(self@)),
        ensures
            r == source_length(self@),
    {
        if self.source_out > self.source_in {
            self.source_out - self.source_in
        } else {
            0
        }
    }

    fn effective_speed(&self) -> (r: Float64)
        ensures
            r@ == mix_speed(self@),
    {
        self.speed.maximum(Float32 { bits: 0x3c23_d70a }).widen()
    }

    fn sounding_us(&self) -> (r: Float64)
        requires
            is_time(source_length(self@)),
        ensures
            r@ == sounding_length(self@),
    {
        f64_of(self.length_us()).over(self.effective_speed())
    }

    fn span(&self, rate: u32) -> (r: (u64, u128))
        requires
            is_time(source_length(self@)),
        ensures
            (r.0 as int, r.1 as int) == span_of(self@, rate as int),
    {
        let start: u64 = to_samples(f64_of(self.timeline_start), rate).to_u64(Toward::Zero);
        let count: u64 = to_samples(self.sounding_us(), rate).to_u64(Toward::Zero);
        (start, start as u128 + count as u128)
    }

    fn gain_now(&self, local: Float64) -> (r: Float32)
        requires
            clip_mixable(self@),
        ensures
            r@ == gain_at(self@, local@),
    {
        let mut g: Float32 = self.gain.times(
            envelope_gain(&self.envelope, local.to_i64(Toward::Zero)),
        );
        if self.fade_in > 0 && local.less_than(f64_of(self.fade_in)) {
            g = g.times(local.over(f64_of(self.fade_in)).narrow());
        }
        if self.fade_out > 0 {
            let rem: Float64 = self.sounding_us().minus(local);
            if rem.less_than(f64_of(self.fade_out)) && f64_of(0).at_most(rem) {
                g = g.times(rem.over(f64_of(self.fade_out)).narrow());
            }
        }
        g
    }

    fn frame_now(&self, local: Float64) -> (r: u64)
        ensures
            r == source_frame(self@, local@),
    {
        let off: Float64 = local.times(self.effective_speed());
        to_samples(f64_of(self.source_in), 48_000).plus(to_samples(off, 48_000)).to_u64(Toward::Zero)
    }

    fn sample(&self, s: u64, ch: usize, rate: u32) -> (r: Option<Float32>)
        requires
            clip_mixable(self@),
            ch < 2,
        ensures
            match clip_sample(self@, s as int, ch as int, rate as int) {
                Some(v) => r.is_some() && r.unwrap()@ == v,
                None => r.is_none(),
            },
    {
        let (start, end): (u64, u128) = self.span(rate);
        if s < start || s as u128 >= end || self.channels == 0 {
            return None;
        }
        let local: Float64 = Float64::from_u64(s - start).times(f64_of(1_000_000)).over(
            f64_of(rate as i64),
        );
        let frame: u64 = self.frame_now(local);
        assert(0 <= frame as int * self.channels as int <= 0xffff_ffff_ffff_ffff
            * 0xffff_ffff_ffff_ffff) by (nonlinear_arith)
            requires
                0 <= frame <= 0xffff_ffff_ffff_ffff,
                0 <= self.channels <= 0xffff_ffff_ffff_ffff,
        ;
        let i: u128 = if self.channels == 1 {
            frame as u128
        } else {
            frame as u128 * self.channels as u128 + ch as u128
        };
        if i < self.pcm.len() as u128 {
            Some(self.pcm[i as usize].times(self.gain_now(local)))
        } else {
            None
        }
    }
}

fn sum_at(clips: &Vec<MixClip>, s: u64, ch: usize, rate: u32) -> (r: Float32)
    requires
        mixable(views(clips@)),
        ch < 2,
    ensures
        r@ == summed(views(clips@), s as int, ch as int, rate as int, clips.len() as int),
{
    let ghost cs = views(clips@);
    let mut total: Float32 = Float32::from_i64(0);
    let mut k: usize = 0;
    while k < clips.len()
        invariant
            k <= clips.len(),
            cs == views(clips@),
            mixable(cs),
            ch < 2,
            total@ == summed(cs, s as int, ch as int, rate as int, k as int),
        decreases clips.len() - k,
    {
        assert(clip_mixable(cs[k as int]));
        if let Some(v) = clips[k].sample(s, ch, rate) {
            total = total.plus(v);
        }
        k = k + 1;
    }
    total
}

fn envelope_can_mix(env: &Vec<(Timecode, Float32)>) -> (r: bool)
    ensures
        r == envelope_fits(env@),
{
    let mut i: usize = 1;
    while i < env.len()
        invariant
            1 <= i,
            i <= env.len() || env.len() == 0,
            forall|k: int|
                0 <= k < i - 1 ==> i64::MIN <= #[trigger] env@[k + 1].0 - env@[k].0 <= i64::MAX,
        decreases env.len() - i,
    {
        if env[i].0.checked_sub(env[i - 1].0).is_none() {
            assert(!(i64::MIN <= env@[(i - 1) + 1].0 - env@[i - 1].0 <= i64::MAX));
            return false;
        }
        i = i + 1;
    }
    true
}

impl MixClip {
    fn can_mix(&self) -> (r: bool)
        ensures
            r == clip_mixable(self@),
    {
        let fits: bool = self.source_out <= self.source_in || self.source_out.checked_sub(
            self.source_in,
        ).is_some();
        fits && envelope_can_mix(&self.envelope)
    }
}

impl MixSnapshot {
    /// Whether the clips of the mix can be exported.
    pub fn can_mix(&self) -> (r: bool)
        ensures
            r == mixable(views(self.clips@)),
    {
        let ghost cs = views(self.clips@);
        let mut k: usize = 0;
        while k < self.clips.len()
            invariant
                k <= self.clips.len(),
                cs == views(self.clips@),
                forall|i: int| 0 <= i < k ==> clip_mixable(#[trigger] cs[i]),
            decreases self.clips.len() - k,
        {
            if !self.clips[k].can_mix() {
                assert(!clip_mixable(cs[k as int]));
                return false;
            }
            k = k + 1;
        }
        true
    }
}

/// The stereo samples of an export from `start` on, `n` of them, interleaved.
pub fn mix_span(mix: &MixSnapshot, start: u64, n: usize, rate: u32) -> (buf: Vec<Float32>)
    requires
        mixable(views(mix.clips@)),
        start + n <= u64::MAX,
        2 * n <= usize::MAX,
    ensures
        buf.len() == 2 * n,
        forall|i: int|
            0 <= i < 2 * n ==> (#[trigger] buf@[i])@ == mixed_sample(
                views(mix.clips@),
                mix.master_gain@,
                start + i / 2,
                i % 2,
                rate as int,
            ),
{
    let mut buf: Vec<Float32> = Vec::new();
    let mut i: usize = 0;
    while i < n
        invariant
            i <= n,
            start + n <= u64::MAX,
            mixable(views(mix.clips@)),
            buf.len() == 2 * i,
            forall|k: int|
                0 <= k < 2 * i ==> (#[trigger] buf@[k])@ == mixed_sample(
                    views(mix.clips@),
                    mix.master_gain@,
                    start + k / 2,
                    k % 2,
                    rate as int,
                ),
        decreases n - i,
    {
        let s: u64 = start + i as u64;
        let left: Float32 = sum_at(&mix.clips, s, 0, rate).times(mix.master_gain);
        let right: Float32 = sum_at(&mix.clips, s, 1, rate).times(mix.master_gain);
        buf.push(left);
        buf.push(right);
        i = i + 1;
    }
    buf
}

/// A time as minutes, seconds and hundredths.
pub open spec fn timecode_text(us: int) -> Seq<char> {
    let total = quotient(double(), big(if us > 0 { us } else { 0 }), big(1_000_000));
    let m = to_time(quotient(double(), total, big(60)));
    let s = to_time(remainder(total, big(60)));
    let c = to_time(remainder(product(double(), total, big(100)), big(100)));
    two_digits(m as nat) + seq![':'] + two_digits(s as nat) + seq!['.'] + two_digits(c as nat)
}

/// A time as minutes, seconds and hundredths.
pub fn timecode_string(us: Timecode, _fps: Float64) -> (r: String)
    ensures
        r@ == timecode_text(us as int),
{
    let total: Float64 = f64_of(
        if us > 0 {
            us
        } else {
            0
        },
    ).over(f64_of(1_000_000));
    let hundred: Float64 = f64_of(100);
    let sixty: Float64 = f64_of(60);
    proof {
        let d = double();
        let us0 = if us > 0 {
            us as int
        } else {
            0
        };
        let z = Number::Nan;
        lemma_unsigned(d, z, z, us0);
        lemma_unsigned(d, z, z, 1_000_000);
        lemma_unsigned(d, z, z, 60);
        lemma_unsigned(d, z, z, 100);
        lemma_unsigned(d, big(us0), big(1_000_000), 0);
        lemma_unsigned(d, total@, big(60), 0);
        lemma_unsigned(d, quotient(d, total@, big(60)), z, 0);
        lemma_unsigned(d, remainder(total@, big(60)), z, 0);
        lemma_unsigned(d, total@, big(100), 0);
        lemma_unsigned(d, product(d, total@, big(100)), big(100), 0);
        lemma_unsigned(d, remainder(product(d, total@, big(100)), big(100)), z, 0);
    }
    let minutes: i64 = total.over(sixty).to_i64(Toward::Zero);
    let seconds: i64 = total.rest(sixty).to_i64(Toward::Zero);
    let hundredths: i64 = total.times(hundred).rest(hundred).to_i64(Toward::Zero);
    let mut text: String = two_digit_string(minutes as u128);
    text.append(":");
    text.append(two_digit_string(seconds as u128).as_str());
    text.append(".");
    text.append(two_digit_string(hundredths as u128).as_str());
    proof {
        reveal_strlit(":");
        reveal_strlit(".");
        assert(text@ =~= timecode_text(us as int));
    }
    text
}

/// The quotient of two integers without its fraction.
pub open spec fn truncated_quotient(a: int, b: int) -> int {
    if a < 0 {
        -((-a) / b)
    } else {
        a / b
    }
}

/// The sample of the timeline at which playback stands at a position.
pub open spec fn playback_sample(pos: Number, rate: int) -> int {
    truncated_quotient(to_time(pos) * rate, 1_000_000)
}

/// The first sample of a clip in playback, and the one after its last.
pub open spec fn live_span(c: MixClipView, rate: int) -> (int, int) {
    let start = to_time(samples_of(big(c.timeline_start as int), rate));
    (start, start + to_time(samples_of(sounding_length(c), rate)))
}

/// Clips sound at a speed above zero.
proof fn lemma_speed_is_unsigned(c: MixClipView)
    ensures
        unsigned(mix_speed(c)),
{
    reveal(widened);
    reveal(less);
    reveal(number_of_bits32);
    let least = (Float32 { bits: 0x3c23_d70a })@;
    assert(least == (Number::Finite { negative: false, units: 10_737_418 * pow2(119) }));
    lemma_pow2_pos(119);
}

/// A number without a minus sign that fits counts the same both ways.
proof fn lemma_same_count(x: Number)
    requires
        unsigned(x),
        to_index(x) <= i64::MAX,
    ensures
        to_time(x) == to_index(x),
        to_index(x) >= 0,
{
    reveal(to_integer);
    lemma_pow2_pos(double().scale as nat);
    if let Number::Finite { negative, units } = x {
        lemma_div_pos_is_pos(units as int, pow2(double().scale as nat) as int);
    }
}

/// Playback and export let a clip sound over the same samples.
pub proof fn law_playback_and_export_span_alike(c: MixClipView, rate: int)
    requires
        c.timeline_start >= 0,
        rate >= 0,
        span_of(c, rate).1 <= i64::MAX,
    ensures
        live_span(c, rate) == span_of(c, rate),
{
    let d = double();
    let start = big(c.timeline_start as int);
    let length = sounding_length(c);
    lemma_unsigned(d, Number::Nan, Number::Nan, c.timeline_start as int);
    lemma_unsigned(d, Number::Nan, Number::Nan, source_length(c));
    lemma_unsigned(d, Number::Nan, Number::Nan, rate);
    lemma_unsigned(d, Number::Nan, Number::Nan, 1_000_000);
    lemma_speed_is_unsigned(c);
    lemma_unsigned(d, big(source_length(c)), mix_speed(c), 0);
    lemma_unsigned(d, start, big(rate), 0);
    lemma_unsigned(d, length, big(rate), 0);
    lemma_unsigned(d, product(d, start, big(rate)), big(1_000_000), 0);
    lemma_unsigned(d, product(d, length, big(rate)), big(1_000_000), 0);
    reveal(to_integer);
    assert(to_index(samples_of(start, rate)) >= 0);
    assert(to_index(samples_of(length, rate)) >= 0);
    lemma_same_count(samples_of(start, rate));
    lemma_same_count(samples_of(length, rate));
}

/// The frame of the source that sounds in playback `n` samples into a clip.
pub open spec fn live_frame(c: MixClipView, n: int, rate: int) -> int {
    let at = quotient(double(), product(double(), big(n), big(48_000)), big(rate));
    to_index(product(double(), at, mix_speed(c))) + to_index(
        samples_of(big(c.source_in as int), 48_000),
    )
}

/// The gain of a clip in playback `n` samples into it: its own, times its envelope, times
/// its fades.
pub open spec fn live_gain(c: MixClipView, n: int, rate: int) -> Number {
    let start = big(c.timeline_start as int);
    let now = sum(double(), start, micros_of(n, rate));
    let into = difference(double(), now, start);
    let g = product(single(), c.gain, envelope_at(c.envelope, to_time(into)));
    let faded_in = if c.fade_in > 0 && less(into, big(c.fade_in as int)) {
        product(single(), g, narrowed(quotient(double(), into, big(c.fade_in as int))))
    } else {
        g
    };
    let rem = difference(double(), sum(double(), start, sounding_length(c)), now);
    if c.fade_out > 0 && less(rem, big(c.fade_out as int)) {
        product(single(), faded_in, narrowed(quotient(double(), rem, big(c.fade_out as int))))
    } else {
        faded_in
    }
}

/// The difference of two whole numbers that are not negative is exact.
pub proof fn lemma_whole_difference(i: int, j: int)
    requires
        0 <= i < 0x20_0000_0000_0000,
        0 <= j < 0x20_0000_0000_0000,
    ensures
        difference(double(), big(i), big(j)) == big(i - j),
{
    let d = double();
    lemma2_to64_rest();
    law_integers_are_exact(d, i);
    law_integers_are_exact(d, j);
    law_integers_are_exact(d, i - j);
    if j == 0 {
        assert(0 * pow2(d.scale as nat) == 0) by (nonlinear_arith);
        assert(negated(integer(d, 0)) == zero_with(true));
        lemma_plus_zero(d, i, true);
    } else {
        assert(negated(integer(d, j)) == integer(d, -j));
        law_integer_sums_are_exact(d, i, -j);
    }
}

/// Playback and export give a clip the same gain at each whole microsecond into it, where
/// it sounds for a whole number of them.
pub proof fn law_playback_and_export_gain_alike(
    c: MixClipView,
    n: int,
    rate: int,
    at: int,
    length: int,
)
    requires
        c.timeline_start >= 0,
        0 <= at <= length,
        c.timeline_start + length < 0x20_0000_0000_0000,
        micros_of(n, rate) == big(at),
        sounding_length(c) == big(length),
    ensures
        live_gain(c, n, rate) == gain_at(c, micros_of(n, rate)),
{
    let d = double();
    let start = c.timeline_start as int;
    lemma2_to64_rest();
    law_integers_are_exact(d, start);
    law_integers_are_exact(d, at);
    law_integers_are_exact(d, length);
    law_integers_are_exact(d, start + at);
    law_integers_are_exact(d, start + length);
    law_integers_are_exact(d, length - at);
    law_integers_are_exact(d, 0);
    law_integer_sums_are_exact(d, start, at);
    law_integer_sums_are_exact(d, start, length);
    lemma_whole_difference(start + at, start);
    lemma_whole_difference(start + length, start + at);
    lemma_whole_difference(length, at);
    lemma_integers_in_order(d, length - at, 0);
}

/// What a clip adds to output channel `o` of `channels` at timeline sample `s`: a
/// stereo clip its two channels, or their mean on a single one; a mono clip the same
/// on the first two.
pub open spec fn live_sample(c: MixClipView, s: int, o: int, channels: int, rate: int) -> Option<Number> {
    let (start, end) = live_span(c, rate);
    if s < start || s >= end {
        None
    } else {
        let n = s - start;
        let g = live_gain(c, n, rate);
        let frame = live_frame(c, n, rate);
        if c.channels >= 2 {
            if 2 * frame + 1 < c.pcm.len() {
                let left = product(single(), c.pcm[2 * frame]@, g);
                let right = product(single(), c.pcm[2 * frame + 1]@, g);
                if channels == 1 {
                    Some(
                        product(
                            single(),
                            sum(single(), left, right),
                            (Float32 { bits: HALF_BITS })@,
                        ),
                    )
                } else if o == 0 {
                    Some(left)
                } else if o == 1 {
                    Some(right)
                } else {
                    None
                }
            } else {
                None
            }
        } else if o < 2 {
            let last = c.pcm.len() - 1;
            Some(product(single(), c.pcm[if frame < last { frame } else { last }]@, g))
        } else {
            None
        }
    }
}

pub open spec fn live_summed(
    clips: Seq<MixClipView>,
    s: int,
    o: int,
    channels: int,
    rate: int,
    n: int,
) -> Number
    decreases n,
{
    if n <= 0 {
        num(0)
    } else {
        let before = live_summed(clips, s, o, channels, rate, n - 1);
        match live_sample(clips[n - 1], s, o, channels, rate) {
            Some(v) => sum(single(), before, v),
            None => before,
        }
    }
}

/// Sample `i` of an output of `channels` channels that starts at timeline sample `base`:
/// what the clips add up to, times the master gain.
pub open spec fn output_sample(
    mix: MixSnapshot,
    base: int,
    i: int,
    channels: int,
    rate: int,
) -> Number {
    product(
        single(),
        live_summed(
            views(mix.clips@),
            base + i / channels,
            i % channels,
            channels,
            rate,
            mix.clips@.len() as int,
        ),
        mix.master_gain@,
    )
}

/// The lengths and envelopes of the clips can be computed with, and mono clips have
/// samples.
pub open spec fn playable(clips: Seq<MixClipView>) -> bool {
    forall|k: int| 0 <= k < clips.len() ==> clip_playable(#[trigger] clips[k])
}

pub open spec fn clip_playable(c: MixClipView) -> bool {
    clip_mixable(c) && (c.channels < 2 ==> c.pcm.len() > 0)
}

impl MixClip {
    fn live_bounds(&self, rate: u32) -> (r: (i64, i128))
        requires
            clip_mixable(self@),
        ensures
            (r.0 as int, r.1 as int) == live_span(self@, rate as int),
            r.1 - r.0 <= i64::MAX,
    {
        let start: i64 = to_samples(f64_of(self.timeline_start), rate).to_i64(Toward::Zero);
        let count: i64 = to_samples(self.sounding_us(), rate).to_i64(Toward::Zero);
        (start, start as i128 + count as i128)
    }

    fn live_gain_at(&self, n: i64, rate: u32) -> (r: Float32)
        requires
            clip_mixable(self@),
        ensures
            r@ == live_gain(self@, n as int, rate as int),
    {
        let start: Float64 = f64_of(self.timeline_start);
        let now: Float64 = start.plus(
            f64_of(n).times(f64_of(1_000_000)).over(f64_of(rate as i64)),
        );
        let into: Float64 = now.minus(start);
        let mut g: Float32 = self.gain.times(
            envelope_gain(&self.envelope, into.to_i64(Toward::Zero)),
        );
        if self.fade_in > 0 && into.less_than(f64_of(self.fade_in)) {
            g = g.times(into.over(f64_of(self.fade_in)).narrow());
        }
        if self.fade_out > 0 {
            let rem: Float64 = start.plus(self.sounding_us()).minus(now);
            if rem.less_than(f64_of(self.fade_out)) {
                g = g.times(rem.over(f64_of(self.fade_out)).narrow());
            }
        }
        g
    }

    fn live_frame_at(&self, n: i64, rate: u32) -> (r: u128)
        ensures
            r == live_frame(self@, n as int, rate as int),
            r < 0x2_0000_0000_0000_0000,
    {
        let at: Float64 = f64_of(n).times(f64_of(48_000)).over(f64_of(rate as i64));
        let a: u64 = at.times(self.effective_speed()).to_u64(Toward::Zero);
        let b: u64 = to_samples(f64_of(self.source_in), 48_000).to_u64(Toward::Zero);
        a as u128 + b as u128
    }

    fn live(&self, s: i128, o: usize, channels: usize, rate: u32) -> (r: Option<Float32>)
        requires
            clip_playable(self@),
        ensures
            match live_sample(self@, s as int, o as int, channels as int, rate as int) {
                Some(v) => r.is_some() && r.unwrap()@ == v,
                None => r.is_none(),
            },
    {
        let (start, end): (i64, i128) = self.live_bounds(rate);
        if s < start as i128 || s >= end {
            return None;
        }
        let n: i64 = (s - start as i128) as i64;
        let g: Float32 = self.live_gain_at(n, rate);
        let frame: u128 = self.live_frame_at(n, rate);
        if self.channels >= 2 {
            if 2 * frame + 1 < self.pcm.len() as u128 {
                let i: usize = (2 * frame) as usize;
                let left: Float32 = self.pcm[i].times(g);
                let right: Float32 = self.pcm[i + 1].times(g);
                if channels == 1 {
                    Some(left.plus(right).times(Float32 { bits: HALF_BITS }))
                } else if o == 0 {
                    Some(left)
                } else if o == 1 {
                    Some(right)
                } else {
                    None
                }
            } else {
                None
            }
        } else if o < 2 {
            let last: usize = self.pcm.len() - 1;
            let i: usize = if frame < last as u128 {
                frame as usize
            } else {
                last
            };
            Some(self.pcm[i].times(g))
        } else {
            None
        }
    }
}

fn live_sum(clips: &Vec<MixClip>, s: i128, o: usize, channels: usize, rate: u32) -> (r: Float32)
    requires
        playable(views(clips@)),
    ensures
        r@ == live_summed(
            views(clips@),
            s as int,
            o as int,
            channels as int,
            rate as int,
            clips.len() as int,
        ),
{
    let ghost cs = views(clips@);
    let mut total: Float32 = Float32::from_i64(0);
    let mut k: usize = 0;
    while k < clips.len()
        invariant
            k <= clips.len(),
            cs == views(clips@),
            playable(cs),
            total@ == live_summed(
                cs,
                s as int,
                o as int,
                channels as int,
                rate as int,
                k as int,
            ),
        decreases clips.len() - k,
    {
        assert(clip_playable(cs[k as int]));
        if let Some(v) = clips[k].live(s, o, channels, rate) {
            total = total.plus(v);
        }
        k = k + 1;
    }
    total
}

/// Playback: the mix, the position and whether it runs.
#[derive(Debug, Clone)]
pub struct AudioState {
    pub snapshot: MixSnapshot,
    /// In microseconds.
    pub position: Float64,
    pub playing: bool,
}

impl AudioState {
    pub fn new(snapshot: MixSnapshot) -> (s: AudioState)
        ensures
            s.snapshot == snapshot,
            s.position@ == big(0),
            !s.playing,
    {
        AudioState { snapshot, position: f64_of(0), playing: false }
    }

    /// The position in microseconds.
    pub fn pos_us(&self) -> (r: Float64)
        ensures
            r == self.position,
    {
        self.position
    }

    pub fn set_pos_us(&mut self, v: Float64)
        ensures
            *final(self) == (AudioState { position: v, ..*old(self) }),
    {
        self.position = v;
    }

    /// Whether the clips of the mix can be played.
    pub fn can_play(&self) -> (r: bool)
        ensures
            r == playable(views(self.snapshot.clips@)),
    {
        let ghost cs = views(self.snapshot.clips@);
        let mut k: usize = 0;
        while k < self.snapshot.clips.len()
            invariant
                k <= self.snapshot.clips.len(),
                cs == views(self.snapshot.clips@),
                forall|i: int| 0 <= i < k ==> clip_playable(#[trigger] cs[i]),
            decreases self.snapshot.clips.len() - k,
        {
            let c: &MixClip = &self.snapshot.clips[k];
            if !c.can_mix() || (c.channels < 2 && c.pcm.len() == 0) {
                assert(!clip_playable(cs[k as int]));
                return false;
            }
            k = k + 1;
        }
        true
    }

    /// Fills a buffer for an output of `channels` channels, in place: silence while
    /// playback does not run, else the mix from the position on, which moves by the
    /// frames that were rendered. What is left over behind the last whole frame stays as
    /// it is.
    pub fn render(&mut self, buf: &mut Vec<Float32>, channels: usize, rate: u32)
        requires
            channels >= 1,
            playable(views(old(self).snapshot.clips@)),
        ensures
            final(self).snapshot == old(self).snapshot,
            final(self).playing == old(self).playing,
            final(buf)@.len() == old(buf)@.len(),
            !old(self).playing ==> final(self).position == old(self).position && forall|i: int|
                0 <= i < final(buf)@.len() ==> (#[trigger] final(buf)@[i])@ == num(0),
            old(self).playing ==> {
                let frames = old(buf)@.len() as int / channels as int;
                &&& forall|i: int|
                    0 <= i < frames * channels ==> (#[trigger] final(buf)@[i])@ == output_sample(
                        old(self).snapshot,
                        playback_sample(old(self).position@, rate as int),
                        i,
                        channels as int,
                        rate as int,
                    )
                &&& forall|i: int|
                    frames * channels <= i < final(buf)@.len() ==> #[trigger] final(buf)@[i]
                        == old(buf)@[i]
                &&& final(self).position@ == (if frames == 0 {
                    old(self).position@
                } else {
                    sum(double(), old(self).position@, micros_of(frames, rate as int))
                })
            },
    {
        let len: usize = buf.len();
        if !self.playing {
            let mut i: usize = 0;
            while i < len
                invariant
                    i <= len,
                    buf.len() == len,
                    forall|k: int| 0 <= k < i ==> (#[trigger] buf@[k])@ == num(0),
                decreases len - i,
            {
                buf.set(i, Float32::from_i64(0));
                i = i + 1;
            }
            return;
        }
        let ghost first = buf@;
        let ghost mix = self.snapshot;
        let frames: usize = len / channels;
        let base: i128 = playback_base(self.position, rate);
        let mut f: usize = 0;
        proof {
            assert(0 * channels as int == 0) by (nonlinear_arith);
            lemma_fundamental_div_mod(len as int, channels as int);
            lemma_mul_is_commutative(channels as int, frames as int);
        }
        while f < frames
            invariant
                f <= frames,
                frames * channels <= len,
                channels >= 1,
                mix == self.snapshot,
                playable(views(mix.clips@)),
                -0x1_0000_0000_0000_0000_0000_0000 <= base <= 0x1_0000_0000_0000_0000_0000_0000,
                buf@.len() == len,
                first.len() == len,
                forall|i: int|
                    0 <= i < f * channels ==> (#[trigger] buf@[i])@ == output_sample(
                        mix,
                        base as int,
                        i,
                        channels as int,
                        rate as int,
                    ),
                forall|i: int| f * channels <= i < len ==> #[trigger] buf@[i] == first[i],
            decreases frames - f,
        {
            let s: i128 = base + f as i128;
            proof {
                assert(f * channels + channels == (f + 1) * channels) by (nonlinear_arith);
                assert((f + 1) * channels <= frames * channels) by (nonlinear_arith)
                    requires
                        f + 1 <= frames,
                        channels >= 1,
                ;
                assert(0 <= f * channels) by (nonlinear_arith);
            }
            let from: usize = f * channels;
            let mut o: usize = 0;
            while o < channels
                invariant
                    f < frames,
                    o <= channels,
                    channels >= 1,
                    s == base + f,
                    mix == self.snapshot,
                    playable(views(mix.clips@)),
                    from == f * channels,
                    from + channels <= len,
                    buf@.len() == len,
                    first.len() == len,
                    forall|i: int|
                        0 <= i < from + o ==> (#[trigger] buf@[i])@ == output_sample(
                            mix,
                            base as int,
                            i,
                            channels as int,
                            rate as int,
                        ),
                    forall|i: int| from + o <= i < len ==> #[trigger] buf@[i] == first[i],
                decreases channels - o,
            {
                let v: Float32 = live_sum(&self.snapshot.clips, s, o, channels, rate).times(
                    self.snapshot.master_gain,
                );
                proof {
                    lemma_fundamental_div_mod_converse(
                        f * channels + o,
                        channels as int,
                        f as int,
                        o as int,
                    );
                }
                buf.set(from + o, v);
                o = o + 1;
            }
            f = f + 1;
        }
        if frames > 0 {
            self.position = self.position.plus(
                Float64::from_u64(frames as u64).times(f64_of(1_000_000)).over(
                    f64_of(rate as i64),
                ),
            );
        }
    }
}

fn playback_base(pos: Float64, rate: u32) -> (r: i128)
    ensures
        r == playback_sample(pos@, rate as int),
        -0x1_0000_0000_0000_0000_0000_0000 <= r <= 0x1_0000_0000_0000_0000_0000_0000,
{
    let t: i64 = pos.to_i64(Toward::Zero);
    assert(-0x8000_0000_0000_0000 * 0xffff_ffff <= t as int * rate as int <= 0x8000_0000_0000_0000
        * 0xffff_ffff) by (nonlinear_arith)
        requires
            -0x8000_0000_0000_0000 <= t <= 0x7fff_ffff_ffff_ffff,
            0 <= rate <= 0xffff_ffff,
    ;
    let product: i128 = t as i128 * rate as i128;
    if product < 0 {
        -((-product) / 1_000_000)
    } else {
        product / 1_000_000
    }
}

/// A running output of sound.
pub trait StreamHolder {
    fn play(&self);

    fn pause(&self);
}

/// A clip of the mix is a clip of a project: it stands at the same place, with the same
/// stretch of source, fades, speed and envelope, and it holds the samples of its asset.
pub open spec fn is_of(m: MixClipView, p: ProjectView, c: AudioClipView) -> bool {
    &&& m.timeline_start == c.timeline_start
    &&& m.source_in == c.source_in
    &&& m.source_out == c.source_out
    &&& m.fade_in == c.fade_in_us
    &&& m.fade_out == c.fade_out_us
    &&& m.speed == c.speed
    &&& m.envelope == c.envelope
    &&& p.assets.assets.contains_key(c.asset.0)
    &&& p.assets.assets[c.asset.0].pcm.is_some()
    &&& m.pcm == p.assets.assets[c.asset.0].pcm.unwrap()@
    &&& m.channels == p.assets.assets[c.asset.0].channels || (m.channels == 1
        && p.assets.assets[c.asset.0].channels == 0)
}

/// A clip on a track that is heard: one that is not muted, and that plays alone where some
/// track does.
pub open spec fn is_heard(p: ProjectView, track: int, clip: int) -> bool {
    &&& 0 <= track < p.audio_tracks.len()
    &&& 0 <= clip < p.audio_tracks[track].clips.len()
    &&& !p.audio_tracks[track].muted
    &&& p.audio_tracks[track].solo || forall|i: int|
        0 <= i < p.audio_tracks.len() ==> !(#[trigger] p.audio_tracks[i]).solo
    &&& p.assets.assets.contains_key(p.audio_tracks[track].clips[clip].asset.0)
    &&& p.assets.assets[p.audio_tracks[track].clips[clip].asset.0].pcm.is_some()
}

proof fn lemma_track_mix(
    p: ProjectView,
    track: int,
    powers: Seq<Float32>,
    q: Number,
    n: int,
    x: int,
) -> (j: int)
    requires
        0 <= n <= p.audio_tracks[track].clips.len(),
        0 <= x < track_mix(p, track, powers, q, n).len(),
    ensures
        0 <= j < n,
        has_samples(p, p.audio_tracks[track].clips[j]),
        track_mix(p, track, powers, q, n)[x] == mix_clip(
            p,
            p.audio_tracks[track].clips[j],
            powers[j]@,
            linear_gain(p.audio_tracks[track].gain_db@, q),
        ),
    decreases n,
{
    let before = track_mix(p, track, powers, q, n - 1);
    if has_samples(p, p.audio_tracks[track].clips[n - 1]) && x == before.len() {
        n - 1
    } else {
        lemma_track_mix(p, track, powers, q, n - 1, x)
    }
}

proof fn lemma_in_track_mix(
    p: ProjectView,
    track: int,
    powers: Seq<Float32>,
    q: Number,
    n: int,
    j: int,
) -> (x: int)
    requires
        0 <= j < n <= p.audio_tracks[track].clips.len(),
        has_samples(p, p.audio_tracks[track].clips[j]),
    ensures
        0 <= x < track_mix(p, track, powers, q, n).len(),
        track_mix(p, track, powers, q, n)[x] == mix_clip(
            p,
            p.audio_tracks[track].clips[j],
            powers[j]@,
            linear_gain(p.audio_tracks[track].gain_db@, q),
        ),
    decreases n,
{
    let before = track_mix(p, track, powers, q, n - 1);
    if j == n - 1 {
        before.len() as int
    } else {
        lemma_in_track_mix(p, track, powers, q, n - 1, j)
    }
}

proof fn lemma_mix_upto(
    p: ProjectView,
    powers: Seq<Seq<Float32>>,
    track_powers: Seq<Float32>,
    n: int,
    x: int,
) -> (r: (int, int))
    requires
        0 <= n <= p.audio_tracks.len(),
        0 <= x < mix_upto(p, powers, track_powers, n).len(),
    ensures
        r.0 < n,
        is_heard(p, r.0, r.1),
        mix_upto(p, powers, track_powers, n)[x] == mix_clip(
            p,
            p.audio_tracks[r.0].clips[r.1],
            powers[r.0][r.1]@,
            linear_gain(p.audio_tracks[r.0].gain_db@, track_powers[r.0]@),
        ),
    decreases n,
{
    let before = mix_upto(p, powers, track_powers, n - 1);
    if audible(p.audio_tracks, n - 1) && x >= before.len() {
        let m = p.audio_tracks[n - 1].clips.len() as int;
        let own = track_mix(p, n - 1, powers[n - 1], track_powers[n - 1]@, m);
        let j = lemma_track_mix(
            p,
            n - 1,
            powers[n - 1],
            track_powers[n - 1]@,
            m,
            x - before.len(),
        );
        assert((before + own)[x] == own[x - before.len()]);
        (n - 1, j)
    } else {
        let r = lemma_mix_upto(p, powers, track_powers, n - 1, x);
        assert(mix_upto(p, powers, track_powers, n)[x] == before[x]);
        r
    }
}

proof fn lemma_in_mix_upto(
    p: ProjectView,
    powers: Seq<Seq<Float32>>,
    track_powers: Seq<Float32>,
    n: int,
    track: int,
    clip: int,
) -> (x: int)
    requires
        0 <= track < n <= p.audio_tracks.len(),
        is_heard(p, track, clip),
    ensures
        0 <= x < mix_upto(p, powers, track_powers, n).len(),
        mix_upto(p, powers, track_powers, n)[x] == mix_clip(
            p,
            p.audio_tracks[track].clips[clip],
            powers[track][clip]@,
            linear_gain(p.audio_tracks[track].gain_db@, track_powers[track]@),
        ),
    decreases n,
{
    let before = mix_upto(p, powers, track_powers, n - 1);
    if track == n - 1 {
        let m = p.audio_tracks[n - 1].clips.len() as int;
        let own = track_mix(p, n - 1, powers[n - 1], track_powers[n - 1]@, m);
        let x = lemma_in_track_mix(p, n - 1, powers[n - 1], track_powers[n - 1]@, m, clip);
        assert(audible(p.audio_tracks, track));
        assert((before + own)[before.len() + x] == own[x]);
        before.len() + x
    } else {
        let x = lemma_in_mix_upto(p, powers, track_powers, n - 1, track, clip);
        assert(mix_upto(p, powers, track_powers, n)[x] == before[x]);
        x
    }
}

/// A clip of the mix is one of the clips of a project that are heard.
pub open spec fn stems_from(m: MixClipView, p: ProjectView) -> bool {
    exists|t: int, j: int| #[trigger]
        is_heard(p, t, j) && is_of(m, p, p.audio_tracks[t].clips[j])
}

/// A clip of a project is one of the clips of the mix.
pub open spec fn is_mixed(mix: Seq<MixClipView>, p: ProjectView, c: AudioClipView) -> bool {
    exists|x: int| 0 <= x < mix.len() && is_of(#[trigger] mix[x], p, c)
}

/// The mix of a project holds its clips that are heard, each where and as it is, and no
/// others.
pub proof fn law_the_mix_holds_what_is_heard(
    p: ProjectView,
    powers: Seq<Seq<Float32>>,
    track_powers: Seq<Float32>,
)
    ensures
        ({
            let mix = mix_upto(p, powers, track_powers, p.audio_tracks.len() as int);
            &&& forall|x: int| 0 <= x < mix.len() ==> stems_from(#[trigger] mix[x], p)
            &&& forall|t: int, j: int| #[trigger]
                is_heard(p, t, j) ==> is_mixed(mix, p, p.audio_tracks[t].clips[j])
        }),
{
    let n = p.audio_tracks.len() as int;
    let mix = mix_upto(p, powers, track_powers, n);
    assert forall|x: int| 0 <= x < mix.len() implies stems_from(#[trigger] mix[x], p) by {
        let (t, j) = lemma_mix_upto(p, powers, track_powers, n, x);
        assert(is_heard(p, t, j));
        assert(is_of(mix[x], p, p.audio_tracks[t].clips[j]));
    }
    assert forall|t: int, j: int| #[trigger] is_heard(p, t, j) implies is_mixed(
        mix,
        p,
        p.audio_tracks[t].clips[j],
    ) by {
        let x = lemma_in_mix_upto(p, powers, track_powers, n, t, j);
        assert(is_of(mix[x], p, p.audio_tracks[t].clips[j]));
    }
}

/// The source of a clip takes so many whole microseconds at its speed, which is at least a
/// hundredth: that many times the speed is the length of the source.
pub open spec fn sounds_for(c: AudioClipView, length: int) -> bool {
    match c.speed@ {
        Number::Finite { negative, units } => {
            &&& !negative
            &&& no_more((Float32 { bits: 0x3c23_d70a })@, c.speed@)
            &&& length >= 0
            &&& c.source_in <= c.source_out
            &&& (c.source_out - c.source_in) * pow2(149) == length * units
        },
        _ => false,
    }
}

/// A clip that sounds for so many microseconds.
proof fn lemma_sounding_length(m: MixClipView, c: AudioClipView, length: int)
    requires
        m.source_in == c.source_in,
        m.source_out == c.source_out,
        m.speed == c.speed,
        sounds_for(c, length),
        length < 0x20_0000_0000_0000,
        c.source_out - c.source_in < 0x20_0000_0000_0000,
    ensures
        sounding_length(m) == big(length),
        source_length(m) == c.source_out - c.source_in,
{
    reveal(quotient);
    reveal(widened);
    reveal(number_of_bits32);
    reveal(less);
    let d = double();
    let (u, g, one) = (pow2(149), pow2(925), pow2(1074));
    let len = (c.source_out - c.source_in) as nat;
    lemma2_to64_rest();
    lemma_pow2_adds(149, 925);
    lemma_pow2_pos(149);
    lemma_pow2_pos(925);
    lemma_pow2_pos(119);
    law_integers_are_exact(d, len as int);
    law_integers_are_exact(d, length);
    if let Number::Finite { negative, units } = c.speed@ {
        let least = 0xa3_d70a * pow2(119);
        assert((Float32 { bits: 0x3c23_d70a })@ == (Number::Finite {
            negative: false,
            units: least,
        }));
        assert(least > 0);
        assert(units >= least);
        let v = units * g;
        assert(v > 0) by (nonlinear_arith)
            requires
                v == units * g,
                units > 0,
                g > 0,
        ;
        let n = length as nat;
        assert((len * one) * one == (n * one) * v) by (nonlinear_arith)
            requires
                one == u * g,
                v == units * g,
                len * u == n * units,
        ;
        lemma_exact(d, false, n, 1074, v);
        assert(mix_speed(m) == (Number::Finite { negative: false, units: v }));
    }
}

/// The sample at a time.
proof fn lemma_whole_samples(us: int, rate: int)
    requires
        0 <= us,
        0 <= rate < 0x20_0000_0000_0000,
        us < 0x20_0000_0000_0000,
        us * rate < 0x20_0000_0000_0000,
    ensures
        to_index(samples_of(big(us), rate)) == us * rate / 1_000_000,
        to_time(samples_of(big(us), rate)) == us * rate / 1_000_000,
{
    let d = double();
    lemma2_to64_rest();
    law_integers_are_exact(d, us);
    law_integers_are_exact(d, rate);
    law_integers_are_exact(d, 1_000_000);
    assert(us * rate >= 0) by (nonlinear_arith)
        requires
            us >= 0,
            rate >= 0,
    ;
    law_integer_products_are_exact(d, us, rate);
    law_whole_quotients(d, us * rate, 1_000_000, 0, u64::MAX as int);
    law_whole_quotients(d, us * rate, 1_000_000, i64::MIN as int, i64::MAX as int);
}

/// The samples of a clip can be counted exactly: it starts at or after zero, and so many
/// times as many samples as there are in a second fit into a number.
pub open spec fn countable(c: AudioClipView, length: int, rate: int) -> bool {
    &&& 0 <= c.timeline_start < 0x20_0000_0000_0000
    &&& c.timeline_start * rate < 0x20_0000_0000_0000
    &&& 0 <= length < 0x20_0000_0000_0000
    &&& length * rate < 0x20_0000_0000_0000
    &&& c.source_out - c.source_in < 0x20_0000_0000_0000
}

proof fn lemma_spans(m: MixClipView, c: AudioClipView, length: int, rate: int)
    requires
        m.timeline_start == c.timeline_start,
        m.source_in == c.source_in,
        m.source_out == c.source_out,
        m.speed == c.speed,
        sounds_for(c, length),
        countable(c, length, rate),
        0 <= rate < 0x20_0000_0000_0000,
    ensures
        ({
            let start = c.timeline_start * rate / 1_000_000;
            &&& span_of(m, rate) == (start, start + length * rate / 1_000_000)
            &&& live_span(m, rate) == (start, start + length * rate / 1_000_000)
        }),
{
    lemma_sounding_length(m, c, length);
    lemma_whole_samples(c.timeline_start as int, rate);
    lemma_whole_samples(length, rate);
}

/// A clip that is heard sounds in its own time, in the export and in playback: from the
/// sample at its place on the timeline on, for as many samples as its source takes at its
/// speed.
pub proof fn law_clips_sound_in_their_time(
    p: ProjectView,
    powers: Seq<Seq<Float32>>,
    track_powers: Seq<Float32>,
    track: int,
    clip: int,
    length: int,
    rate: int,
) -> (x: int)
    requires
        is_heard(p, track, clip),
        sounds_for(p.audio_tracks[track].clips[clip], length),
        countable(p.audio_tracks[track].clips[clip], length, rate),
        0 <= rate < 0x20_0000_0000_0000,
    ensures
        ({
            let mix = mix_upto(p, powers, track_powers, p.audio_tracks.len() as int);
            let c = p.audio_tracks[track].clips[clip];
            let start = c.timeline_start * rate / 1_000_000;
            &&& 0 <= x < mix.len()
            &&& is_of(mix[x], p, c)
            &&& span_of(mix[x], rate) == (start, start + length * rate / 1_000_000)
            &&& live_span(mix[x], rate) == (start, start + length * rate / 1_000_000)
        }),
{
    let n = p.audio_tracks.len() as int;
    let x = lemma_in_mix_upto(p, powers, track_powers, n, track, clip);
    let c = p.audio_tracks[track].clips[clip];
    lemma_spans(mix_upto(p, powers, track_powers, n)[x], c, length, rate);
    x
}

/// A sample lies in the time of no clip that is heard. `lengths` tells how long each clip
/// sounds.
pub open spec fn outside_all(
    p: ProjectView,
    lengths: spec_fn(int, int) -> int,
    s: int,
    rate: int,
) -> bool {
    forall|t: int, j: int| #[trigger]
        is_heard(p, t, j) ==> {
            let c = p.audio_tracks[t].clips[j];
            let start = c.timeline_start * rate / 1_000_000;
            &&& sounds_for(c, lengths(t, j))
            &&& countable(c, lengths(t, j), rate)
            &&& s < start || s >= start + lengths(t, j) * rate / 1_000_000
        }
}

proof fn lemma_live_silence(
    clips: Seq<MixClipView>,
    s: int,
    o: int,
    channels: int,
    rate: int,
    n: int,
)
    requires
        0 <= n <= clips.len(),
        forall|k: int|
            0 <= k < n ==> s < live_span(#[trigger] clips[k], rate).0 || s >= live_span(
                clips[k],
                rate,
            ).1,
    ensures
        live_summed(clips, s, o, channels, rate, n) == num(0),
    decreases n,
{
    if n > 0 {
        lemma_live_silence(clips, s, o, channels, rate, n - 1);
        assert(live_sample(clips[n - 1], s, o, channels, rate).is_none());
    }
}

/// The mix of a project is silent, in the export and in playback, at each sample that lies
/// in the time of none of its clips that are heard.
pub proof fn law_silence_outside_the_clips(
    p: ProjectView,
    powers: Seq<Seq<Float32>>,
    track_powers: Seq<Float32>,
    lengths: spec_fn(int, int) -> int,
    s: int,
    ch: int,
    channels: int,
    rate: int,
)
    requires
        0 <= rate < 0x20_0000_0000_0000,
        outside_all(p, lengths, s, rate),
    ensures
        ({
            let mix = mix_upto(p, powers, track_powers, p.audio_tracks.len() as int);
            &&& summed(mix, s, ch, rate, mix.len() as int) == num(0)
            &&& live_summed(mix, s, ch, channels, rate, mix.len() as int) == num(0)
        }),
{
    let n = p.audio_tracks.len() as int;
    let mix = mix_upto(p, powers, track_powers, n);
    assert forall|x: int| 0 <= x < mix.len() implies ({
        let (a, b) = span_of(#[trigger] mix[x], rate);
        live_span(mix[x], rate) == (a, b) && (s < a || s >= b)
    }) by {
        let (t, j) = lemma_mix_upto(p, powers, track_powers, n, x);
        assert(is_heard(p, t, j));
        lemma_spans(mix[x], p.audio_tracks[t].clips[j], lengths(t, j), rate);
    }
    law_silence_where_no_clip_reaches(mix, s, ch, rate, mix.len() as int);
    lemma_live_silence(mix, s, ch, channels, rate, mix.len() as int);
}

/// The gains of a clip and its track multiply, and each of them is silent at -90 decibels and
/// below; `own` and `whole` are their linear gains.
pub proof fn law_gains_multiply(
    p: ProjectView,
    powers: Seq<Seq<Float32>>,
    track_powers: Seq<Float32>,
    x: int,
) -> (r: (int, int))
    requires
        0 <= x < mix_upto(p, powers, track_powers, p.audio_tracks.len() as int).len(),
    ensures
        ({
            let mix = mix_upto(p, powers, track_powers, p.audio_tracks.len() as int);
            let (t, j) = r;
            let c = p.audio_tracks[t].clips[j];
            let own = powers[t][j]@;
            let whole = track_powers[t]@;
            &&& is_heard(p, t, j)
            &&& is_of(mix[x], p, c)
            &&& less(num(-90), c.gain_db@) && less(num(-90), p.audio_tracks[t].gain_db@)
                ==> mix[x].gain == product(single(), own, whole)
            &&& no_more(c.gain_db@, num(-90)) && less(num(-90), p.audio_tracks[t].gain_db@)
                ==> mix[x].gain == product(single(), num(0), whole)
            &&& less(num(-90), c.gain_db@) && no_more(p.audio_tracks[t].gain_db@, num(-90))
                ==> mix[x].gain == product(single(), own, num(0))
        }),
{
    lemma_mix_upto(p, powers, track_powers, p.audio_tracks.len() as int, x)
}

/// The part that a whole number is of a larger one, computed with 64 bits and kept in 32.
proof fn lemma_narrow_part(i: int, j: int) -> (q: nat)
    requires
        0 <= i <= j,
        0 < j < 0x20_0000_0000_0000,
    ensures
        narrowed(quotient(double(), big(i), big(j))) == (Number::Finite {
            negative: false,
            units: q,
        }),
        q <= pow2(149),
        (q * j - i * pow2(149)) * 0x20_0000 <= pow2(149) * j,
        (i * pow2(149) - q * j) * 0x20_0000 <= pow2(149) * j,
{
    reveal(quotient);
    reveal(narrowed);
    let (u, g, one) = (pow2(149), pow2(925), pow2(1074));
    lemma2_to64();
    lemma2_to64_rest();
    lemma_pow2_adds(149, 925);
    lemma_pow2_pos(149);
    lemma_pow2_pos(925);
    lemma_pow2_pos(1074);
    lemma_pow2_strictly_increases(64, 149);
    lemma_pow2_strictly_increases(64, 925);
    law_integers_are_exact(double(), i);
    law_integers_are_exact(double(), j);
    let (n, m) = (i as nat, j as nat);
    let (a, b) = ((n * one) * one, m * one);
    assert(b > 0 && a <= (1 * one) * b && 1 * one == one) by (nonlinear_arith)
        requires
            a == (n * one) * one,
            b == m * one,
            n <= m,
            m > 0,
            one > 0,
    ;
    let v = rounded(53, a, b);
    lemma_rounded_bound(53, a, b);
    lemma_rounded_within(53, a, b, 1, 1074);
    lemma_pow2_strictly_increases(1074, 2098);
    let (vm, no, w) = (v * m, n * one, pow2(53));
    assert(vm * w <= no * (w + 1) + m * w && no * w <= vm * w + no + m * w) by (nonlinear_arith)
        requires
            (v * b) * w <= a * (w + 1) + b * w,
            a * w <= (v * b) * w + a + b * w,
            a == no * one,
            b == m * one,
            vm == v * m,
            one > 0,
    ;
    // Now in 32 bits.
    let q = rounded(24, v, g);
    lemma_rounded_bound(24, v, g);
    assert(v <= (1 * u) * g) by (nonlinear_arith)
        requires
            v <= one,
            one == u * g,
    ;
    lemma_rounded_within(24, v, g, 1, 149);
    assert(1 * u == u) by (nonlinear_arith);
    lemma_pow2_strictly_increases(149, 277);
    let (qm, qg, gm, mo) = (q * m, (q * m) * g, g * m, m * one);
    assert(qg * 0x100_0000 <= vm * 0x100_0001 + gm * 0x100_0000 && vm * 0x100_0000 <= qg
        * 0x100_0000 + vm + gm * 0x100_0000) by (nonlinear_arith)
        requires
            (q * g) * 0x100_0000 <= v * 0x100_0001 + g * 0x100_0000,
            v * 0x100_0000 <= (q * g) * 0x100_0000 + v + g * 0x100_0000,
            qg == (q * m) * g,
            vm == v * m,
            gm == g * m,
    ;
    assert(vm <= mo && no <= mo && gm * 0x1000_0000 <= mo && m * 0x1000_0000 <= mo)
        by (nonlinear_arith)
        requires
            vm == v * m,
            no == n * one,
            gm == g * m,
            mo == m * one,
            v <= one,
            n <= m,
            one == u * g,
            u >= 0x1000_0000,
            g >= 1,
    ;
    assert(vm * 0x1000_0000 <= no * 0x1000_0000 + no + m * 0x1000_0000 && no * 0x1000_0000 <= vm
        * 0x1000_0000 + no + m * 0x1000_0000) by (nonlinear_arith)
        requires
            vm * w <= no * (w + 1) + m * w,
            no * w <= vm * w + no + m * w,
            w >= 0x1000_0000,
            no >= 0,
    ;
    assert((qg - no) * 0x20_0000 <= mo && (no - qg) * 0x20_0000 <= mo);
    let (nu, mu) = (n * u, m * u);
    assert((qm - nu) * 0x20_0000 <= mu && (nu - qm) * 0x20_0000 <= mu) by (nonlinear_arith)
        requires
            (qg - no) * 0x20_0000 <= mo,
            (no - qg) * 0x20_0000 <= mo,
            qg == qm * g,
            no == n * (u * g),
            mo == m * (u * g),
            nu == n * u,
            mu == m * u,
            g > 0,
    ;
    lemma_mul_is_commutative(m as int, u as int);
    q
}

/// How far a clip has faded in at a time from its start, and how far it has still to fade
/// out, as fractions.
pub open spec fn part_of_fade(fade: int, us: int) -> (int, int) {
    if us < fade {
        (us, fade)
    } else {
        (1, 1)
    }
}

/// The fades of a clip are linear: a clip of full gain sounds with the part of its fade that
/// has passed since its start, times the part of its fade that is left until its end. Here
/// `gain` counts the smallest numbers in what the clip is multiplied with.
pub proof fn law_fades_are_linear(c: MixClipView, at: int, length: int) -> (gain: nat)
    requires
        c.gain == num(1),
        c.envelope.len() == 0,
        sounding_length(c) == big(length),
        0 <= at <= length < 0x20_0000_0000_0000,
        c.fade_in < 0x20_0000_0000_0000,
        c.fade_out < 0x20_0000_0000_0000,
    ensures
        gain_at(c, big(at)) == (Number::Finite { negative: false, units: gain }),
        ({
            let (a, b) = part_of_fade(c.fade_in as int, at);
            let (x, y) = part_of_fade(c.fade_out as int, length - at);
            &&& 0 < b && 0 < y
            &&& (gain * (b * y) - pow2(149) * (a * x)) * 0x4_0000 <= pow2(149) * (b * y)
            &&& (pow2(149) * (a * x) - gain * (b * y)) * 0x4_0000 <= pow2(149) * (b * y)
        }),
{
    let u = pow2(149) as int;
    let f = single();
    let (a, b) = part_of_fade(c.fade_in as int, at);
    let (x, y) = part_of_fade(c.fade_out as int, length - at);
    lemma2_to64();
    lemma2_to64_rest();
    lemma_pow2_pos(149);
    law_integers_are_exact(f, 1);
    law_multiplication_by_one_is_exact(f, 1);
    assert(1 * u == u) by (nonlinear_arith);
    law_integers_are_exact(double(), at);
    law_integers_are_exact(double(), length);
    law_integers_are_exact(double(), length - at);
    law_integers_are_exact(double(), 0);
    lemma_whole_difference(length, at);
    lemma_integers_in_order(double(), length - at, 0);
    let g = product(f, c.gain, envelope_at(c.envelope, to_time(big(at))));
    assert(g == num(1));
    if c.fade_in > 0 {
        law_integers_are_exact(double(), c.fade_in as int);
        lemma_integers_in_order(double(), at, c.fade_in as int);
    }
    if c.fade_out > 0 {
        law_integers_are_exact(double(), c.fade_out as int);
        lemma_integers_in_order(double(), length - at, c.fade_out as int);
    }
    let z = if at < c.fade_in {
        let q = lemma_narrow_part(at, c.fade_in as int);
        lemma_shared(u as nat, q)
    } else {
        u as nat
    };
    let (zb, ua, ub) = (z * b, u * a, u * b);
    assert((zb - ua) * 0x10_0000 <= ub && (ua - zb) * 0x10_0000 <= ub) by {
        if at < c.fade_in {
            let q = lemma_narrow_part(at, c.fade_in as int);
            let z2 = lemma_shared(u as nat, q);
            assert((z2 - q) * 0x40_0000 <= u && (q - z2) * 0x40_0000 <= u) by (nonlinear_arith)
                requires
                    (z2 * u - u * q) * 0x40_0000 <= u * u,
                    (u * q - z2 * u) * 0x40_0000 <= u * u,
                    u > 0,
            ;
            let qb = q * b;
            assert(z == z2);
            assert((zb - qb) * 0x40_0000 <= ub && (qb - zb) * 0x40_0000 <= ub) by (nonlinear_arith)
                requires
                    (z2 - q) * 0x40_0000 <= u,
                    (q - z2) * 0x40_0000 <= u,
                    zb == z2 * b,
                    qb == q * b,
                    ub == u * b,
                    b > 0,
            ;
            lemma_mul_is_commutative(u, a);
        } else {
            assert(z * 1 == u * 1) by (nonlinear_arith)
                requires
                    z == u,
            ;
        }
    }
    let gain = if length - at < c.fade_out {
        let q = lemma_narrow_part(length - at, c.fade_out as int);
        lemma_shared(z, q)
    } else {
        z
    };
    let (ky, zx, uy) = (gain * y, z * x, u * y);
    assert((ky - zx) * 0x10_0000 <= uy && (zx - ky) * 0x10_0000 <= uy) by {
        if length - at < c.fade_out {
            let q = lemma_narrow_part(length - at, c.fade_out as int);
            let k2 = lemma_shared(z, q);
            assert(gain == k2);
            lemma_part_of_share(z as int, q as int, gain as int, x, y, u);
        } else {
            assert(gain * 1 == z * 1) by (nonlinear_arith)
                requires
                    gain == z,
            ;
        }
    }
    let (k, l, w) = (ky * b, zx * b, uy * b);
    assert((k - l) * 0x10_0000 <= w && (l - k) * 0x10_0000 <= w) by (nonlinear_arith)
        requires
            (ky - zx) * 0x10_0000 <= uy,
            (zx - ky) * 0x10_0000 <= uy,
            k == ky * b,
            l == zx * b,
            w == uy * b,
            b > 0,
    ;
    let (v, e) = (ua * x, ub * x);
    assert(l == zb * x) by (nonlinear_arith)
        requires
            l == (z * x) * b,
            zb == z * b,
    ;
    assert((l - v) * 0x10_0000 <= e && (v - l) * 0x10_0000 <= e) by (nonlinear_arith)
        requires
            (zb - ua) * 0x10_0000 <= ub,
            (ua - zb) * 0x10_0000 <= ub,
            l == zb * x,
            v == ua * x,
            e == ub * x,
            x >= 0,
    ;
    assert(e <= w && w > 0) by (nonlinear_arith)
        requires
            e == (u * b) * x,
            w == (u * y) * b,
            x <= y,
            y > 0,
            b > 0,
            u > 0,
    ;
    assert(gain * (b * y) == k && u * (a * x) == v && u * (b * y) == w) by (nonlinear_arith)
        requires
            k == (gain * y) * b,
            v == (u * a) * x,
            w == (u * y) * b,
    ;
    gain
}

/// A share of a number times a part.
proof fn lemma_part_of_share(z: int, q: int, k: int, i: int, j: int, u: int)
    requires
        0 <= z <= u,
        u > 0,
        j > 0,
        (k * u - z * q) * 0x40_0000 <= u * u,
        (z * q - k * u) * 0x40_0000 <= u * u,
        (q * j - i * u) * 0x20_0000 <= u * j,
        (i * u - q * j) * 0x20_0000 <= u * j,
    ensures
        (k * j - z * i) * 0x10_0000 <= u * j,
        (z * i - k * j) * 0x10_0000 <= u * j,
{
    let (ku, zq, uu) = (k * u, z * q, u * u);
    let (x, y, w) = (ku * j, zq * j, uu * j);
    assert((x - y) * 0x40_0000 <= w && (y - x) * 0x40_0000 <= w) by (nonlinear_arith)
        requires
            (ku - zq) * 0x40_0000 <= uu,
            (zq - ku) * 0x40_0000 <= uu,
            x == ku * j,
            y == zq * j,
            w == uu * j,
            j > 0,
    ;
    let (v, e) = ((z * i) * u, z * (u * j));
    assert((y - v) * 0x20_0000 <= e && (v - y) * 0x20_0000 <= e) by (nonlinear_arith)
        requires
            (q * j - i * u) * 0x20_0000 <= u * j,
            (i * u - q * j) * 0x20_0000 <= u * j,
            y == (z * q) * j,
            v == (z * i) * u,
            e == z * (u * j),
            z >= 0,
    ;
    assert(e <= w && w > 0) by (nonlinear_arith)
        requires
            e == z * (u * j),
            w == (u * u) * j,
            z <= u,
            j > 0,
            u > 0,
    ;
    let (kj, zi, uj) = (k * j, z * i, u * j);
    assert((x - v) * 0x10_0000 <= w && (v - x) * 0x10_0000 <= w);
    assert((kj - zi) * 0x10_0000 <= uj && (zi - kj) * 0x10_0000 <= uj) by (nonlinear_arith)
        requires
            (x - v) * 0x10_0000 <= w,
            (v - x) * 0x10_0000 <= w,
            x == (k * u) * j,
            v == zi * u,
            w == (u * u) * j,
            kj == k * j,
            uj == u * j,
            u > 0,
    ;
}

/// What sounds of a clip comes from the right place of its source: `ms` milliseconds after
/// its start, at a speed that takes it `on` milliseconds through the source, sounds the
/// sample that far behind the one at which the clip begins, times its gain. A mono clip
/// sounds on both channels.
pub proof fn law_samples_come_from_the_source(
    c: MixClipView,
    ms: int,
    on: int,
    begin: int,
    gain: int,
    ch: int,
)
    requires
        c.channels >= 1,
        c.envelope.len() == 0,
        c.fade_in <= 0,
        c.fade_out <= 0,
        c.gain == num(gain),
        0 <= gain < 0x100_0000,
        c.source_in == 1000 * begin,
        0 <= begin < 0x400_0000,
        0 <= ms < 0x400_0000,
        0 <= on < 0x400_0000,
        0 <= ch < 2,
        match c.speed@ {
            Number::Finite { negative, units } => {
                &&& !negative
                &&& no_more((Float32 { bits: 0x3c23_d70a })@, c.speed@)
                &&& ms * units == on * pow2(149)
            },
            _ => false,
        },
        span_of(c, 48_000).0 + 48 * ms < span_of(c, 48_000).1,
    ensures
        ({
            let frame = 48 * (begin + on);
            let i = if c.channels == 1 {
                frame
            } else {
                frame * c.channels + ch
            };
            clip_sample(c, span_of(c, 48_000).0 + 48 * ms, ch, 48_000) == if i < c.pcm.len() {
                Some(product(single(), c.pcm[i]@, num(gain)))
            } else {
                None
            }
        }),
{
    reveal(widened);
    let d = double();
    let (u, g, one) = (pow2(149), pow2(925), pow2(1074));
    lemma2_to64();
    lemma2_to64_rest();
    lemma_pow2_adds(149, 925);
    lemma_pow2_pos(149);
    lemma_pow2_pos(925);
    lemma_pow2_pos(1074);
    law_integers_are_exact(d, 48 * ms);
    law_integers_are_exact(d, 1000 * ms);
    law_integers_are_exact(d, 1000 * on);
    law_integers_are_exact(d, 1_000_000);
    law_integers_are_exact(d, 48_000);
    assert((48 * ms) * 1_000_000 == (1000 * ms) * 48_000);
    // The time into the clip.
    lemma_small_micros(ms);
    let local = big(1000 * ms);
    assert(micros_of(48 * ms, 48_000) == local);
    // The time into the source.
    if let Number::Finite { negative, units } = c.speed@ {
        reveal(product);
        reveal(less);
        let v = units * g;
        assert(mix_speed(c) == (Number::Finite { negative: false, units: v }));
        let (a, b) = ((1000 * ms) as nat, (1000 * on) as nat);
        assert((a * one) * v == (b * one) * one) by (nonlinear_arith)
            requires
                one == u * g,
                v == units * g,
                a == 1000 * ms,
                b == 1000 * on,
                ms * units == on * u,
        ;
        lemma_exact(d, false, b, 1074, one);
        assert(product(d, local, mix_speed(c)) == big(1000 * on));
    }
    lemma_small_samples(begin);
    lemma_small_samples(on);
    law_integers_are_exact(d, 48 * begin);
    law_integers_are_exact(d, 48 * on);
    law_integer_sums_are_exact(d, 48 * begin, 48 * on);
    law_integers_come_back(d, Toward::Zero, 48 * begin + 48 * on, 0, u64::MAX as int);
    assert(source_frame(c, local) == 48 * (begin + on));
    law_integers_are_exact(single(), gain);
    law_integers_are_exact(single(), 1);
    law_multiplication_by_one_is_exact(single(), gain);
    assert(gain_at(c, local) == num(gain));
}

proof fn lemma_small_micros(ms: int)
    requires
        0 <= ms < 0x400_0000,
    ensures
        micros_of(48 * ms, 48_000) == big(1000 * ms),
{
    let d = double();
    lemma2_to64_rest();
    law_integers_are_exact(d, 48 * ms);
    law_integers_are_exact(d, 1000 * ms);
    law_integers_are_exact(d, 1_000_000);
    law_integers_are_exact(d, 48_000);
    law_integer_products_are_exact(d, 48 * ms, 1_000_000);
    lemma_exact_quotient(d, 1000 * ms, 48_000);
}

proof fn lemma_small_samples(ms: int)
    requires
        0 <= ms < 0x400_0000,
    ensures
        samples_of(big(1000 * ms), 48_000) == big(48 * ms),
{
    let d = double();
    lemma2_to64_rest();
    law_integers_are_exact(d, 48 * ms);
    law_integers_are_exact(d, 1000 * ms);
    law_integers_are_exact(d, 1_000_000);
    law_integers_are_exact(d, 48_000);
    law_integer_products_are_exact(d, 1000 * ms, 48_000);
    lemma_exact_quotient(d, 48 * ms, 1_000_000);
}

/// The speed of a clip takes it `on` milliseconds through its source in `ms` milliseconds.
pub open spec fn takes_through(c: MixClipView, ms: int, on: int) -> bool {
    match c.speed@ {
        Number::Finite { negative, units } => {
            &&& !negative
            &&& no_more((Float32 { bits: 0x3c23_d70a })@, c.speed@)
            &&& ms * units == on * pow2(149)
        },
        _ => false,
    }
}

/// So many whole units, at the speed of a clip.
proof fn lemma_at_speed(c: MixClipView, ms: int, on: int, unit: int)
    requires
        takes_through(c, ms, on),
        0 <= ms < 0x400_0000,
        0 <= on < 0x400_0000,
        0 < unit <= 1000,
    ensures
        product(double(), big(unit * ms), mix_speed(c)) == big(unit * on),
{
    reveal(widened);
    reveal(product);
    reveal(less);
    let d = double();
    let (u, g, one) = (pow2(149), pow2(925), pow2(1074));
    lemma2_to64_rest();
    lemma_pow2_adds(149, 925);
    lemma_pow2_pos(149);
    lemma_pow2_pos(925);
    lemma_pow2_pos(1074);
    assert(0 <= unit * ms < 0x20_0000_0000_0000 && 0 <= unit * on < 0x20_0000_0000_0000)
        by (nonlinear_arith)
        requires
            0 <= ms < 0x400_0000,
            0 <= on < 0x400_0000,
            0 < unit <= 1000,
    ;
    law_integers_are_exact(d, unit * ms);
    law_integers_are_exact(d, unit * on);
    if let Number::Finite { negative, units } = c.speed@ {
        let v = units * g;
        assert(mix_speed(c) == (Number::Finite { negative: false, units: v }));
        let (a, b) = ((unit * ms) as nat, (unit * on) as nat);
        assert((a * one) * v == (b * one) * one) by (nonlinear_arith)
            requires
                one == u * g,
                v == units * g,
                a == unit * ms,
                b == unit * on,
                ms * units == on * u,
        ;
        lemma_exact(d, false, b, 1074, one);
    }
}

/// Playback at 48 kHz on two channels is what is exported: at each whole millisecond into a
/// clip of one or two channels, with its speed, gain, fades and envelope, both give the same
/// sample.
pub proof fn law_playback_is_what_is_exported(
    c: MixClipView,
    ms: int,
    on: int,
    begin: int,
    length: int,
    ch: int,
)
    requires
        c.channels == 1 || c.channels == 2,
        c.pcm.len() % 2 == 0,
        c.timeline_start >= 0,
        c.timeline_start + length < 0x20_0000_0000_0000,
        sounding_length(c) == big(length),
        1000 * ms <= length,
        c.source_in == 1000 * begin,
        0 <= begin < 0x400_0000,
        0 <= ms < 0x400_0000,
        0 <= on < 0x400_0000,
        takes_through(c, ms, on),
        48 * (begin + on) < c.pcm.len(),
        0 <= ch < 2,
        span_of(c, 48_000).1 <= i64::MAX,
        span_of(c, 48_000).0 + 48 * ms < span_of(c, 48_000).1,
    ensures
        live_sample(c, span_of(c, 48_000).0 + 48 * ms, ch, 2, 48_000) == clip_sample(
            c,
            span_of(c, 48_000).0 + 48 * ms,
            ch,
            48_000,
        ),
{
    let d = double();
    lemma2_to64_rest();
    law_playback_and_export_span_alike(c, 48_000);
    lemma_small_micros(ms);
    law_integers_are_exact(d, 1000 * ms);
    law_playback_and_export_gain_alike(c, 48 * ms, 48_000, 1000 * ms, length);
    lemma_at_speed(c, ms, on, 1000);
    lemma_at_speed(c, ms, on, 48);
    lemma_small_samples(begin);
    lemma_small_samples(on);
    law_integers_are_exact(d, 48 * begin);
    law_integers_are_exact(d, 48 * on);
    law_integers_are_exact(d, 48 * ms);
    law_integers_are_exact(d, 48_000);
    law_integer_sums_are_exact(d, 48 * begin, 48 * on);
    law_integers_come_back(d, Toward::Zero, 48 * begin + 48 * on, 0, u64::MAX as int);
    law_integers_come_back(d, Toward::Zero, 48 * begin, 0, u64::MAX as int);
    law_integers_come_back(d, Toward::Zero, 48 * on, 0, u64::MAX as int);
    law_integer_products_are_exact(d, 48 * ms, 48_000);
    lemma_exact_quotient(d, 48 * ms, 48_000);
    assert(live_frame(c, 48 * ms, 48_000) == 48 * (begin + on));
    assert(source_frame(c, big(1000 * ms)) == 48 * (begin + on));
}

/// What some whole numbers add up to, up to the `n`th.
pub open spec fn added_up(values: Seq<int>, n: int) -> int
    decreases n,
{
    if n <= 0 {
        0
    } else {
        added_up(values, n - 1) + values[n - 1]
    }
}

proof fn lemma_added_up(values: Seq<int>, n: int, m: int)
    requires
        0 <= n <= m <= values.len(),
        forall|k: int| 0 <= k < values.len() ==> 0 <= #[trigger] values[k],
    ensures
        0 <= added_up(values, n) <= added_up(values, m),
    decreases m,
{
    if n < m {
        lemma_added_up(values, n, m - 1);
    } else if n > 0 {
        lemma_added_up(values, n - 1, m - 1);
    }
}

/// A clip gives a whole number, or nothing where that is zero.
pub open spec fn gives_value(v: Option<Number>, value: int) -> bool {
    match v {
        Some(x) => x == num(value),
        None => value == 0,
    }
}

/// Clips that sound at once add up, and the master gain multiplies what they add up to, in
/// the export and in playback.
pub proof fn law_clips_add_up(
    clips: Seq<MixClipView>,
    s: int,
    ch: int,
    channels: int,
    rate: int,
    values: Seq<int>,
    master: int,
    n: int,
)
    requires
        0 <= n <= clips.len(),
        values.len() == clips.len(),
        forall|k: int| 0 <= k < values.len() ==> 0 <= #[trigger] values[k],
        added_up(values, clips.len() as int) < 0x100_0000,
    ensures
        (forall|k: int|
            0 <= k < n ==> gives_value(
                #[trigger] clip_sample(clips[k], s, ch, rate),
                values[k],
            )) ==> summed(clips, s, ch, rate, n) == num(added_up(values, n)),
        (forall|k: int|
            0 <= k < n ==> gives_value(
                #[trigger] live_sample(clips[k], s, ch, channels, rate),
                values[k],
            )) ==> live_summed(clips, s, ch, channels, rate, n) == num(added_up(values, n)),
        (forall|k: int|
            0 <= k < n ==> gives_value(
                #[trigger] clip_sample(clips[k], s, ch, rate),
                values[k],
            )) && n == clips.len() && 0 <= master && 0 <= added_up(values, n) * master < 0x100_0000
            && master < 0x100_0000 ==> mixed_sample(clips, num(master), s, ch, rate) == num(
            added_up(values, n) * master,
        ),
    decreases n,
{
    let f = single();
    lemma2_to64();
    lemma_added_up(values, n, clips.len() as int);
    law_integers_are_exact(f, added_up(values, n));
    if n > 0 {
        law_clips_add_up(clips, s, ch, channels, rate, values, master, n - 1);
        lemma_added_up(values, n - 1, n);
        law_integers_are_exact(f, added_up(values, n - 1));
        law_integers_are_exact(f, values[n - 1]);
        law_integer_sums_are_exact(f, added_up(values, n - 1), values[n - 1]);
        assert(gives_value(clip_sample(clips[n - 1], s, ch, rate), values[n - 1]) ==> sum(
            f,
            num(added_up(values, n - 1)),
            num(values[n - 1]),
        ) == num(added_up(values, n)));
    }
    if 0 <= master < 0x100_0000 && 0 <= added_up(values, n) * master < 0x100_0000 {
        law_integers_are_exact(f, master);
        law_integers_are_exact(f, added_up(values, n) * master);
        law_integer_products_are_exact(f, added_up(values, n), master);
    }
}

/// The envelope of a clip shapes its gain: outside of its fades a clip sounds with its own gain
/// times what the envelope gives at that time from its start, in the export and in playback.
pub proof fn law_envelopes_shape_the_gain(
    c: MixClipView,
    at: int,
    length: int,
    gain: int,
    point: int,
    n: int,
    rate: int,
)
    requires
        c.gain == num(gain),
        0 <= at <= length < 0x20_0000_0000_0000,
        c.timeline_start >= 0,
        c.timeline_start + length < 0x20_0000_0000_0000,
        envelope_at(c.envelope, at) == num(point),
        sounding_length(c) == big(length),
        micros_of(n, rate) == big(at),
        c.fade_in <= at,
        c.fade_out <= length - at,
        0 <= gain < 0x100_0000,
        0 <= point < 0x100_0000,
        gain * point < 0x100_0000,
    ensures
        gain_at(c, big(at)) == num(gain * point),
        live_gain(c, n, rate) == num(gain * point),
{
    let (d, f) = (double(), single());
    lemma2_to64();
    lemma2_to64_rest();
    law_integers_are_exact(d, at);
    law_integers_are_exact(d, length);
    law_integers_are_exact(d, length - at);
    law_integers_come_back(d, Toward::Zero, at, i64::MIN as int, i64::MAX as int);
    lemma_whole_difference(length, at);
    assert(0 <= gain * point) by (nonlinear_arith)
        requires
            0 <= gain,
            0 <= point,
    ;
    law_integers_are_exact(f, gain);
    law_integers_are_exact(f, point);
    law_integers_are_exact(f, gain * point);
    law_integer_products_are_exact(f, gain, point);
    if c.fade_in > 0 {
        law_integers_are_exact(d, c.fade_in as int);
        lemma_integers_in_order(d, at, c.fade_in as int);
    }
    if c.fade_out > 0 {
        law_integers_are_exact(d, c.fade_out as int);
        lemma_integers_in_order(d, length - at, c.fade_out as int);
    }
    law_playback_and_export_gain_alike(c, n, rate, at, length);
}

/// On a single channel a stereo clip sounds as the mean of its two channels, on two or more
/// on the first two of them, and a mono clip sounds the same on the first two. This holds of
/// whole samples at full gain.
pub proof fn law_channels_are_shared_out(
    c: MixClipView,
    s: int,
    channels: int,
    rate: int,
    left: int,
    right: int,
)
    requires
        live_span(c, rate).0 <= s < live_span(c, rate).1,
        live_gain(c, s - live_span(c, rate).0, rate) == num(1),
        c.channels == 1 || c.channels == 2,
        ({
            let frame = live_frame(c, s - live_span(c, rate).0, rate);
            &&& 0 <= frame
            &&& c.channels * (frame + 1) <= c.pcm.len()
            &&& c.pcm[c.channels * frame]@ == num(left)
            &&& c.channels == 2 ==> c.pcm[2 * frame + 1]@ == num(right)
        }),
        channels >= 1,
        0 <= left < 0x40_0000,
        0 <= right < 0x40_0000,
    ensures
        c.channels == 2 && channels == 1 ==> live_sample(c, s, 0, 1, rate) == Some(
            halves(left + right),
        ),
        c.channels == 2 && channels > 1 ==> live_sample(c, s, 0, channels, rate) == Some(num(left)),
        c.channels == 2 && channels > 1 ==> live_sample(c, s, 1, channels, rate) == Some(num(right)),
        c.channels == 1 ==> live_sample(c, s, 0, channels, rate) == Some(num(left)),
        c.channels == 1 ==> live_sample(c, s, 1, channels, rate) == Some(num(left)),
{
    let f = single();
    lemma2_to64();
    law_integers_are_exact(f, 1);
    law_integers_are_exact(f, left);
    law_integers_are_exact(f, right);
    law_integers_are_exact(f, left + right);
    law_multiplication_by_one_is_exact(f, left);
    law_multiplication_by_one_is_exact(f, right);
    law_integer_sums_are_exact(f, left, right);
    lemma_halves(left + right);
    let frame = live_frame(c, s - live_span(c, rate).0, rate);
    assert(1 * frame == frame && 1 * (frame + 1) == frame + 1 && 2 * (frame + 1) == 2 * frame + 2)
        by (nonlinear_arith);
}

} // verus!
