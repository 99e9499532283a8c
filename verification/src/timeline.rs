//! The timeline data model: independent time-aligned tracks of video, audio and
//! text clips that refer to source assets.

use std::collections::HashMap;

use crate::audio::{db_to_linear, linear_gain};
use crate::exact::{
    halves, integer, law_division_by_one_is_exact, law_integers_are_exact, law_integers_come_back,
    law_multiplication_by_one_is_exact, lemma_exact, lemma_exact_quotient, lemma_half_of,
    lemma_halves, lemma_halves_alone, lemma_halves_in_order, lemma_integers_in_order, lemma_one,
    lemma_over_itself, lemma_signed_halves, lemma_sum_of_halves,
};
use crate::float::{
    clamp_number, difference, double, less, no_more, of_integer, positive, product, quotient,
    single, sum, to_integer, widened, Float32, Float64, Number, Toward,
};
use vstd::arithmetic::mul::lemma_mul_strictly_positive;
use vstd::arithmetic::power2::{
    lemma2_to64, lemma2_to64_rest, lemma_pow2_adds, lemma_pow2_pos, pow2,
};
use vstd::prelude::*;

verus! {

/// Time position in microseconds.
pub type Timecode = i64;

pub const SECOND_US: i64 = 1_000_000;

pub const DEFAULT_SAMPLE_RATE: u32 = 48_000;

/// The bit pattern of the default frame rate, thirty frames per second.
pub const DEFAULT_FPS_BITS: u64 = 0x403e_0000_0000_0000;

/// The bit patterns of some 32-bit numbers.
pub const ZERO_BITS: u32 = 0;

pub const HALF_BITS: u32 = 0x3f00_0000;

pub const ONE_BITS: u32 = 0x3f80_0000;

pub const EIGHT_BITS: u32 = 0x4100_0000;

pub const TWENTY_FOUR_BITS: u32 = 0x41c0_0000;

#[derive(Debug, Clone, Copy, PartialEq, Eq, Hash, Structural)]
pub struct AssetId(pub u64);

#[derive(Debug, Clone, Copy, PartialEq, Eq, Structural)]
pub enum AssetKind {
    Video,
    Audio,
    Image,
}

/// A source asset on disk (video file, audio file, or static image).
#[derive(Debug, Clone)]
pub struct Asset {
    pub id: AssetId,
    pub kind: AssetKind,
    pub name: String,
    pub path: String,
    pub duration_us: Timecode,
    pub width: u32,
    pub height: u32,
    pub frame_rate: Float64,
    pub sample_rate: u32,
    pub channels: u32,
    /// Downsampled waveform peaks (min, max) per bin, generated on import.
    pub peaks: Vec<(Float32, Float32)>,
    /// For images: decoded RGBA8 pixels, kept in memory.
    pub rgba: Option<Vec<u8>>,
    /// Small RGBA8 thumbnail (w, h, pixels). Video = first decoded frame;
    /// image = downscaled source; audio = none.
    pub thumb: Option<(u32, u32, Vec<u8>)>,
    /// For audio: fully decoded interleaved PCM at the project rate.
    pub pcm: Option<Vec<Float32>>,
    /// For video: a few evenly spaced tiny frames (filmstrip preview).
    pub filmstrip: Option<Vec<(u32, u32, Vec<u8>)>>,
}

impl Asset {
    /// The decoded pixels of an image asset.
    pub fn image(&self) -> (r: Option<&[u8]>)
        ensures
            r.is_some() == self.rgba.is_some(),
            r.is_some() ==> r.unwrap()@ == self.rgba.unwrap()@,
    {
        match &self.rgba {
            Some(pixels) => Some(pixels.as_slice()),
            None => None,
        }
    }
}

/// The assets of a project by number.
#[derive(Debug, Clone)]
pub struct AssetStore {
    pub assets: HashMap<u64, Asset>,
    next_id: u64,
}

/// What an asset store holds, and the number that the next new asset gets.
pub struct AssetStoreView {
    pub assets: Map<u64, Asset>,
    pub next_id: u64,
}

impl View for AssetStore {
    type V = AssetStoreView;

    closed spec fn view(&self) -> AssetStoreView {
        AssetStoreView { assets: self.assets@, next_id: self.next_id }
    }
}

impl AssetStoreView {
    /// Every asset is filed under its own number, and the next number is above
    /// all of them and above zero, which stands for "not numbered yet".
    pub open spec fn consistent(self) -> bool {
        &&& self.next_id >= 1
        &&& self.assets.dom().finite()
        &&& forall|id: u64| #[trigger]
            self.assets.contains_key(id) ==> id < self.next_id && self.assets[id].id.0 == id
    }

    /// The number under which `insert` files an asset.
    pub open spec fn number_for(self, a: Asset) -> u64 {
        if a.id.0 == 0 {
            self.next_id
        } else {
            a.id.0
        }
    }

    /// The store after `insert`.
    pub open spec fn inserted(self, a: Asset) -> AssetStoreView {
        let id = self.number_for(a);
        AssetStoreView {
            assets: self.assets.insert(id, Asset { id: AssetId(id), ..a }),
            next_id: if self.next_id > id {
                self.next_id
            } else {
                (id + 1) as u64
            },
        }
    }
}

impl AssetStore {
    pub fn new() -> (s: AssetStore)
        ensures
            s@ == (AssetStoreView { assets: Map::empty(), next_id: 1 }),
            s@.consistent(),
    {
        broadcast use vstd::std_specs::hash::group_hash_axioms;

        AssetStore { assets: HashMap::new(), next_id: 1 }
    }

    /// Files an asset under its number, or under the next free one where it has
    /// none.
    pub fn insert(&mut self, a: Asset) -> (id: AssetId)
        requires
            old(self)@.number_for(a) < u64::MAX,
        ensures
            id.0 == old(self)@.number_for(a),
            final(self)@ == old(self)@.inserted(a),
            old(self)@.consistent() ==> final(self)@.consistent(),
    {
        broadcast use vstd::std_specs::hash::group_hash_axioms;

        let mut a = a;
        if a.id.0 == 0 {
            a.id = AssetId(self.next_id);
            self.next_id = self.next_id + 1;
        } else if self.next_id < a.id.0 + 1 {
            self.next_id = a.id.0 + 1;
        }
        let id: AssetId = a.id;
        self.assets.insert(id.0, a);
        id
    }

    pub fn get(&self, id: AssetId) -> (r: Option<&Asset>)
        ensures
            match r {
                Some(a) => self@.assets.contains_key(id.0) && *a == self@.assets[id.0],
                None => !self@.assets.contains_key(id.0),
            },
    {
        broadcast use vstd::std_specs::hash::group_hash_axioms;

        self.assets.get(&id.0)
    }

    pub fn len(&self) -> (n: usize)
        ensures
            n == self@.assets.len(),
    {
        broadcast use vstd::std_specs::hash::group_hash_axioms;

        self.assets.len()
    }

    /// The store with the given assets that numbers new ones from `next_id`.
    pub fn from_parts(assets: HashMap<u64, Asset>, next_id: u64) -> (s: AssetStore)
        ensures
            s@ == (AssetStoreView { assets: assets@, next_id }),
    {
        AssetStore { assets, next_id }
    }

    /// The number that the next new asset gets.
    pub fn next_id(&self) -> (n: u64)
        ensures
            n == self@.next_id,
    {
        self.next_id
    }

    /// Takes an asset out of the store; its number is not given out again.
    pub fn remove(&mut self, id: AssetId)
        ensures
            final(self)@ == (AssetStoreView { assets: old(self)@.assets.remove(id.0), ..old(self)@ }),
            old(self)@.consistent() ==> final(self)@.consistent(),
    {
        broadcast use vstd::std_specs::hash::group_hash_axioms;

        let _ = self.assets.remove(&id.0);
    }

    /// Puts another file in the place of that of an asset.
    pub fn relink(&mut self, id: AssetId, path: &str, name: Option<&str>)
        ensures
            final(self)@.next_id == old(self)@.next_id,
            if old(self)@.assets.contains_key(id.0) {
                exists|b: Asset| #[trigger]
                    crate::media::is_relinked(
                        old(self)@.assets[id.0],
                        b,
                        path@,
                        crate::prefs::text_view(name),
                    ) && final(self)@.assets == old(self)@.assets.insert(id.0, b)
            } else {
                final(self)@.assets == old(self)@.assets
            },
    {
        broadcast use vstd::std_specs::hash::group_hash_axioms;

        match self.assets.remove(&id.0) {
            Some(a) => {
                let ghost was = a;
                let mut b: Asset = a;
                b.path = path.to_string();
                if let Some(n) = name {
                    b.name = n.to_string();
                }
                b.peaks = Vec::new();
                b.pcm = None;
                if b.kind == AssetKind::Video {
                    b.filmstrip = None;
                }
                let ghost now = b;
                self.assets.insert(id.0, b);
                proof {
                    assert(self@.assets =~= old(self)@.assets.insert(id.0, now));
                    assert(crate::media::is_relinked(
                        was,
                        now,
                        path@,
                        crate::prefs::text_view(name),
                    ));
                }
            },
            None => {
                assert(self@.assets =~= old(self)@.assets);
            },
        }
    }

    pub fn copy(&self) -> (s: AssetStore)
        ensures
            s@ == self@,
    {
        broadcast use vstd::std_specs::hash::group_hash_axioms;

        AssetStore { assets: self.assets.clone(), next_id: self.next_id }
    }
}

impl Default for AssetStore {
    fn default() -> (s: AssetStore)
        ensures
            s@ == (AssetStoreView { assets: Map::empty(), next_id: 1 }),
    {
        AssetStore::new()
    }
}

/// Position, scale and rotation of a placement. `x` and `y` are normalized
/// centers within the composition.
#[derive(Debug, Clone, Copy)]
pub struct Transform {
    pub x: Float32,
    pub y: Float32,
    pub scale: Float32,
    /// Rotation in degrees (positive = clockwise).
    pub rotate: Float32,
}

/// A transform by its values.
pub struct TransformView {
    pub x: Number,
    pub y: Number,
    pub scale: Number,
    pub rotate: Number,
}

impl View for Transform {
    type V = TransformView;

    open spec fn view(&self) -> TransformView {
        TransformView { x: self.x@, y: self.y@, scale: self.scale@, rotate: self.rotate@ }
    }
}

/// Centered, at its own size, upright.
pub open spec fn default_transform() -> Transform {
    Transform {
        x: Float32 { bits: HALF_BITS },
        y: Float32 { bits: HALF_BITS },
        scale: Float32 { bits: ONE_BITS },
        rotate: Float32 { bits: ZERO_BITS },
    }
}

impl Default for Transform {
    fn default() -> (t: Transform)
        ensures
            t == default_transform(),
    {
        Transform {
            x: Float32 { bits: HALF_BITS },
            y: Float32 { bits: HALF_BITS },
            scale: Float32 { bits: ONE_BITS },
            rotate: Float32 { bits: ZERO_BITS },
        }
    }
}

#[derive(Debug, Clone, Copy, PartialEq, Eq, Structural)]
pub enum BlendMode {
    Normal,
    Multiply,
    Screen,
    Add,
    Overlay,
}

impl Default for BlendMode {
    fn default() -> (m: BlendMode)
        ensures
            m == BlendMode::Normal,
    {
        BlendMode::Normal
    }
}

/// Per-pixel color grade applied to a clip's source before compositing.
#[derive(Debug, Clone, Copy)]
pub struct ColorGrade {
    pub brightness: Float32,
    pub contrast: Float32,
    pub saturation: Float32,
    pub hue_shift: Float32,
}

/// The grade that changes nothing.
pub open spec fn neutral_grade() -> ColorGrade {
    ColorGrade {
        brightness: Float32 { bits: ZERO_BITS },
        contrast: Float32 { bits: ONE_BITS },
        saturation: Float32 { bits: ONE_BITS },
        hue_shift: Float32 { bits: ZERO_BITS },
    }
}

impl Default for ColorGrade {
    fn default() -> (g: ColorGrade)
        ensures
            g == neutral_grade(),
    {
        ColorGrade {
            brightness: Float32 { bits: ZERO_BITS },
            contrast: Float32 { bits: ONE_BITS },
            saturation: Float32 { bits: ONE_BITS },
            hue_shift: Float32 { bits: ZERO_BITS },
        }
    }
}

/// Animated transform: keyframe at `t_us` relative to the clip's timeline start.
#[derive(Debug, Clone, Copy)]
pub struct TransformKeyframe {
    pub t_us: Timecode,
    pub transform: Transform,
}

impl Default for TransformKeyframe {
    fn default() -> (k: TransformKeyframe)
        ensures
            k == (TransformKeyframe { t_us: 0, transform: default_transform() }),
    {
        TransformKeyframe { t_us: 0, transform: Transform::default() }
    }
}

/// A vector of its own with the same items.
pub fn copy_items<T: Copy>(items: &Vec<T>) -> (r: Vec<T>)
    ensures
        r@ == items@,
{
    let mut r: Vec<T> = Vec::new();
    let mut i: usize = 0;
    while i < items.len()
        invariant
            i <= items.len(),
            r@ == items@.take(i as int),
        decreases items.len() - i,
    {
        r.push(items[i]);
        i = i + 1;
        assert(r@ =~= items@.take(i as int));
    }
    assert(r@ =~= items@);
    r
}

/// `a - b` held within the range of `i64`.
pub open spec fn saturating_difference(a: int, b: int) -> int {
    if a - b > i64::MAX {
        i64::MAX as int
    } else if a - b < i64::MIN {
        i64::MIN as int
    } else {
        a - b
    }
}

fn saturating_sub(a: i64, b: i64) -> (r: i64)
    ensures
        r == saturating_difference(a as int, b as int),
{
    match a.checked_sub(b) {
        Some(d) => d,
        None => if b < 0 {
            i64::MAX
        } else {
            i64::MIN
        },
    }
}

/// How long a stretch of source takes on the timeline at a speed.
pub open spec fn timeline_length(source_in: i64, source_out: i64, speed: Float32) -> int {
    let d = saturating_difference(source_out as int, source_in as int);
    if positive(speed@) {
        to_integer(
            double(),
            Toward::Nearest,
            quotient(double(), of_integer(double(), d), widened(speed@)),
            i64::MIN as int,
            i64::MAX as int,
        )
    } else {
        d
    }
}

/// How far into the source an offset on the timeline is at a speed.
pub open spec fn source_offset(local_us: i64, speed: Float32) -> int {
    to_integer(
        double(),
        Toward::Zero,
        product(double(), of_integer(double(), local_us as int), widened(speed@)),
        i64::MIN as int,
        i64::MAX as int,
    )
}

pub fn length_on_timeline(source_in: i64, source_out: i64, speed: Float32) -> (r: i64)
    ensures
        r == timeline_length(source_in, source_out, speed),
{
    let d: i64 = saturating_sub(source_out, source_in);
    if speed.is_positive() {
        Float64::from_i64(d).over(speed.widen()).to_i64(Toward::Nearest)
    } else {
        d
    }
}

pub fn offset_in_source(local_us: i64, speed: Float32) -> (r: i64)
    ensures
        r == source_offset(local_us, speed),
{
    Float64::from_i64(local_us).times(speed.widen()).to_i64(Toward::Zero)
}

/// At normal speed a clip is as long on the timeline as its stretch of source, and
/// an offset on the timeline is the offset in the source, up to two to the power
/// 53 microseconds.
pub proof fn law_normal_speed(source_in: i64, source_out: i64, local_us: i64)
    requires
        -0x20_0000_0000_0000 < source_out - source_in < 0x20_0000_0000_0000,
        -0x20_0000_0000_0000 < local_us < 0x20_0000_0000_0000,
    ensures
        timeline_length(source_in, source_out, Float32 { bits: ONE_BITS }) == source_out - source_in,
        source_offset(local_us, Float32 { bits: ONE_BITS }) == local_us,
{
    reveal(crate::float::less);
    let one = Float32 { bits: ONE_BITS };
    let d = source_out - source_in;
    lemma_one();
    lemma2_to64_rest();
    lemma_pow2_pos(double().scale as nat);
    lemma_pow2_pos(single().scale as nat);
    lemma_mul_strictly_positive(1, pow2(single().scale as nat) as int);
    assert(positive(one@));
    law_integers_are_exact(double(), d);
    law_division_by_one_is_exact(double(), d);
    law_integers_come_back(double(), Toward::Nearest, d, i64::MIN as int, i64::MAX as int);
    law_integers_are_exact(double(), local_us as int);
    law_multiplication_by_one_is_exact(double(), local_us as int);
    law_integers_come_back(double(), Toward::Zero, local_us as int, i64::MIN as int, i64::MAX as int);
}

/// A speed stretches time: where so many microseconds on the timeline, times the speed, are a
/// whole number of microseconds of source, that is how far into the source they reach, and
/// that much source takes so long. `units` counts the smallest numbers in the speed.
pub proof fn law_speed_scales_time(
    source_in: i64,
    source_out: i64,
    speed: Float32,
    units: nat,
    on_timeline: i64,
)
    requires
        speed@ == (Number::Finite { negative: false, units }),
        units > 0,
        0 <= on_timeline < 0x20_0000_0000_0000,
        0 <= source_out - source_in < 0x20_0000_0000_0000,
        on_timeline * units == (source_out - source_in) * pow2(149),
    ensures
        timeline_length(source_in, source_out, speed) == on_timeline,
        source_offset(on_timeline, speed) == source_out - source_in,
{
    reveal(crate::float::less);
    reveal(quotient);
    reveal(product);
    reveal(widened);
    let f = double();
    let (u, g, one) = (pow2(149), pow2(925), pow2(1074));
    let len = (source_out - source_in) as nat;
    let n = on_timeline as nat;
    let v = units * g;
    lemma2_to64_rest();
    lemma_pow2_adds(149, 925);
    lemma_pow2_pos(149);
    lemma_pow2_pos(925);
    lemma_pow2_pos(1074);
    law_integers_are_exact(f, len as int);
    law_integers_are_exact(f, n as int);
    assert(v > 0) by (nonlinear_arith)
        requires
            v == units * g,
            units > 0,
            g > 0,
    ;
    assert((len * one) * one == (n * one) * v && (n * one) * v == (len * one) * one)
        by (nonlinear_arith)
        requires
            one == u * g,
            v == units * g,
            n * units == len * u,
    ;
    lemma_exact(f, false, n, 1074, v);
    lemma_exact(f, false, len, 1074, one);
    law_integers_come_back(f, Toward::Nearest, n as int, i64::MIN as int, i64::MAX as int);
    law_integers_come_back(f, Toward::Zero, len as int, i64::MIN as int, i64::MAX as int);
}

#[derive(Debug, Clone)]
pub struct VideoClip {
    pub asset: AssetId,
    pub source_in: Timecode,
    pub source_out: Timecode,
    pub timeline_start: Timecode,
    pub opacity: Float32,
    pub transform: Transform,
    pub speed: Float32,
    pub blend: BlendMode,
    pub grade: ColorGrade,
    pub flip_x: bool,
    pub flip_y: bool,
    /// Normalized visible region `[left, top, right, bottom]`.
    pub crop: [Float32; 4],
    /// Crossfade duration with the previous clip on the same track.
    pub transition_us: Timecode,
    pub keyframes: Vec<TransformKeyframe>,
}

/// A video clip with its keyframes as a sequence.
pub struct VideoClipView {
    pub asset: AssetId,
    pub source_in: Timecode,
    pub source_out: Timecode,
    pub timeline_start: Timecode,
    pub opacity: Float32,
    pub transform: Transform,
    pub speed: Float32,
    pub blend: BlendMode,
    pub grade: ColorGrade,
    pub flip_x: bool,
    pub flip_y: bool,
    pub crop: Seq<Float32>,
    pub transition_us: Timecode,
    pub keyframes: Seq<TransformKeyframe>,
}

impl VideoClipView {
    pub open spec fn length(self) -> int {
        timeline_length(self.source_in, self.source_out, self.speed)
    }

    pub open spec fn end(self) -> int {
        self.timeline_start + self.length()
    }

    pub open spec fn active(self, t: int) -> bool {
        self.timeline_start <= t < self.end()
    }
}

impl View for VideoClip {
    type V = VideoClipView;

    open spec fn view(&self) -> VideoClipView {
        VideoClipView {
            asset: self.asset,
            source_in: self.source_in,
            source_out: self.source_out,
            timeline_start: self.timeline_start,
            opacity: self.opacity,
            transform: self.transform,
            speed: self.speed,
            blend: self.blend,
            grade: self.grade,
            flip_x: self.flip_x,
            flip_y: self.flip_y,
            crop: self.crop@,
            transition_us: self.transition_us,
            keyframes: self.keyframes@,
        }
    }
}

/// The whole of a frame.
pub open spec fn full_frame() -> Seq<Float32> {
    seq![
        Float32 { bits: ZERO_BITS },
        Float32 { bits: ZERO_BITS },
        Float32 { bits: ONE_BITS },
        Float32 { bits: ONE_BITS },
    ]
}

/// A clip of nothing, at normal speed, fully opaque.
pub open spec fn default_video_clip() -> VideoClipView {
    VideoClipView {
        asset: AssetId(0),
        source_in: 0,
        source_out: 0,
        timeline_start: 0,
        opacity: Float32 { bits: ONE_BITS },
        transform: default_transform(),
        speed: Float32 { bits: ONE_BITS },
        blend: BlendMode::Normal,
        grade: neutral_grade(),
        flip_x: false,
        flip_y: false,
        crop: full_frame(),
        transition_us: 0,
        keyframes: Seq::empty(),
    }
}

impl Default for VideoClip {
    fn default() -> (c: VideoClip)
        ensures
            c@ == default_video_clip(),
    {
        let zero: Float32 = Float32 { bits: ZERO_BITS };
        let one: Float32 = Float32 { bits: ONE_BITS };
        let c: VideoClip = VideoClip {
            asset: AssetId(0),
            source_in: 0,
            source_out: 0,
            timeline_start: 0,
            opacity: one,
            transform: Transform::default(),
            speed: one,
            blend: BlendMode::Normal,
            grade: ColorGrade::default(),
            flip_x: false,
            flip_y: false,
            crop: [zero, zero, one, one],
            transition_us: 0,
            keyframes: Vec::new(),
        };
        proof {
            assert(c.crop@ =~= full_frame());
        }
        c
    }
}

impl VideoClip {
    /// Length of this clip on the timeline, respecting speed changes.
    pub fn on_timeline_us(&self) -> (r: Timecode)
        ensures
            r == self@.length(),
    {
        length_on_timeline(self.source_in, self.source_out, self.speed)
    }

    /// Source time for a given local timeline offset within the clip.
    pub fn source_at(&self, local_us: Timecode) -> (r: Timecode)
        requires
            i64::MIN <= self.source_in + source_offset(local_us, self.speed) <= i64::MAX,
        ensures
            r == self.source_in + source_offset(local_us, self.speed),
    {
        self.source_in + offset_in_source(local_us, self.speed)
    }
}

#[derive(Debug, Clone)]
pub struct AudioClip {
    pub asset: AssetId,
    pub source_in: Timecode,
    pub source_out: Timecode,
    pub timeline_start: Timecode,
    pub gain_db: Float32,
    pub fade_in_us: Timecode,
    pub fade_out_us: Timecode,
    pub speed: Float32,
    /// Gain envelope keyframes (time relative to the clip, linear gain).
    pub envelope: Vec<(Timecode, Float32)>,
    /// Per-clip automation bypass flag.
    pub solo: bool,
}

/// An audio clip with its envelope as a sequence.
pub struct AudioClipView {
    pub asset: AssetId,
    pub source_in: Timecode,
    pub source_out: Timecode,
    pub timeline_start: Timecode,
    pub gain_db: Float32,
    pub fade_in_us: Timecode,
    pub fade_out_us: Timecode,
    pub speed: Float32,
    pub envelope: Seq<(Timecode, Float32)>,
    pub solo: bool,
}

impl AudioClipView {
    pub open spec fn length(self) -> int {
        timeline_length(self.source_in, self.source_out, self.speed)
    }

    pub open spec fn end(self) -> int {
        self.timeline_start + self.length()
    }

    pub open spec fn active(self, t: int) -> bool {
        self.timeline_start <= t < self.end()
    }
}

impl View for AudioClip {
    type V = AudioClipView;

    open spec fn view(&self) -> AudioClipView {
        AudioClipView {
            asset: self.asset,
            source_in: self.source_in,
            source_out: self.source_out,
            timeline_start: self.timeline_start,
            gain_db: self.gain_db,
            fade_in_us: self.fade_in_us,
            fade_out_us: self.fade_out_us,
            speed: self.speed,
            envelope: self.envelope@,
            solo: self.solo,
        }
    }
}

/// The speed of a clip that was saved without one.
pub fn default_speed() -> (r: Float32)
    ensures
        r.bits == ONE_BITS,
{
    Float32 { bits: ONE_BITS }
}

/// A clip of nothing, at normal speed and gain.
pub open spec fn default_audio_clip() -> AudioClipView {
    AudioClipView {
        asset: AssetId(0),
        source_in: 0,
        source_out: 0,
        timeline_start: 0,
        gain_db: Float32 { bits: ZERO_BITS },
        fade_in_us: 0,
        fade_out_us: 0,
        speed: Float32 { bits: ONE_BITS },
        envelope: Seq::empty(),
        solo: false,
    }
}

impl Default for AudioClip {
    fn default() -> (c: AudioClip)
        ensures
            c@ == default_audio_clip(),
    {
        AudioClip {
            asset: AssetId(0),
            source_in: 0,
            source_out: 0,
            timeline_start: 0,
            gain_db: Float32 { bits: ZERO_BITS },
            fade_in_us: 0,
            fade_out_us: 0,
            speed: Float32 { bits: ONE_BITS },
            envelope: Vec::new(),
            solo: false,
        }
    }
}

/// The part of an envelope between two neighbouring points, at time `t`.
pub open spec fn envelope_between(from: (i64, Float32), to: (i64, Float32), t: Number) -> Number {
    let gap = to.0 - from.0;
    let span = of_integer(single(), if gap < 1 { 1 } else { gap });
    let along = clamp_number(
        quotient(single(), difference(single(), t, of_integer(single(), from.0 as int)), span),
        of_integer(single(), 0),
        of_integer(single(), 1),
    );
    sum(single(), from.1@, product(single(), difference(single(), to.1@, from.1@), along))
}

/// The gain that an envelope gives at time `t`, looking at its points from the
/// `i`th on: linear between two neighbouring points, the value of a point that
/// lies ahead, and one past the last point.
pub open spec fn envelope_from(env: Seq<(i64, Float32)>, t: Number, i: int) -> Number
    decreases env.len() - i,
{
    if i < 0 || i + 1 >= env.len() {
        of_integer(single(), 1)
    } else {
        let from = of_integer(single(), env[i].0 as int);
        let to = of_integer(single(), env[i + 1].0 as int);
        if no_more(from, t) && no_more(t, to) {
            envelope_between(env[i], env[i + 1], t)
        } else if less(t, from) {
            env[i].1@
        } else {
            envelope_from(env, t, i + 1)
        }
    }
}

pub open spec fn envelope_at(env: Seq<(i64, Float32)>, local_us: int) -> Number {
    if env.len() == 1 {
        env[0].1@
    } else {
        envelope_from(env, of_integer(single(), local_us), 0)
    }
}

/// Neighbouring points of an envelope are at most the range of `i64` apart.
pub open spec fn envelope_fits(env: Seq<(i64, Float32)>) -> bool {
    forall|i: int|
        0 <= i < env.len() - 1 ==> i64::MIN <= #[trigger] env[i + 1].0 - env[i].0 <= i64::MAX
}

/// The points of an envelope follow each other at whole times, with whole gains.
pub open spec fn whole_points(env: Seq<(i64, Float32)>, gains: Seq<int>) -> bool {
    &&& gains.len() == env.len()
    &&& forall|i: int|
        #![trigger env[i]]
        #![trigger gains[i]]
        0 <= i < env.len() ==> {
            &&& 0 <= env[i].0 < 0x40_0000
            &&& 0 <= gains[i] < 0x40_0000
            &&& env[i].1@ == of_integer(single(), gains[i])
        }
    &&& forall|i: int, j: int| 0 <= i < j < env.len() ==> (#[trigger] env[i]).0 < (#[trigger] env[j]).0
}

proof fn lemma_whole_time(i: int)
    requires
        -0x80_0000 < i < 0x80_0000,
    ensures
        of_integer(single(), i) == integer(single(), i),
        integer(single(), i) == halves(2 * i),
{
    lemma2_to64();
    law_integers_are_exact(single(), i);
    lemma_halves(i);
}

/// The stretch of an envelope in which a time lies.
proof fn lemma_stretch(env: Seq<(i64, Float32)>, gains: Seq<int>, t: int, i: int, j: int)
    requires
        whole_points(env, gains),
        0 <= i <= j,
        j + 1 < env.len(),
        0 <= t < 0x40_0000,
        i < j ==> env[j].0 < t,
    ensures
        envelope_from(env, of_integer(single(), t), i) == envelope_from(
            env,
            of_integer(single(), t),
            j,
        ),
    decreases j - i,
{
    if i < j {
        let (a, b) = (env[i].0 as int, env[i + 1].0 as int);
        assert(b <= env[j].0) by {
            if i + 1 < j {
                assert(env[i + 1].0 < env[j].0);
            }
        }
        assert(a < b);
        lemma_whole_time(t);
        lemma_whole_time(a);
        lemma_whole_time(b);
        lemma_integers_in_order(single(), b, t);
        lemma_integers_in_order(single(), t, a);
        lemma_stretch(env, gains, t, i + 1, j);
    }
}

/// How far along a stretch a time is, and what comes of it.
proof fn lemma_along(from: (i64, Float32), to: (i64, Float32), a: int, b: int, t: int)
    requires
        0 <= from.0 < to.0 < 0x40_0000,
        0 <= a < 0x40_0000,
        0 <= b < 0x40_0000,
        from.1@ == of_integer(single(), a),
        to.1@ == of_integer(single(), b),
    ensures
        envelope_between(from, to, of_integer(single(), from.0 as int)) == of_integer(single(), a),
        envelope_between(from, to, of_integer(single(), to.0 as int)) == of_integer(single(), b),
        2 * t == from.0 + to.0 ==> envelope_between(from, to, of_integer(single(), t)) == halves(
            a + b,
        ),
{
    let f = single();
    let (x, y) = (from.0 as int, to.0 as int);
    let gap = y - x;
    lemma2_to64();
    lemma_whole_time(x);
    lemma_whole_time(y);
    lemma_whole_time(gap);
    lemma_whole_time(0);
    lemma_whole_time(1);
    lemma_whole_time(a);
    lemma_whole_time(b);
    lemma_whole_time(b - a);
    lemma_sum_of_halves(2 * x, 2 * x);
    lemma_sum_of_halves(2 * y, 2 * x);
    lemma_sum_of_halves(2 * b, 2 * a);
    lemma_exact_quotient(f, 0, gap);
    lemma_over_itself(f, gap);
    lemma_integers_in_order(f, 0, 0);
    lemma_integers_in_order(f, 1, 0);
    lemma_integers_in_order(f, 0, 1);
    lemma_integers_in_order(f, 1, 1);
    lemma_halves_alone(2 * a);
    lemma_halves_alone(2 * b - 2 * a);
    assert(0 * gap == 0) by (nonlinear_arith);
    lemma_signed_halves(2 * a, 2 * b - 2 * a, false);
    if 2 * t == x + y {
        let h = t - x;
        lemma_whole_time(t);
        lemma_whole_time(h);
        lemma_sum_of_halves(2 * t, 2 * x);
        lemma_half_of(h);
        lemma_half_of(b - a);
        lemma_halves_in_order(1, 0);
        lemma_halves_in_order(2, 1);
        lemma_signed_halves(2 * a, b - a, false);
    }
}

/// An envelope goes through its points, and halfway between two of them gives the middle of
/// their gains; before the first point it gives that of the first, and past the last one
/// nothing changes the gain of the clip.
pub proof fn law_envelopes_pass_their_points(
    env: Seq<(i64, Float32)>,
    gains: Seq<int>,
    i: int,
    t: int,
)
    requires
        whole_points(env, gains),
        env.len() >= 2,
        0 <= i < env.len(),
        0 <= t < 0x40_0000,
    ensures
        envelope_at(env, env[i].0 as int) == of_integer(single(), gains[i]),
        i + 1 < env.len() && 2 * t == env[i].0 + env[i + 1].0 ==> envelope_at(env, t) == halves(
            gains[i] + gains[i + 1],
        ),
        t < env[0].0 ==> envelope_at(env, t) == of_integer(single(), gains[0]),
        t > env.last().0 ==> envelope_at(env, t) == of_integer(single(), 1),
{
    let f = single();
    let x = env[i].0 as int;
    lemma_whole_time(x);
    lemma_whole_time(t);
    lemma_integers_in_order(f, x, x);
    if i == 0 {
        let y = env[1].0 as int;
        assert(x < y);
        lemma_whole_time(y);
        lemma_integers_in_order(f, y, x);
        assert(env[1].1@ == of_integer(f, gains[1]));
        lemma_along(env[0], env[1], gains[0], gains[1], t);
    } else {
        let w = env[i - 1].0 as int;
        assert(w < x);
        lemma_whole_time(w);
        lemma_integers_in_order(f, x, w);
        lemma_stretch(env, gains, x, 0, i - 1);
        assert(env[i - 1].1@ == of_integer(f, gains[i - 1]));
        lemma_along(env[i - 1], env[i], gains[i - 1], gains[i], t);
    }
    if i + 1 < env.len() && 2 * t == env[i].0 + env[i + 1].0 {
        let y = env[i + 1].0 as int;
        assert(x < y);
        lemma_whole_time(y);
        lemma_integers_in_order(f, t, x);
        lemma_integers_in_order(f, y, t);
        lemma_stretch(env, gains, t, 0, i);
        assert(env[i + 1].1@ == of_integer(f, gains[i + 1]));
        lemma_along(env[i], env[i + 1], gains[i], gains[i + 1], t);
    }
    let first = env[0].0 as int;
    lemma_whole_time(first);
    lemma_integers_in_order(f, t, first);
    if t > env.last().0 {
        let n = env.len() - 2;
        assert(env[n].0 < env[n + 1].0);
        let (a, b) = (env[n].0 as int, env[n + 1].0 as int);
        lemma_whole_time(a);
        lemma_whole_time(b);
        lemma_integers_in_order(f, b, t);
        lemma_integers_in_order(f, t, a);
        lemma_stretch(env, gains, t, 0, n);
        reveal_with_fuel(envelope_from, 2);
    }
}

impl AudioClip {
    /// Length of this clip on the timeline, respecting speed changes.
    pub fn on_timeline_us(&self) -> (r: Timecode)
        ensures
            r == self@.length(),
    {
        length_on_timeline(self.source_in, self.source_out, self.speed)
    }

    /// Source time for a given local timeline offset within the clip.
    pub fn source_at(&self, local_us: Timecode) -> (r: Timecode)
        requires
            i64::MIN <= self.source_in + source_offset(local_us, self.speed) <= i64::MAX,
        ensures
            r == self.source_in + source_offset(local_us, self.speed),
    {
        self.source_in + offset_in_source(local_us, self.speed)
    }

    /// Linear gain at a local time: the gain of the clip and that of its envelope
    /// together. `power` is ten to the power of a twentieth of `gain_db`.
    pub fn gain_linear_at(&self, local_us: Timecode, power: Float32) -> (g: Float32)
        requires
            envelope_fits(self.envelope@),
        ensures
            g@ == product(
                single(),
                linear_gain(self.gain_db@, power@),
                envelope_at(self.envelope@, local_us as int),
            ),
    {
        db_to_linear(self.gain_db, power).times(envelope_gain(&self.envelope, local_us))
    }
}

/// The gain of an envelope at a time relative to its clip.
pub fn envelope_gain(envelope: &Vec<(Timecode, Float32)>, local_us: Timecode) -> (g: Float32)
    requires
        envelope_fits(envelope@),
    ensures
        g@ == envelope_at(envelope@, local_us as int),
{
    if envelope.len() == 1 {
        return envelope[0].1;
    }
    let t: Float32 = Float32::from_i64(local_us);
    let mut i: usize = 0;
    while envelope.len() - i > 1
        invariant
            envelope_fits(envelope@),
            t@ == of_integer(single(), local_us as int),
            i <= envelope.len(),
            envelope_from(envelope@, t@, 0) == envelope_from(envelope@, t@, i as int),
        decreases envelope.len() - i,
    {
        let (t0, g0): (i64, Float32) = envelope[i];
        let (t1, g1): (i64, Float32) = envelope[i + 1];
        let from: Float32 = Float32::from_i64(t0);
        if from.at_most(t) && t.at_most(Float32::from_i64(t1)) {
            assert(i64::MIN <= envelope@[i + 1].0 - envelope@[i as int].0 <= i64::MAX);
            let gap: i64 = t1 - t0;
            let span: Float32 = Float32::from_i64(
                if gap < 1 {
                    1
                } else {
                    gap
                },
            );
            let along: Float32 = t.minus(from).over(span).clamped(
                Float32::from_i64(0),
                Float32::from_i64(1),
            );
            return g0.plus(g1.minus(g0).times(along));
        }
        if t.less_than(from) {
            return g0;
        }
        i = i + 1;
    }
    Float32::from_i64(1)
}

#[derive(Debug, Clone, Copy, PartialEq, Eq, Structural)]
pub enum TextAlign {
    Left,
    Center,
    Right,
}

/// A user marker placed on the timeline ruler.
#[derive(Debug, Clone, PartialEq)]
pub struct Marker {
    pub time_us: Timecode,
    pub name: String,
    pub color: [u8; 3],
}

/// A marker with its name as a sequence of characters.
pub struct MarkerView {
    pub time_us: Timecode,
    pub name: Seq<char>,
    pub color: Seq<u8>,
}

impl View for Marker {
    type V = MarkerView;

    open spec fn view(&self) -> MarkerView {
        MarkerView { time_us: self.time_us, name: self.name@, color: self.color@ }
    }
}


/// The font of a text that names none.
pub fn default_font_family() -> (r: String)
    ensures
        r@ == "DejaVu Sans"@,
{
    "DejaVu Sans".to_string()
}

/// The color of a text that names none.
pub fn default_text_color() -> (r: [u8; 4])
    ensures
        r@ == seq![236u8, 236u8, 240u8, 255u8],
{
    let r: [u8; 4] = [236, 236, 240, 255];
    proof {
        assert(r@ =~= seq![236u8, 236u8, 240u8, 255u8]);
    }
    r
}

#[derive(Debug, Clone)]
pub struct TextStyle {
    pub font_size: Float32,
    pub font_family: String,
    pub color: [u8; 4],
    pub align: TextAlign,
    pub outline_color: [u8; 4],
    pub outline_width: Float32,
    pub shadow: bool,
    /// Background box RGBA; alpha 0 disables it.
    pub background: [u8; 4],
    pub box_padding: Float32,
    /// Max line width in pixels (0 = no wrapping).
    pub word_wrap: Float32,
    /// Typewriter reveal: text appears progressively over the clip.
    pub typewriter: bool,
}

/// A text style with its font family as a sequence of characters.
pub struct TextStyleView {
    pub font_size: Float32,
    pub font_family: Seq<char>,
    pub color: Seq<u8>,
    pub align: TextAlign,
    pub outline_color: Seq<u8>,
    pub outline_width: Float32,
    pub shadow: bool,
    pub background: Seq<u8>,
    pub box_padding: Float32,
    pub word_wrap: Float32,
    pub typewriter: bool,
}

impl View for TextStyle {
    type V = TextStyleView;

    open spec fn view(&self) -> TextStyleView {
        TextStyleView {
            font_size: self.font_size,
            font_family: self.font_family@,
            color: self.color@,
            align: self.align,
            outline_color: self.outline_color@,
            outline_width: self.outline_width,
            shadow: self.shadow,
            background: self.background@,
            box_padding: self.box_padding,
            word_wrap: self.word_wrap,
            typewriter: self.typewriter,
        }
    }
}

/// Centered near-white text with a shadow.
pub open spec fn default_text_style() -> TextStyleView {
    TextStyleView {
        font_size: Float32 { bits: TWENTY_FOUR_BITS },
        font_family: "DejaVu Sans"@,
        color: seq![236u8, 236u8, 240u8, 255u8],
        align: TextAlign::Center,
        outline_color: seq![0u8, 0u8, 0u8, 0u8],
        outline_width: Float32 { bits: ZERO_BITS },
        shadow: true,
        background: seq![0u8, 0u8, 0u8, 0u8],
        box_padding: Float32 { bits: EIGHT_BITS },
        word_wrap: Float32 { bits: ZERO_BITS },
        typewriter: false,
    }
}

impl Default for TextStyle {
    fn default() -> (s: TextStyle)
        ensures
            s@ == default_text_style(),
    {
        let clear: [u8; 4] = [0, 0, 0, 0];
        proof {
            assert(clear@ =~= seq![0u8, 0u8, 0u8, 0u8]);
        }
        TextStyle {
            font_size: Float32 { bits: TWENTY_FOUR_BITS },
            font_family: default_font_family(),
            color: default_text_color(),
            align: TextAlign::Center,
            outline_color: clear,
            outline_width: Float32 { bits: ZERO_BITS },
            shadow: true,
            background: clear,
            box_padding: Float32 { bits: EIGHT_BITS },
            word_wrap: Float32 { bits: ZERO_BITS },
            typewriter: false,
        }
    }
}

impl TextStyle {
    pub fn copy(&self) -> (s: TextStyle)
        ensures
            s@ == self@,
    {
        TextStyle {
            font_size: self.font_size,
            font_family: self.font_family.clone(),
            color: self.color,
            align: self.align,
            outline_color: self.outline_color,
            outline_width: self.outline_width,
            shadow: self.shadow,
            background: self.background,
            box_padding: self.box_padding,
            word_wrap: self.word_wrap,
            typewriter: self.typewriter,
        }
    }
}

#[derive(Debug, Clone)]
pub struct TextClip {
    pub text: String,
    pub timeline_start: Timecode,
    pub timeline_end: Timecode,
    pub style: TextStyle,
    pub transform: Transform,
    pub opacity: Float32,
}

/// A text clip with its text as a sequence of characters.
pub struct TextClipView {
    pub text: Seq<char>,
    pub timeline_start: Timecode,
    pub timeline_end: Timecode,
    pub style: TextStyleView,
    pub transform: Transform,
    pub opacity: Float32,
}

impl TextClipView {
    pub open spec fn active(self, t: int) -> bool {
        self.timeline_start <= t < self.timeline_end
    }
}

impl View for TextClip {
    type V = TextClipView;

    open spec fn view(&self) -> TextClipView {
        TextClipView {
            text: self.text@,
            timeline_start: self.timeline_start,
            timeline_end: self.timeline_end,
            style: self.style@,
            transform: self.transform,
            opacity: self.opacity,
        }
    }
}

/// An empty text without a length.
pub open spec fn default_text_clip() -> TextClipView {
    TextClipView {
        text: ""@,
        timeline_start: 0,
        timeline_end: 0,
        style: default_text_style(),
        transform: default_transform(),
        opacity: Float32 { bits: ONE_BITS },
    }
}

impl Default for TextClip {
    fn default() -> (c: TextClip)
        ensures
            c@ == default_text_clip(),
    {
        TextClip {
            text: "".to_string(),
            timeline_start: 0,
            timeline_end: 0,
            style: TextStyle::default(),
            transform: Transform::default(),
            opacity: Float32 { bits: ONE_BITS },
        }
    }
}


#[derive(Debug, Clone)]
pub struct Track<T> {
    pub clips: Vec<T>,
    pub muted: bool,
    pub locked: bool,
    pub name: String,
    pub solo: bool,
    pub color: [u8; 3],
    pub gain_db: Float32,
}

/// A track with its clips by their views.
pub struct TrackView<C> {
    pub clips: Seq<C>,
    pub muted: bool,
    pub locked: bool,
    pub name: Seq<char>,
    pub solo: bool,
    pub color: Seq<u8>,
    pub gain_db: Float32,
}

/// The views of the items of a sequence.
pub open spec fn views<T: View>(items: Seq<T>) -> Seq<T::V> {
    Seq::new(items.len(), |i: int| items[i]@)
}

impl<T: View> View for Track<T> {
    type V = TrackView<T::V>;

    open spec fn view(&self) -> TrackView<T::V> {
        TrackView {
            clips: views(self.clips@),
            muted: self.muted,
            locked: self.locked,
            name: self.name@,
            solo: self.solo,
            color: self.color@,
            gain_db: self.gain_db,
        }
    }
}

/// An empty track with a name and a color.
pub open spec fn empty_track<C>(name: Seq<char>, color: Seq<u8>) -> TrackView<C> {
    TrackView {
        clips: Seq::empty(),
        muted: false,
        locked: false,
        name,
        solo: false,
        color,
        gain_db: Float32 { bits: ZERO_BITS },
    }
}

impl<T: View> Track<T> {
    pub fn new(name: String, color: [u8; 3]) -> (t: Track<T>)
        ensures
            t@ == empty_track::<T::V>(name@, color@),
    {
        let t: Track<T> = Track {
            clips: Vec::new(),
            muted: false,
            locked: false,
            name,
            solo: false,
            color,
            gain_db: Float32 { bits: ZERO_BITS },
        };
        proof {
            assert(views(t.clips@) =~= Seq::<T::V>::empty());
        }
        t
    }
}

impl<T: View> Default for Track<T> {
    fn default() -> (t: Track<T>)
        ensures
            t@ == empty_track::<T::V>(""@, seq![0u8, 0u8, 0u8]),
    {
        let black: [u8; 3] = [0, 0, 0];
        proof {
            assert(black@ =~= seq![0u8, 0u8, 0u8]);
        }
        Track::new("".to_string(), black)
    }
}

/// A value that can be copied with all its contents.
pub trait Duplicate: View + Sized {
    fn duplicate(&self) -> (r: Self)
        ensures
            r@ == self@,
    ;
}

/// Copies of all the items.
pub fn duplicate_all<T: Duplicate>(items: &Vec<T>) -> (r: Vec<T>)
    ensures
        views(r@) == views(items@),
{
    let mut r: Vec<T> = Vec::new();
    let mut i: usize = 0;
    while i < items.len()
        invariant
            i <= items.len(),
            r.len() == i,
            forall|k: int| 0 <= k < i ==> (#[trigger] r@[k])@ == items@[k]@,
        decreases items.len() - i,
    {
        r.push(items[i].duplicate());
        i = i + 1;
    }
    assert(views(r@) =~= views(items@));
    r
}

impl Duplicate for VideoClip {
    fn duplicate(&self) -> (r: VideoClip) {
        VideoClip {
            asset: self.asset,
            source_in: self.source_in,
            source_out: self.source_out,
            timeline_start: self.timeline_start,
            opacity: self.opacity,
            transform: self.transform,
            speed: self.speed,
            blend: self.blend,
            grade: self.grade,
            flip_x: self.flip_x,
            flip_y: self.flip_y,
            crop: self.crop,
            transition_us: self.transition_us,
            keyframes: copy_items(&self.keyframes),
        }
    }
}

impl Duplicate for AudioClip {
    fn duplicate(&self) -> (r: AudioClip) {
        AudioClip {
            asset: self.asset,
            source_in: self.source_in,
            source_out: self.source_out,
            timeline_start: self.timeline_start,
            gain_db: self.gain_db,
            fade_in_us: self.fade_in_us,
            fade_out_us: self.fade_out_us,
            speed: self.speed,
            envelope: copy_items(&self.envelope),
            solo: self.solo,
        }
    }
}

impl Duplicate for Marker {
    fn duplicate(&self) -> (r: Marker) {
        Marker { time_us: self.time_us, name: self.name.clone(), color: self.color }
    }
}

impl Duplicate for TextClip {
    fn duplicate(&self) -> (r: TextClip) {
        TextClip {
            text: self.text.clone(),
            timeline_start: self.timeline_start,
            timeline_end: self.timeline_end,
            style: self.style.copy(),
            transform: self.transform,
            opacity: self.opacity,
        }
    }
}

impl<T: Duplicate> Duplicate for Track<T> {
    fn duplicate(&self) -> (r: Track<T>) {
        Track {
            clips: duplicate_all(&self.clips),
            muted: self.muted,
            locked: self.locked,
            name: self.name.clone(),
            solo: self.solo,
            color: self.color,
            gain_db: self.gain_db,
        }
    }
}

} // verus!
