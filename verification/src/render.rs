//! The compositor: which clips show at a time, how strongly and where, and the
//! frame that they make. Preview and export share it.

use crate::audio::lemma_whole_difference;
use crate::decoder::VideoFrame;
use crate::edit::{not_below_zero, split_at, Lane};
use crate::exact::{
    halves, integer, law_integers_are_exact, law_integers_come_back, lemma_exact, lemma_half_of,
    lemma_halves, lemma_halves_alone, lemma_integers_in_order, lemma_over_itself,
    lemma_signed_halves,
};
use crate::float::{
    clamp_number, difference, double, less, magnitude, narrowed, negated, no_more,
    number_of_bits32, of_integer, positive, product, quotient, single, sum, to_integer, Float32, Float64, Number, Toward,
};
use crate::framecache::{shown, FrameCache};
use crate::layout::{texts_drawn, DrawnText};
use crate::paint::{
    blend_scaled, clear_buffer, cleared, lemma_filling_shares, lemma_has_room, picture_blended,
    whole_picture, Look, LookView,
};
use crate::pixel::{
    lemma_faded, lemma_near_shares, mode_of_bytes, n32, num, rounds, rounds_well,
};
use crate::project::{is_time, Project, ProjectView};
use crate::timeline::{
    default_transform, law_normal_speed, neutral_grade, source_offset, views, Asset, AssetKind,
    Transform, TransformKeyframe, TransformView, VideoClip, VideoClipView, ONE_BITS,
};
use vstd::arithmetic::power2::{
    lemma2_to64, lemma2_to64_rest, lemma_pow2_adds, lemma_pow2_pos, pow2,
};
use vstd::prelude::*;

verus! {

/// A value on the way from `a` to `b`.
pub open spec fn between(a: Number, b: Number, f: Number) -> Number {
    sum(single(), a, product(single(), difference(single(), b, a), f))
}

/// A time as a number of the 64-bit format.
pub open spec fn time_number(t: int) -> Number {
    of_integer(double(), t)
}

/// The transform at `t` on the way from one keyframe to the next.
pub open spec fn keyframe_between(a: TransformKeyframe, b: TransformKeyframe, t: Number) -> TransformView {
    let gap = b.t_us - a.t_us;
    let f = narrowed(
        quotient(
            double(),
            difference(double(), t, time_number(a.t_us as int)),
            time_number(if gap > 1 { gap } else { 1 }),
        ),
    );
    TransformView {
        x: between(a.transform.x@, b.transform.x@, f),
        y: between(a.transform.y@, b.transform.y@, f),
        scale: between(a.transform.scale@, b.transform.scale@, f),
        rotate: between(a.transform.rotate@, b.transform.rotate@, f),
    }
}

/// The transform that the keyframes from the `i`th on give at `t`; `still` where `t`
/// is between none of them.
pub open spec fn keyframes_from(
    kf: Seq<TransformKeyframe>,
    t: Number,
    i: int,
    still: TransformView,
) -> TransformView
    decreases kf.len() - i,
{
    if i < 0 || i + 1 >= kf.len() {
        still
    } else if no_more(time_number(kf[i].t_us as int), t) && no_more(
        t,
        time_number(kf[i + 1].t_us as int),
    ) {
        keyframe_between(kf[i], kf[i + 1], t)
    } else {
        keyframes_from(kf, t, i + 1, still)
    }
}

/// The transform of a clip at a time from its start: its own where it has no
/// keyframes, that of the first or last keyframe outside them, else one between two.
pub open spec fn transform_at(still: Transform, kf: Seq<TransformKeyframe>, local: int) -> TransformView {
    let t = time_number(local);
    if kf.len() == 0 {
        still@
    } else if no_more(t, time_number(kf[0].t_us as int)) {
        kf[0].transform@
    } else if no_more(time_number(kf.last().t_us as int), t) {
        kf.last().transform@
    } else {
        keyframes_from(kf, t, 0, still@)
    }
}

/// The times of neighbouring keyframes are no further apart than a time can tell.
pub open spec fn keyframes_fit(kf: Seq<TransformKeyframe>) -> bool {
    forall|i: int| 0 <= i < kf.len() - 1 ==> is_time(#[trigger] kf[i + 1].t_us - kf[i].t_us)
}

fn step_between(a: Float32, b: Float32, f: Float32) -> (r: Float32)
    ensures
        r@ == between(a@, b@, f@),
{
    a.plus(b.minus(a).times(f))
}

/// The transform of a clip at a time from its start.
pub fn effective_transform(clip: &VideoClip, local_us: i64) -> (r: Transform)
    requires
        keyframes_fit(clip.keyframes@),
    ensures
        r@ == transform_at(clip.transform, clip.keyframes@, local_us as int),
{
    let kf: &Vec<TransformKeyframe> = &clip.keyframes;
    let n: usize = kf.len();
    if n == 0 {
        return clip.transform;
    }
    let t: Float64 = Float64::from_i64(local_us);
    if t.at_most(Float64::from_i64(kf[0].t_us)) {
        return kf[0].transform;
    }
    if Float64::from_i64(kf[n - 1].t_us).at_most(t) {
        return kf[n - 1].transform;
    }
    let mut i: usize = 0;
    while n - i > 1
        invariant
            i <= n,
            n == kf.len(),
            kf@ == clip.keyframes@,
            keyframes_fit(kf@),
            t@ == time_number(local_us as int),
            n > 0,
            !no_more(t@, time_number(kf@[0].t_us as int)),
            !no_more(time_number(kf@.last().t_us as int), t@),
            keyframes_from(kf@, t@, 0, clip.transform@) == keyframes_from(
                kf@,
                t@,
                i as int,
                clip.transform@,
            ),
        decreases n - i,
    {
        let a: TransformKeyframe = kf[i];
        let b: TransformKeyframe = kf[i + 1];
        if Float64::from_i64(a.t_us).at_most(t) && t.at_most(Float64::from_i64(b.t_us)) {
            assert(is_time(kf@[i + 1].t_us - kf@[i as int].t_us));
            let gap: i64 = b.t_us - a.t_us;
            let span: i64 = if gap > 1 {
                gap
            } else {
                1
            };
            let f: Float32 = t.minus(Float64::from_i64(a.t_us)).over(
                Float64::from_i64(span),
            ).narrow();
            return Transform {
                x: step_between(a.transform.x, b.transform.x, f),
                y: step_between(a.transform.y, b.transform.y, f),
                scale: step_between(a.transform.scale, b.transform.scale, f),
                rotate: step_between(a.transform.rotate, b.transform.rotate, f),
            };
        }
        i = i + 1;
    }
    clip.transform
}

/// A clip that shows at a time.
pub struct LayerView {
    pub track: int,
    pub clip: int,
    /// The time in the source.
    pub source_pts: int,
    pub alpha: Number,
    pub transform: TransformView,
}

/// How strongly a clip shows while it fades in over its transition.
pub open spec fn faded_in(alpha: Number, transition: int, local: int) -> Number {
    let tin = num(not_below_zero(transition));
    if positive(tin) && local < to_integer(
        single(),
        Toward::Zero,
        tin,
        i64::MIN as int,
        i64::MAX as int,
    ) {
        product(
            single(),
            alpha,
            clamp_number(quotient(single(), num(local), tin), num(0), num(1)),
        )
    } else {
        alpha
    }
}

/// How strongly a clip shows while it fades into the next one, which starts at its
/// end with a transition.
pub open spec fn faded_out(alpha: Number, next: VideoClipView, end: int, pts: int) -> Number {
    let tn = not_below_zero(next.transition_us as int);
    if tn > 0 && next.timeline_start == end && pts >= end - tn {
        product(
            single(),
            alpha,
            clamp_number(quotient(single(), num(end - pts), num(tn)), num(0), num(1)),
        )
    } else {
        alpha
    }
}

/// How strongly the `i`th clip of a track shows at a time.
pub open spec fn clip_alpha(clips: Seq<VideoClipView>, i: int, pts: int) -> Number {
    let c = clips[i];
    let end = c.timeline_start + not_below_zero(c.length());
    let a = faded_in(c.opacity@, c.transition_us as int, pts - c.timeline_start);
    if i + 1 < clips.len() {
        faded_out(a, clips[i + 1], end, pts)
    } else {
        a
    }
}

/// The clip shows at a time, of an asset that is there, and not too faintly.
pub open spec fn is_layer(p: ProjectView, track: int, i: int, pts: int) -> bool {
    let c = p.video_tracks[track].clips[i];
    &&& p.assets.assets.contains_key(c.asset.0)
    &&& c.timeline_start <= pts < c.timeline_start + not_below_zero(c.length())
    &&& !less(clip_alpha(p.video_tracks[track].clips, i, pts), (Float32 { bits: 0x3a83_126f })@)
}

pub open spec fn layer_of(p: ProjectView, track: int, i: int, pts: int) -> LayerView {
    let c = p.video_tracks[track].clips[i];
    let local = pts - c.timeline_start;
    LayerView {
        track,
        clip: i,
        source_pts: c.source_in + source_offset(local as i64, c.speed),
        alpha: clip_alpha(p.video_tracks[track].clips, i, pts),
        transform: transform_at(c.transform, c.keyframes, local),
    }
}

/// The layers of the first `n` clips of a track.
pub open spec fn track_layers(p: ProjectView, track: int, n: int, pts: int) -> Seq<LayerView>
    decreases n,
{
    if n <= 0 {
        Seq::empty()
    } else {
        let before = track_layers(p, track, n - 1, pts);
        if is_layer(p, track, n - 1, pts) {
            before.push(layer_of(p, track, n - 1, pts))
        } else {
            before
        }
    }
}

/// The layers of the first `n` tracks, from the bottom to the top.
pub open spec fn layers_upto(p: ProjectView, n: int, pts: int) -> Seq<LayerView>
    decreases n,
{
    if n <= 0 {
        Seq::empty()
    } else {
        layers_upto(p, n - 1, pts) + track_layers(
            p,
            n - 1,
            p.video_tracks[n - 1].clips.len() as int,
            pts,
        )
    }
}

/// The layers of a frame, from the bottom to the top.
pub open spec fn layers_at(p: ProjectView, pts: int) -> Seq<LayerView> {
    layers_upto(p, p.video_tracks.len() as int, pts)
}

/// The source times and keyframes of the clips that show can be computed.
pub open spec fn can_layer(p: ProjectView, pts: int) -> bool {
    forall|i: int, j: int|
        0 <= i < p.video_tracks.len() && 0 <= j < p.video_tracks[i].clips.len()
            ==> clip_can_layer(#[trigger] p.video_tracks[i].clips[j], pts)
}

pub open spec fn clip_can_layer(c: VideoClipView, pts: int) -> bool {
    &&& is_time(c.timeline_start + not_below_zero(c.length()))
    &&& c.timeline_start <= pts < c.end() ==> {
        &&& is_time(pts - c.timeline_start)
        &&& is_time(c.source_in + source_offset((pts - c.timeline_start) as i64, c.speed))
        &&& keyframes_fit(c.keyframes)
    }
}

/// A clip that shows at a time.
#[derive(Clone, Copy, Debug)]
pub struct Layer {
    pub track: usize,
    pub clip: usize,
    pub source_pts: i64,
    pub alpha: Float32,
    pub transform: Transform,
}

impl View for Layer {
    type V = LayerView;

    open spec fn view(&self) -> LayerView {
        LayerView {
            track: self.track as int,
            clip: self.clip as int,
            source_pts: self.source_pts as int,
            alpha: self.alpha@,
            transform: self.transform@,
        }
    }
}

fn fade_in(alpha: Float32, transition: i64, local: i64) -> (r: Float32)
    ensures
        r@ == faded_in(alpha@, transition as int, local as int),
{
    let tin: Float32 = n32(
        if transition > 0 {
            transition
        } else {
            0
        },
    );
    if tin.is_positive() && local < tin.to_i64(Toward::Zero) {
        alpha.times(n32(local).over(tin).clamped(n32(0), n32(1)))
    } else {
        alpha
    }
}

fn fade_out(alpha: Float32, next: &VideoClip, end: i64, pts: i64) -> (r: Float32)
    requires
        is_time(end - pts),
        pts <= end,
    ensures
        r@ == faded_out(alpha@, next@, end as int, pts as int),
{
    let tn: i64 = if next.transition_us > 0 {
        next.transition_us
    } else {
        0
    };
    if tn > 0 && next.timeline_start == end && end - pts <= tn {
        alpha.times(n32(end - pts).over(n32(tn)).clamped(n32(0), n32(1)))
    } else {
        alpha
    }
}

fn alpha_at(clips: &Vec<VideoClip>, i: usize, pts: i64) -> (r: Float32)
    requires
        i < clips.len(),
        ({
            let c = clips@[i as int]@;
            is_time(c.end()) && c.timeline_start <= pts < c.end() && is_time(pts - c.timeline_start)
        }),
    ensures
        r@ == clip_alpha(views(clips@), i as int, pts as int),
{
    let c: &VideoClip = &clips[i];
    let end: i64 = c.timeline_start + c.on_timeline_us();
    let a: Float32 = fade_in(c.opacity, c.transition_us, pts - c.timeline_start);
    if clips.len() - i > 1 {
        fade_out(a, &clips[i + 1], end, pts)
    } else {
        a
    }
}

impl Project {
    /// Whether the layers of a frame can be computed.
    pub fn can_layer_at(&self, pts: i64) -> (r: bool)
        ensures
            r == can_layer(self@, pts as int),
    {
        let ghost vs = self@.video_tracks;
        let mut i: usize = 0;
        while i < self.video_tracks.len()
            invariant
                i <= self.video_tracks.len(),
                vs == self@.video_tracks,
                forall|k: int, l: int|
                    0 <= k < i && 0 <= l < vs[k].clips.len() ==> clip_can_layer(
                        #[trigger] vs[k].clips[l],
                        pts as int,
                    ),
            decreases self.video_tracks.len() - i,
        {
            let clips: &Vec<VideoClip> = &self.video_tracks[i].clips;
            let mut j: usize = 0;
            while j < clips.len()
                invariant
                    i < self.video_tracks.len(),
                    j <= clips.len(),
                    vs == self@.video_tracks,
                    clips@ == self.video_tracks@[i as int].clips@,
                    forall|l: int|
                        0 <= l < j ==> clip_can_layer(
                            #[trigger] vs[i as int].clips[l],
                            pts as int,
                        ),
                decreases clips.len() - j,
            {
                if !clip_layers(&clips[j], pts) {
                    assert(!clip_can_layer(vs[i as int].clips[j as int], pts as int));
                    return false;
                }
                j = j + 1;
            }
            i = i + 1;
        }
        true
    }

    /// The layers of a frame, from the bottom to the top.
    pub fn layers(&self, pts: i64) -> (r: Vec<Layer>)
        requires
            can_layer(self@, pts as int),
        ensures
            views(r@) == layers_at(self@, pts as int),
            forall|k: int|
                0 <= k < r@.len() ==> {
                    let l = #[trigger] r@[k];
                    &&& l.track < self.video_tracks.len()
                    &&& l.clip < self.video_tracks@[l.track as int].clips.len()
                    &&& self@.assets.assets.contains_key(
                        self@.video_tracks[l.track as int].clips[l.clip as int].asset.0,
                    )
                },
    {
        let ghost p = self@;
        let mut out: Vec<Layer> = Vec::new();
        let mut i: usize = 0;
        assert(views(out@) =~= layers_upto(p, 0, pts as int));
        while i < self.video_tracks.len()
            invariant
                i <= self.video_tracks.len(),
                p == self@,
                can_layer(p, pts as int),
                views(out@) == layers_upto(p, i as int, pts as int),
                forall|k: int|
                    0 <= k < out@.len() ==> {
                        let l = #[trigger] out@[k];
                        &&& l.track < self.video_tracks.len()
                        &&& l.clip < self.video_tracks@[l.track as int].clips.len()
                        &&& p.assets.assets.contains_key(
                            p.video_tracks[l.track as int].clips[l.clip as int].asset.0,
                        )
                    },
            decreases self.video_tracks.len() - i,
        {
            let clips: &Vec<VideoClip> = &self.video_tracks[i].clips;
            let ghost below = views(out@);
            let mut j: usize = 0;
            assert(below + track_layers(p, i as int, 0, pts as int) =~= below);
            while j < clips.len()
                invariant
                    i < self.video_tracks.len(),
                    j <= clips.len(),
                    p == self@,
                    can_layer(p, pts as int),
                    clips@ == self.video_tracks@[i as int].clips@,
                    views(clips@) == p.video_tracks[i as int].clips,
                    views(out@) == below + track_layers(p, i as int, j as int, pts as int),
                    forall|k: int|
                        0 <= k < out@.len() ==> {
                            let l = #[trigger] out@[k];
                            &&& l.track < self.video_tracks.len()
                            &&& l.clip < self.video_tracks@[l.track as int].clips.len()
                            &&& p.assets.assets.contains_key(
                                p.video_tracks[l.track as int].clips[l.clip as int].asset.0,
                            )
                        },
                decreases clips.len() - j,
            {
                let c: &VideoClip = &clips[j];
                let ghost held = views(out@);
                let ghost before = track_layers(p, i as int, j as int, pts as int);
                proof {
                    assert(c@ == p.video_tracks[i as int].clips[j as int]);
                    assert(clip_can_layer(p.video_tracks[i as int].clips[j as int], pts as int));
                }
                let len: i64 = c.on_timeline_us();
                if self.assets.get(c.asset).is_some() && len > 0 && c.timeline_start <= pts && pts
                    < c.timeline_start + len {
                    let alpha: Float32 = alpha_at(clips, j, pts);
                    if !alpha.less_than(Float32 { bits: 0x3a83_126f }) {
                        let local: i64 = pts - c.timeline_start;
                        let l: Layer = Layer {
                            track: i,
                            clip: j,
                            source_pts: c.source_at(local),
                            alpha,
                            transform: effective_transform(c, local),
                        };
                        out.push(l);
                        proof {
                            assert(is_layer(p, i as int, j as int, pts as int));
                            assert(l@ == layer_of(p, i as int, j as int, pts as int));
                            assert(views(out@) =~= held.push(l@));
                            assert(held.push(l@) =~= below + before.push(l@));
                        }
                    }
                }
                j = j + 1;
            }
            i = i + 1;
        }
        out
    }
}

fn clip_layers(c: &VideoClip, pts: i64) -> (r: bool)
    ensures
        r == clip_can_layer(c@, pts as int),
{
    let len: i64 = c.on_timeline_us();
    if len <= 0 {
        return true;
    }
    let end: i64 = match c.timeline_start.checked_add(len) {
        Some(e) => e,
        None => {
            return false;
        },
    };
    if pts < c.timeline_start || pts >= end {
        return true;
    }
    let local: i64 = match pts.checked_sub(c.timeline_start) {
        Some(l) => l,
        None => {
            return false;
        },
    };
    if c.source_in.checked_add(crate::timeline::offset_in_source(local, c.speed)).is_none() {
        return false;
    }
    apart_enough(&c.keyframes)
}

fn apart_enough(kf: &Vec<TransformKeyframe>) -> (r: bool)
    ensures
        r == keyframes_fit(kf@),
{
    let n: usize = kf.len();
    let mut i: usize = 0;
    while i < n && n - i > 1
        invariant
            i <= n,
            n == kf.len(),
            forall|k: int|
                0 <= k < i && k + 1 < n ==> is_time(#[trigger] kf@[k + 1].t_us - kf@[k].t_us),
        decreases n - i,
    {
        if kf[i + 1].t_us.checked_sub(kf[i].t_us).is_none() {
            assert(!is_time(kf@[i + 1].t_us - kf@[i as int].t_us));
            return false;
        }
        i = i + 1;
    }
    true
}

/// The picture of a layer: the pixels of an image, or the frame that was fetched.
pub struct Picture {
    pub rgba: Seq<u8>,
    pub width: int,
    pub height: int,
}

/// The asset of a layer.
pub open spec fn layer_asset(p: ProjectView, l: LayerView) -> Asset {
    p.assets.assets[p.video_tracks[l.track].clips[l.clip].asset.0]
}

/// The picture of a layer.
pub open spec fn picture_of(p: ProjectView, l: LayerView, fetched: Option<VideoFrame>) -> Option<Picture> {
    let a = layer_asset(p, l);
    if a.kind == AssetKind::Image {
        match a.rgba {
            Some(rgba) => Some(
                Picture { rgba: rgba@, width: a.width as int, height: a.height as int },
            ),
            None => None,
        }
    } else {
        match fetched {
            Some(f) => Some(
                Picture { rgba: f.rgba@, width: f.width as int, height: f.height as int },
            ),
            None => None,
        }
    }
}

/// The size of a picture in bytes can be computed.
pub open spec fn picture_fits(pic: Option<Picture>) -> bool {
    match pic {
        Some(p) => p.width * p.height * 4 <= u32::MAX,
        None => true,
    }
}

/// What a layer is painted with, turned by an angle given by its cosine and sine.
pub open spec fn layer_look(p: ProjectView, l: LayerView, turn: (Number, Number)) -> LookView {
    let c = p.video_tracks[l.track].clips[l.clip];
    LookView {
        opacity: l.alpha,
        grade: c.grade,
        flip_x: c.flip_x,
        flip_y: c.flip_y,
        cos: turn.0,
        sin: turn.1,
    }
}

/// An empty frame.
pub open spec fn empty_frame(w: int, h: int) -> Seq<u8> {
    cleared(Seq::new((w * h * 4) as nat, |i: int| 0u8))
}

/// A frame with the first `n` layers on it, each over those below.
pub open spec fn composed(
    p: ProjectView,
    w: int,
    h: int,
    layers: Seq<LayerView>,
    fetched: Seq<Option<VideoFrame>>,
    turns: Seq<(Number, Number)>,
    n: int,
) -> Seq<u8>
    decreases n,
{
    if n <= 0 {
        empty_frame(w, h)
    } else {
        let below = composed(p, w, h, layers, fetched, turns, n - 1);
        let l = layers[n - 1];
        let c = p.video_tracks[l.track].clips[l.clip];
        match picture_of(p, l, fetched[n - 1]) {
            Some(pic) => picture_blended(
                below,
                w,
                h,
                pic.rgba,
                pic.width,
                pic.height,
                l.transform,
                layer_look(p, l, turns[n - 1]),
                c.crop,
                c.blend,
            ),
            None => below,
        }
    }
}

/// Angles by their cosines and sines.
pub open spec fn turn_views(turns: Seq<(Float32, Float32)>) -> Seq<(Number, Number)> {
    Seq::new(turns.len(), |i: int| (turns[i].0@, turns[i].1@))
}

/// Frames behind references.
pub open spec fn frame_views(frames: Seq<Option<&VideoFrame>>) -> Seq<Option<VideoFrame>> {
    Seq::new(
        frames.len(),
        |i: int|
            match frames[i] {
                Some(f) => Some(*f),
                None => None,
            },
    )
}

proof fn lemma_composed_len(
    p: ProjectView,
    w: int,
    h: int,
    layers: Seq<LayerView>,
    fetched: Seq<Option<VideoFrame>>,
    turns: Seq<(Number, Number)>,
    n: int,
)
    requires
        w * h * 4 >= 0,
    ensures
        composed(p, w, h, layers, fetched, turns, n).len() == w * h * 4,
    decreases n,
{
    if n > 0 {
        lemma_composed_len(p, w, h, layers, fetched, turns, n - 1);
    }
}

fn zeros(n: usize) -> (r: Vec<u8>)
    ensures
        r@ == Seq::new(n as nat, |i: int| 0u8),
{
    let mut r: Vec<u8> = Vec::new();
    let mut i: usize = 0;
    while i < n
        invariant
            i <= n,
            r.len() == i,
            forall|k: int| 0 <= k < i ==> r@[k] == 0,
        decreases n - i,
    {
        r.push(0);
        i = i + 1;
    }
    assert(r@ =~= Seq::new(n as nat, |i: int| 0u8));
    r
}

/// Renders the video tracks of a frame: its layers, with the frames fetched for
/// them and the cosine and sine of the angle of each.
pub fn compose_frame(
    project: &Project,
    w: u32,
    h: u32,
    layers: &Vec<Layer>,
    fetched: &Vec<Option<&VideoFrame>>,
    turns: &Vec<(Float32, Float32)>,
) -> (out: Vec<u8>)
    requires
        w as int * h as int * 4 <= u32::MAX,
        fetched.len() == layers.len(),
        turns.len() == layers.len(),
        forall|k: int|
            0 <= k < layers@.len() ==> {
                let l = #[trigger] layers@[k];
                &&& l.track < project.video_tracks.len()
                &&& l.clip < project.video_tracks@[l.track as int].clips.len()
                &&& project@.assets.assets.contains_key(
                    project@.video_tracks[l.track as int].clips[l.clip as int].asset.0,
                )
                &&& picture_fits(picture_of(project@, l@, frame_views(fetched@)[k]))
            },
    ensures
        out@ == composed(
            project@,
            w as int,
            h as int,
            views(layers@),
            frame_views(fetched@),
            turn_views(turns@),
            layers.len() as int,
        ),
        out.len() == w as int * h as int * 4,
{
    let ghost p = project@;
    let ghost ls = views(layers@);
    let ghost fs = frame_views(fetched@);
    let ghost ts = turn_views(turns@);
    let size: u64 = w as u64 * h as u64 * 4;
    let mut out: Vec<u8> = zeros(size as usize);
    clear_buffer(&mut out);
    let mut k: usize = 0;
    proof {
        assert(w as int * h as int >= 0) by (nonlinear_arith)
            requires
                w >= 0,
                h >= 0,
        ;
    }
    while k < layers.len()
        invariant
            k <= layers.len(),
            w as int * h as int * 4 <= u32::MAX,
            w as int * h as int * 4 >= 0,
            fetched.len() == layers.len(),
            turns.len() == layers.len(),
            p == project@,
            ls == views(layers@),
            fs == frame_views(fetched@),
            ts == turn_views(turns@),
            forall|k: int|
                0 <= k < layers@.len() ==> {
                    let l = #[trigger] layers@[k];
                    &&& l.track < project.video_tracks.len()
                    &&& l.clip < project.video_tracks@[l.track as int].clips.len()
                    &&& p.assets.assets.contains_key(
                        p.video_tracks[l.track as int].clips[l.clip as int].asset.0,
                    )
                    &&& picture_fits(picture_of(p, l@, fs[k]))
                },
            out@ == composed(p, w as int, h as int, ls, fs, ts, k as int),
        decreases layers.len() - k,
    {
        let l: &Layer = &layers[k];
        let clip: &VideoClip = &project.video_tracks[l.track].clips[l.clip];
        proof {
            assert(clip@ == p.video_tracks[l.track as int].clips[l.clip as int]);
            assert(ls[k as int] == l@);
            lemma_composed_len(p, w as int, h as int, ls, fs, ts, k as int);
            lemma_has_room(w as int, h as int);
        }
        let look: Look = Look {
            opacity: l.alpha,
            grade: clip.grade,
            flip_x: clip.flip_x,
            flip_y: clip.flip_y,
            cos: turns[k].0,
            sin: turns[k].1,
        };
        proof {
            assert(ts[k as int] == (turns@[k as int].0@, turns@[k as int].1@));
            assert(look@ == layer_look(p, l@, ts[k as int]));
        }
        match project.assets.get(clip.asset) {
            Some(asset) => {
                assert(*asset == layer_asset(p, l@));
                if asset.kind == AssetKind::Image {
                    if let Some(rgba) = &asset.rgba {
                        blend_scaled(
                            rgba,
                            asset.width,
                            asset.height,
                            &mut out,
                            w,
                            h,
                            &l.transform,
                            &look,
                            &clip.crop,
                            clip.blend,
                        );
                    }
                } else {
                    if let Some(f) = fetched[k] {
                        assert(fs[k as int] == Some(*f));
                        blend_scaled(
                            &f.rgba,
                            f.width,
                            f.height,
                            &mut out,
                            w,
                            h,
                            &l.transform,
                            &look,
                            &clip.crop,
                            clip.blend,
                        );
                    } else {
                        assert(fs[k as int].is_none());
                    }
                }
            },
            None => {},
        }
        k = k + 1;
    }
    proof {
        lemma_composed_len(p, w as int, h as int, ls, fs, ts, layers.len() as int);
    }
    out
}

/// A frame has as many bytes as its size says, whatever is on it.
pub proof fn law_frames_have_their_size(
    p: ProjectView,
    w: int,
    h: int,
    layers: Seq<LayerView>,
    fetched: Seq<Option<VideoFrame>>,
    turns: Seq<(Number, Number)>,
)
    requires
        w >= 0,
        h >= 0,
    ensures
        composed(p, w, h, layers, fetched, turns, layers.len() as int).len() == w * h * 4,
{
    assert(w * h >= 0) by (nonlinear_arith)
        requires
            w >= 0,
            h >= 0,
    ;
    lemma_composed_len(p, w, h, layers, fetched, turns, layers.len() as int);
}

/// The preview of a project from the frames at hand.
pub struct Composition<'a> {
    pub project: &'a Project,
    pub cache: &'a FrameCache,
    pub w: u32,
    pub h: u32,
}

/// The frame that the cache gives for a layer: none later than the end of the clip,
/// or than the time itself where that is later.
pub open spec fn cached_for(
    p: ProjectView,
    m: Map<(u64, i64), VideoFrame>,
    l: LayerView,
    r: Option<&VideoFrame>,
) -> bool {
    let c = p.video_tracks[l.track].clips[l.clip];
    let up_to = if c.source_out > l.source_pts {
        c.source_out
    } else {
        l.source_pts as i64
    };
    shown(m, layer_asset(p, l).id.0, l.source_pts as i64, Some(up_to), r)
}

impl<'a> Composition<'a> {
    /// The frames that the cache has for some layers.
    pub fn fetch(&self, layers: &Vec<Layer>) -> (r: Vec<Option<&VideoFrame>>)
        requires
            self.cache.well_formed(),
            forall|k: int|
                0 <= k < layers@.len() ==> {
                    let l = #[trigger] layers@[k];
                    &&& l.track < self.project.video_tracks.len()
                    &&& l.clip < self.project.video_tracks@[l.track as int].clips.len()
                    &&& self.project@.assets.assets.contains_key(
                        self.project@.video_tracks[l.track as int].clips[l.clip as int].asset.0,
                    )
                },
        ensures
            r.len() == layers.len(),
            forall|k: int|
                0 <= k < r@.len() ==> cached_for(
                    self.project@,
                    self.cache@,
                    layers@[k]@,
                    #[trigger] r@[k],
                ),
    {
        let mut r: Vec<Option<&VideoFrame>> = Vec::new();
        let mut k: usize = 0;
        while k < layers.len()
            invariant
                k <= layers.len(),
                r.len() == k,
                self.cache.well_formed(),
                forall|k: int|
                    0 <= k < layers@.len() ==> {
                        let l = #[trigger] layers@[k];
                        &&& l.track < self.project.video_tracks.len()
                        &&& l.clip < self.project.video_tracks@[l.track as int].clips.len()
                        &&& self.project@.assets.assets.contains_key(
                            self.project@.video_tracks[l.track as int].clips[l.clip as int].asset.0,
                        )
                    },
                forall|i: int|
                    0 <= i < k ==> cached_for(
                        self.project@,
                        self.cache@,
                        layers@[i]@,
                        #[trigger] r@[i],
                    ),
            decreases layers.len() - k,
        {
            let l: &Layer = &layers[k];
            let clip: &VideoClip = &self.project.video_tracks[l.track].clips[l.clip];
            assert(clip@ == self.project@.video_tracks[l.track as int].clips[l.clip as int]);
            let up_to: i64 = if clip.source_out > l.source_pts {
                clip.source_out
            } else {
                l.source_pts
            };
            let id: u64 = match self.project.assets.get(clip.asset) {
                Some(a) => a.id.0,
                None => 0,
            };
            r.push(self.cache.nearest(id, l.source_pts, Some(up_to)));
            k = k + 1;
        }
        r
    }

    /// Renders the video tracks at a time from the frames at hand; the cosines and
    /// sines are those of the angles of the layers. `None` where a picture is too
    /// large.
    pub fn render_at(&self, layers: &Vec<Layer>, turns: &Vec<(Float32, Float32)>) -> (out: Option<
        Vec<u8>,
    >)
        requires
            self.cache.well_formed(),
            turns.len() == layers.len(),
            self.w as int * self.h as int * 4 <= u32::MAX,
            forall|k: int|
                0 <= k < layers@.len() ==> {
                    let l = #[trigger] layers@[k];
                    &&& l.track < self.project.video_tracks.len()
                    &&& l.clip < self.project.video_tracks@[l.track as int].clips.len()
                    &&& self.project@.assets.assets.contains_key(
                        self.project@.video_tracks[l.track as int].clips[l.clip as int].asset.0,
                    )
                },
        ensures
            exists|fetched: Seq<Option<&VideoFrame>>| #[trigger]
                self.renders(layers@, turns@, fetched, out),
    {
        let fetched: Vec<Option<&VideoFrame>> = self.fetch(layers);
        let ghost fs = frame_views(fetched@);
        let mut k: usize = 0;
        while k < layers.len()
            invariant
                k <= layers.len(),
                fetched.len() == layers.len(),
                fs == frame_views(fetched@),
                forall|k: int|
                    0 <= k < layers@.len() ==> {
                        let l = #[trigger] layers@[k];
                        &&& l.track < self.project.video_tracks.len()
                        &&& l.clip < self.project.video_tracks@[l.track as int].clips.len()
                        &&& self.project@.assets.assets.contains_key(
                            self.project@.video_tracks[l.track as int].clips[l.clip as int].asset.0,
                        )
                    },
                forall|k: int|
                    0 <= k < fetched@.len() ==> cached_for(
                        self.project@,
                        self.cache@,
                        layers@[k]@,
                        #[trigger] fetched@[k],
                    ),
                forall|i: int|
                    0 <= i < k ==> picture_fits(
                        picture_of(self.project@, (#[trigger] layers@[i])@, fs[i]),
                    ),
            decreases layers.len() - k,
        {
            if !small_enough(self.project, &layers[k], fetched[k]) {
                proof {
                    assert(!picture_fits(picture_of(self.project@, layers@[k as int]@, fs[k as int])));
                    assert(self.renders(layers@, turns@, fetched@, None));
                }
                return None;
            }
            k = k + 1;
        }
        let out: Vec<u8> = compose_frame(self.project, self.w, self.h, layers, &fetched, turns);
        proof {
            assert(self.renders(layers@, turns@, fetched@, Some(out)));
        }
        Some(out)
    }

    /// The frames come from the cache, and the frame is composed of them.
    pub open spec fn renders(
        self,
        layers: Seq<Layer>,
        turns: Seq<(Float32, Float32)>,
        fetched: Seq<Option<&VideoFrame>>,
        out: Option<Vec<u8>>,
    ) -> bool {
        let p = self.project@;
        let fs = frame_views(fetched);
        &&& fetched.len() == layers.len()
        &&& forall|k: int|
            0 <= k < fetched.len() ==> cached_for(p, self.cache@, layers[k]@, #[trigger] fetched[k])
        &&& out.is_some() <==> forall|k: int|
            0 <= k < layers.len() ==> picture_fits(picture_of(p, (#[trigger] layers[k])@, fs[k]))
        &&& out.is_some() ==> out.unwrap()@ == composed(
            p,
            self.w as int,
            self.h as int,
            views(layers),
            fs,
            turn_views(turns),
            layers.len() as int,
        )
    }
}

/// A frame with its video layers and the texts above them.
pub open spec fn finished_frame(
    p: ProjectView,
    w: int,
    h: int,
    layers: Seq<LayerView>,
    fetched: Seq<Option<VideoFrame>>,
    turns: Seq<(Number, Number)>,
    texts: Seq<Option<DrawnText<'_>>>,
) -> Seq<u8> {
    texts_drawn(
        composed(p, w, h, layers, fetched, turns, layers.len() as int),
        w,
        h,
        texts,
        texts.len() as int,
    )
}

/// What the preview shows is what an export renders: with the same frames for the same
/// layers and the same texts, the bytes are the same, and the texts lie on top of the
/// layers in both.
pub proof fn law_preview_is_what_is_exported(
    c: Composition,
    layers: Seq<Layer>,
    turns: Seq<(Float32, Float32)>,
    fetched: Seq<Option<&VideoFrame>>,
    texts: Seq<Option<DrawnText<'_>>>,
    shown: Vec<u8>,
    shown_texts: Seq<u8>,
    exported: Vec<u8>,
    exported_texts: Seq<u8>,
)
    requires
        c.renders(layers, turns, fetched, Some(shown)),
        exported@ == composed(
            c.project@,
            c.w as int,
            c.h as int,
            views(layers),
            frame_views(fetched),
            turn_views(turns),
            layers.len() as int,
        ),
        shown_texts == texts_drawn(shown@, c.w as int, c.h as int, texts, texts.len() as int),
        exported_texts == texts_drawn(exported@, c.w as int, c.h as int, texts, texts.len() as int),
    ensures
        shown@ == exported@,
        shown_texts == exported_texts,
        shown_texts == finished_frame(
            c.project@,
            c.w as int,
            c.h as int,
            views(layers),
            frame_views(fetched),
            turn_views(turns),
            texts,
        ),
{
}

/// The frame that a layer needs from its source: of which asset, from which file, at
/// which time. An image needs none, and neither does a clip without its asset.
pub open spec fn request_of(p: ProjectView, l: LayerView) -> Option<(u64, Seq<char>, int)> {
    let id = p.video_tracks[l.track].clips[l.clip].asset.0;
    if p.assets.assets.contains_key(id) && p.assets.assets[id].kind != AssetKind::Image {
        Some((p.assets.assets[id].id.0, p.assets.assets[id].path@, l.source_pts))
    } else {
        None
    }
}

/// A frame to be decoded.
#[derive(Debug, Clone)]
pub struct SourceRequest {
    pub asset: u64,
    pub path: String,
    pub pts_us: i64,
}

/// The frame that a layer needs from its source.
pub fn source_request(project: &Project, l: &Layer) -> (r: Option<SourceRequest>)
    requires
        l.track < project.video_tracks.len(),
        l.clip < project.video_tracks@[l.track as int].clips.len(),
    ensures
        match request_of(project@, l@) {
            Some((asset, path, pts)) => {
                &&& r.is_some()
                &&& r.unwrap().asset == asset
                &&& r.unwrap().path@ == path
                &&& r.unwrap().pts_us == pts
            },
            None => r.is_none(),
        },
{
    let clip: &VideoClip = &project.video_tracks[l.track].clips[l.clip];
    assert(clip@ == project@.video_tracks[l.track as int].clips[l.clip as int]);
    match project.assets.get(clip.asset) {
        Some(a) => {
            if a.kind == AssetKind::Image {
                None
            } else {
                Some(
                    SourceRequest { asset: a.id.0, path: a.path.clone(), pts_us: l.source_pts },
                )
            }
        },
        None => None,
    }
}

/// Whether the size of the picture of a layer in bytes can be computed.
pub fn small_enough(project: &Project, l: &Layer, fetched: Option<&VideoFrame>) -> (r: bool)
    requires
        l.track < project.video_tracks.len(),
        l.clip < project.video_tracks@[l.track as int].clips.len(),
        project@.assets.assets.contains_key(
            project@.video_tracks[l.track as int].clips[l.clip as int].asset.0,
        ),
    ensures
        r == picture_fits(
            picture_of(
                project@,
                l@,
                match fetched {
                    Some(f) => Some(*f),
                    None => None,
                },
            ),
        ),
{
    let clip: &VideoClip = &project.video_tracks[l.track].clips[l.clip];
    assert(clip@ == project@.video_tracks[l.track as int].clips[l.clip as int]);
    match project.assets.get(clip.asset) {
        Some(a) => if a.kind == AssetKind::Image {
            match &a.rgba {
                Some(_) => bytes_fit(a.width, a.height),
                None => true,
            }
        } else {
            match fetched {
                Some(f) => bytes_fit(f.width, f.height),
                None => true,
            }
        },
        None => true,
    }
}

/// Whether the number of bytes of a picture fits into 32 bits.
pub fn bytes_fit(w: u32, h: u32) -> (r: bool)
    ensures
        r == (w as int * h as int * 4 <= u32::MAX),
{
    assert(0 <= w as int * h as int <= 0xffff_ffff * 0xffff_ffff) by (nonlinear_arith)
        requires
            0 <= w <= 0xffff_ffff,
            0 <= h <= 0xffff_ffff,
    ;
    w as u128 * h as u128 * 4 <= u32::MAX as u128
}

/// Which part of its transition a clip has faded in by, as a fraction.
pub open spec fn part_faded_in(c: VideoClipView, pts: int) -> (int, int) {
    let local = pts - c.timeline_start;
    if local < c.transition_us {
        (local, c.transition_us as int)
    } else {
        (1, 1)
    }
}

/// Which part of the transition of the clip that follows at its end is left to a clip, as a
/// fraction.
pub open spec fn part_left(clips: Seq<VideoClipView>, i: int, pts: int) -> (int, int) {
    let end = clips[i].timeline_start + clips[i].length();
    if i + 1 < clips.len() && clips[i + 1].timeline_start == end && end - pts
        <= clips[i + 1].transition_us {
        (end - pts, clips[i + 1].transition_us as int)
    } else {
        (1, 1)
    }
}

/// A clip is as opaque as its opacity times the parts that fade it.
proof fn lemma_clip_alpha(clips: Seq<VideoClipView>, i: int, pts: int, opacity: nat) -> (al: nat)
    requires
        0 <= i < clips.len(),
        clips[i].active(pts),
        clips[i].opacity@ == (Number::Finite { negative: false, units: opacity }),
        opacity <= pow2(149),
        clips[i].transition_us < 0x100_0000,
        i + 1 < clips.len() ==> clips[i + 1].transition_us < 0x100_0000,
    ensures
        clip_alpha(clips, i, pts) == (Number::Finite { negative: false, units: al }),
        al <= pow2(149),
        ({
            let ((a, b), (c, d)) = (part_faded_in(clips[i], pts), part_left(clips, i, pts));
            &&& 0 <= a <= b && 0 < b && 0 <= c <= d && 0 < d
            &&& (al * (b * d) - opacity * (a * c)) * 0x4_0000 <= pow2(149) * (b * d)
            &&& (opacity * (a * c) - al * (b * d)) * 0x4_0000 <= pow2(149) * (b * d)
        }),
{
    let u = pow2(149) as int;
    let c0 = clips[i];
    let tr = c0.transition_us as int;
    let local = pts - c0.timeline_start;
    let ((a, b), (c, d)) = (part_faded_in(c0, pts), part_left(clips, i, pts));
    lemma_pow2_pos(149);
    lemma2_to64();
    law_integers_are_exact(single(), 0);
    lemma_integers_in_order(single(), 0, 0);
    assert(0 * pow2(149) == 0) by (nonlinear_arith);
    if tr > 0 {
        law_integers_are_exact(single(), tr);
        lemma_integers_in_order(single(), 0, tr);
        law_integers_come_back(
            single(),
            Toward::Zero,
            tr,
            i64::MIN as int,
            i64::MAX as int,
        );
    }
    let z = if local < tr {
        lemma_faded(opacity, local, tr)
    } else {
        opacity
    };
    let alpha = Number::Finite { negative: false, units: z };
    assert(faded_in(c0.opacity@, tr, local) == alpha);
    let (zb, oa, ub) = (z * b, opacity * a, u * b);
    assert((zb - oa) * 0x10_0000 <= ub && (oa - zb) * 0x10_0000 <= ub) by {
        if !(local < tr) {
            assert(z * 1 == opacity * 1 && u * 1 == u) by (nonlinear_arith)
                requires
                    z == opacity,
            ;
        }
    }
    let end = c0.timeline_start + c0.length();
    let al = if i + 1 < clips.len() && clips[i + 1].timeline_start == end && end - pts <= clips[i
        + 1].transition_us {
        lemma_faded(z, end - pts, clips[i + 1].transition_us as int)
    } else {
        z
    };
    let (ad, zc, ud) = (al * d, z * c, u * d);
    assert((ad - zc) * 0x10_0000 <= ud && (zc - ad) * 0x10_0000 <= ud) by {
        if d == 1 && al == z && c == 1 {
            assert(al * 1 == z * 1) by (nonlinear_arith)
                requires
                    al == z,
            ;
        }
    }
    // Both parts together.
    let (x, y, w) = (ad * b, zc * b, ud * b);
    assert((x - y) * 0x10_0000 <= w && (y - x) * 0x10_0000 <= w) by (nonlinear_arith)
        requires
            (ad - zc) * 0x10_0000 <= ud,
            (zc - ad) * 0x10_0000 <= ud,
            x == ad * b,
            y == zc * b,
            w == ud * b,
            b > 0,
    ;
    let (v, e) = (oa * c, ub * c);
    assert(y == zb * c) by (nonlinear_arith)
        requires
            y == (z * c) * b,
            zb == z * b,
    ;
    assert((y - v) * 0x10_0000 <= e && (v - y) * 0x10_0000 <= e) by (nonlinear_arith)
        requires
            (zb - oa) * 0x10_0000 <= ub,
            (oa - zb) * 0x10_0000 <= ub,
            y == zb * c,
            v == oa * c,
            e == ub * c,
            c >= 0,
    ;
    assert(e <= w) by (nonlinear_arith)
        requires
            e == (u * b) * c,
            w == (u * d) * b,
            c <= d,
            b > 0,
            u > 0,
    ;
    assert(al * (b * d) == x && opacity * (a * c) == v && u * (b * d) == w) by (nonlinear_arith)
        requires
            x == (al * d) * b,
            v == (opacity * a) * c,
            w == (u * d) * b,
    ;
    assert(w > 0) by (nonlinear_arith)
        requires
            w == (u * d) * b,
            u > 0,
            d > 0,
            b > 0,
    ;
    al
}

/// A clip is the only one that shows at a time.
pub open spec fn shows_alone(p: ProjectView, track: int, clip: int, pts: int) -> bool {
    &&& 0 <= track < p.video_tracks.len()
    &&& 0 <= clip < p.video_tracks[track].clips.len()
    &&& p.video_tracks[track].clips[clip].active(pts)
    &&& forall|t: int, i: int|
        0 <= t < p.video_tracks.len() && 0 <= i < p.video_tracks[t].clips.len() && (t, i) != (
            track,
            clip,
        ) ==> !(#[trigger] p.video_tracks[t].clips[i]).active(pts)
}

proof fn lemma_alone_on_track(p: ProjectView, track: int, clip: int, pts: int, t: int, n: int)
    requires
        shows_alone(p, track, clip, pts),
        0 <= t < p.video_tracks.len(),
        0 <= n <= p.video_tracks[t].clips.len(),
    ensures
        track_layers(p, t, n, pts) == (if t == track && clip < n && is_layer(
            p,
            track,
            clip,
            pts,
        ) {
            seq![layer_of(p, track, clip, pts)]
        } else {
            Seq::empty()
        }),
    decreases n,
{
    if n > 0 {
        lemma_alone_on_track(p, track, clip, pts, t, n - 1);
        let c = p.video_tracks[t].clips[n - 1];
        if (t, n - 1) != (track, clip) {
            assert(!c.active(pts));
        } else {
            assert(Seq::<LayerView>::empty().push(layer_of(p, track, clip, pts)) =~= seq![
                layer_of(p, track, clip, pts),
            ]);
        }
    }
}

proof fn lemma_alone(p: ProjectView, track: int, clip: int, pts: int, n: int)
    requires
        shows_alone(p, track, clip, pts),
        0 <= n <= p.video_tracks.len(),
    ensures
        layers_upto(p, n, pts) == (if track < n && is_layer(p, track, clip, pts) {
            seq![layer_of(p, track, clip, pts)]
        } else {
            Seq::empty()
        }),
    decreases n,
{
    if n > 0 {
        lemma_alone(p, track, clip, pts, n - 1);
        lemma_alone_on_track(
            p,
            track,
            clip,
            pts,
            n - 1,
            p.video_tracks[n - 1].clips.len() as int,
        );
        assert(layers_upto(p, n, pts) =~= (if track < n && is_layer(p, track, clip, pts) {
            seq![layer_of(p, track, clip, pts)]
        } else {
            Seq::empty()
        }));
    }
}

/// An asset gives a picture of some size: the pixels of an image, or the frame that was
/// fetched of anything else.
pub open spec fn gives_picture(
    a: Asset,
    fetched: Option<VideoFrame>,
    src: Seq<u8>,
    w: int,
    h: int,
) -> bool {
    if a.kind == AssetKind::Image {
        a.rgba.is_some() && a.rgba.unwrap()@ == src && a.width == w && a.height == h
    } else {
        fetched.is_some() && fetched.unwrap().rgba@ == src && fetched.unwrap().width == w
            && fetched.unwrap().height == h
    }
}

/// An opaque picture of a size.
pub open spec fn is_opaque(src: Seq<u8>, w: int, h: int) -> bool {
    &&& src.len() == w * h * 4
    &&& forall|q: int| 0 <= q < w * h ==> #[trigger] src[4 * q + 3] == 255
}

/// A clip that is neither moved, scaled, turned, cropped nor graded.
pub open spec fn is_plain(c: VideoClipView) -> bool {
    &&& c.transform@ == default_transform()@
    &&& c.keyframes.len() == 0
    &&& c.grade == neutral_grade()
    &&& c.crop == whole_picture()
}

/// The pixel of its picture that a clip of the frame's size shows at a pixel of the frame:
/// the same one, or its counterpart from the other end where the clip is flipped.
pub open spec fn pixel_shown(c: VideoClipView, w: int, h: int, px: int) -> int {
    let (x, y) = (px % w, px / w);
    (if c.flip_y {
        h - 1 - y
    } else {
        y
    }) * w + (if c.flip_x {
        w - 1 - x
    } else {
        x
    })
}

proof fn lemma_background(w: int, h: int, i: int)
    requires
        0 <= i < w * h * 4,
    ensures
        empty_frame(w, h).len() == w * h * 4,
        empty_frame(w, h)[i] == (if i % 4 == 3 {
            255
        } else if i % 4 == 2 {
            10
        } else {
            8u8
        }),
{
    let n = w * h;
    assert((n * 4) / 4 == n);
    assert(i / 4 < n);
}

/// What a plain layer of the frame's size does to the frame below it.
proof fn lemma_plain_layer(
    p: ProjectView,
    w: int,
    h: int,
    layers: Seq<LayerView>,
    fetched: Seq<Option<VideoFrame>>,
    turns: Seq<(Number, Number)>,
    n: int,
    src: Seq<u8>,
    share: nat,
    px: int,
) -> (z: nat)
    requires
        0 < n <= layers.len(),
        ({
            let l = layers[n - 1];
            let c = p.video_tracks[l.track].clips[l.clip];
            &&& is_plain(c)
            &&& l.transform == default_transform()@
            &&& gives_picture(p.assets.assets[c.asset.0], fetched[n - 1], src, w, h)
            &&& l.alpha == (Number::Finite { negative: false, units: share })
        }),
        share <= pow2(149),
        turns[n - 1] == (num(1), num(0)),
        is_opaque(src, w, h),
        0 < w < 0x80_0000,
        0 < h < 0x80_0000,
        0 <= px < w * h,
    ensures
        z <= pow2(149),
        (z - share) * 0x40_0000 <= pow2(149),
        (share - z) * 0x40_0000 <= pow2(149),
        ({
            let l = layers[n - 1];
            let c = p.video_tracks[l.track].clips[l.clip];
            let q = pixel_shown(c, w, h, px);
            let below = composed(p, w, h, layers, fetched, turns, n - 1);
            let out = composed(p, w, h, layers, fetched, turns, n);
            &&& below.len() == w * h * 4
            &&& out.len() == w * h * 4
            &&& 0 <= q < w * h
            &&& forall|k: int|
                0 <= k < 3 ==> {
                    let (v, s, d) = (
                        #[trigger] out[4 * px + k] as int,
                        src[4 * q + k] as int,
                        below[4 * px + k] as int,
                    );
                    (v == d && z == 0) || rounds_well(
                        v,
                        mode_of_bytes(c.blend, s, d) * z + 255 * d * (pow2(149) - z),
                        255 * pow2(149) as int,
                    )
                }
            &&& out[4 * px + 3] == (if z == 0 {
                below[4 * px + 3]
            } else {
                255
            })
        }),
{
    let l = layers[n - 1];
    let c = p.video_tracks[l.track].clips[l.clip];
    let below = composed(p, w, h, layers, fetched, turns, n - 1);
    assert(w * h * 4 >= 0) by (nonlinear_arith)
        requires
            w > 0,
            h > 0,
    ;
    lemma_composed_len(p, w, h, layers, fetched, turns, n - 1);
    lemma_composed_len(p, w, h, layers, fetched, turns, n);
    let look = layer_look(p, l, turns[n - 1]);
    lemma_filling_shares(below, src, w, h, look, c.blend, share, px)
}

/// A frame in which one clip shows: where its picture is opaque and has the size of the
/// frame, each channel of each pixel is what the blend mode makes of the picture and the
/// background, and the background, mixed in shares and rounded. The share of the picture is
/// the opacity of the clip, times the part of its transition that has passed, times the part
/// that is left of that of the clip which follows; so half an opacity gives the middle
/// between the two. `opacity` counts the smallest numbers in the opacity of the clip.
pub proof fn law_frames_follow_opacity_and_fades(
    p: ProjectView,
    track: int,
    clip: int,
    pts: int,
    w: int,
    h: int,
    fetched: Seq<Option<VideoFrame>>,
    turns: Seq<(Number, Number)>,
    src: Seq<u8>,
    opacity: nat,
    px: int,
    k: int,
)
    requires
        shows_alone(p, track, clip, pts),
        p.assets.assets.contains_key(p.video_tracks[track].clips[clip].asset.0),
        is_plain(p.video_tracks[track].clips[clip]),
        gives_picture(
            p.assets.assets[p.video_tracks[track].clips[clip].asset.0],
            fetched[0],
            src,
            w,
            h,
        ),
        p.video_tracks[track].clips[clip].opacity@ == (Number::Finite {
            negative: false,
            units: opacity,
        }),
        opacity <= pow2(149),
        p.video_tracks[track].clips[clip].transition_us < 0x100_0000,
        clip + 1 < p.video_tracks[track].clips.len() ==> p.video_tracks[track].clips[clip
            + 1].transition_us < 0x100_0000,
        turns[0] == (num(1), num(0)),
        is_opaque(src, w, h),
        0 < w < 0x80_0000,
        0 < h < 0x80_0000,
        0 <= px < w * h,
        0 <= k < 3,
    ensures
        ({
            let clips = p.video_tracks[track].clips;
            let layers = layers_at(p, pts);
            let out = composed(p, w, h, layers, fetched, turns, layers.len() as int);
            let ((a, b), (c, d)) = (part_faded_in(clips[clip], pts), part_left(clips, clip, pts));
            let (part, whole) = (opacity * (a * c), pow2(149) * (b * d));
            let s = src[4 * pixel_shown(clips[clip], w, h, px) + k] as int;
            let back = if k == 2 {
                10int
            } else {
                8
            };
            &&& out.len() == w * h * 4
            &&& out[4 * px + 3] == 255
            &&& rounds(
                out[4 * px + k] as int,
                mode_of_bytes(clips[clip].blend, s, back) * part + 255 * back * (whole - part),
                255 * whole,
            )
        }),
{
    let clips = p.video_tracks[track].clips;
    let c0 = clips[clip];
    let layers = layers_at(p, pts);
    let u = pow2(149) as int;
    let ((a, b), (c, d)) = (part_faded_in(c0, pts), part_left(clips, clip, pts));
    let back = if k == 2 {
        10int
    } else {
        8
    };
    lemma_pow2_pos(149);
    lemma_alone(p, track, clip, pts, p.video_tracks.len() as int);
    let al = lemma_clip_alpha(clips, clip, pts, opacity);
    let out = composed(p, w, h, layers, fetched, turns, layers.len() as int);
    let j = b * d;
    assert(j > 0) by (nonlinear_arith)
        requires
            j == b * d,
            b > 0,
            d > 0,
    ;
    lemma_background(w, h, 4 * px + k);
    lemma_background(w, h, 4 * px + 3);
    let q = pixel_shown(c0, w, h, px);
    let z = if is_layer(p, track, clip, pts) {
        lemma_plain_layer(p, w, h, layers, fetched, turns, 1, src, al, px)
    } else {
        al
    };
    let s = src[4 * q + k] as int;
    if !is_layer(p, track, clip, pts) {
        lemma_faint(al);
    }
    assert((4 * px + k) % 4 == k && (4 * px + 3) % 4 == 3);
    let (zj, aj, uj, n) = (z * j, al * j, u * j, opacity * (a * c));
    assert((zj - aj) * 0x40_0000 <= uj && (aj - zj) * 0x40_0000 <= uj) by (nonlinear_arith)
        requires
            (z - al) * 0x40_0000 <= u,
            (al - z) * 0x40_0000 <= u,
            zj == z * j,
            aj == al * j,
            uj == u * j,
            j > 0,
    ;
    assert(uj > 0) by (nonlinear_arith)
        requires
            uj == u * j,
            u > 0,
            j > 0,
    ;
    lemma_near_shares(out[4 * px + k] as int, c0.blend, s, back, z as int, n as int, j, u);
}

/// A share below a thousandth.
proof fn lemma_faint(al: nat)
    requires
        less(Number::Finite { negative: false, units: al }, (Float32 { bits: 0x3a83_126f })@),
    ensures
        al * 512 <= pow2(149),
{
    reveal(less);
    reveal(number_of_bits32);
    lemma2_to64();
    lemma2_to64_rest();
    lemma_pow2_adds(33, 116);
    lemma_pow2_pos(116);
    assert((Float32 { bits: 0x3a83_126f })@ == (Number::Finite {
        negative: false,
        units: 0x83_126f * pow2(116),
    }));
}

/// Each layer lies over those below it: where its picture is opaque and has the size of the
/// frame, each channel of each pixel is what the blend mode makes of the picture and the
/// frame without the layer, and that frame, mixed in shares and rounded. `share` counts the
/// smallest numbers in how strongly the layer shows.
pub proof fn law_layers_lie_over_those_below(
    p: ProjectView,
    w: int,
    h: int,
    layers: Seq<LayerView>,
    fetched: Seq<Option<VideoFrame>>,
    turns: Seq<(Number, Number)>,
    n: int,
    src: Seq<u8>,
    share: nat,
    px: int,
    k: int,
)
    requires
        0 < n <= layers.len(),
        ({
            let l = layers[n - 1];
            let c = p.video_tracks[l.track].clips[l.clip];
            &&& is_plain(c)
            &&& l.transform == default_transform()@
            &&& gives_picture(p.assets.assets[c.asset.0], fetched[n - 1], src, w, h)
            &&& l.alpha == (Number::Finite { negative: false, units: share })
        }),
        share <= pow2(149),
        turns[n - 1] == (num(1), num(0)),
        is_opaque(src, w, h),
        0 < w < 0x80_0000,
        0 < h < 0x80_0000,
        0 <= px < w * h,
        0 <= k < 3,
    ensures
        ({
            let l = layers[n - 1];
            let c = p.video_tracks[l.track].clips[l.clip];
            let (without, with) = (
                composed(p, w, h, layers, fetched, turns, n - 1),
                composed(p, w, h, layers, fetched, turns, n),
            );
            let d = without[4 * px + k] as int;
            let s = src[4 * pixel_shown(c, w, h, px) + k] as int;
            rounds(
                with[4 * px + k] as int,
                mode_of_bytes(c.blend, s, d) * share + 255 * d * (pow2(149) - share),
                255 * pow2(149) as int,
            )
        }),
{
    let l = layers[n - 1];
    let c = p.video_tracks[l.track].clips[l.clip];
    let u = pow2(149) as int;
    lemma_pow2_pos(149);
    let z = lemma_plain_layer(p, w, h, layers, fetched, turns, n, src, share, px);
    let without = composed(p, w, h, layers, fetched, turns, n - 1);
    let with = composed(p, w, h, layers, fetched, turns, n);
    let (d, v) = (without[4 * px + k] as int, with[4 * px + k] as int);
    let s = src[4 * pixel_shown(c, w, h, px) + k] as int;
    assert(z * 1 == z && u * 1 == u) by (nonlinear_arith);
    lemma_near_shares(v, c.blend, s, d, z as int, share as int, 1, u);
}

/// A layer comes before another in the frame: on a lower track, or earlier on the same one.
pub open spec fn lies_below(a: LayerView, b: LayerView) -> bool {
    a.track < b.track || (a.track == b.track && a.clip < b.clip)
}

/// A layer is a clip of a project as it shows at a time: the clip covers that time and its
/// asset is there, and the time in its source lies as far from the start of the source as
/// its speed takes it.
pub open spec fn is_of_clip(p: ProjectView, l: LayerView, pts: int) -> bool {
    &&& 0 <= l.track < p.video_tracks.len()
    &&& 0 <= l.clip < p.video_tracks[l.track].clips.len()
    &&& ({
        let c = p.video_tracks[l.track].clips[l.clip];
        &&& c.active(pts)
        &&& p.assets.assets.contains_key(c.asset.0)
        &&& l.source_pts == c.source_in + source_offset((pts - c.timeline_start) as i64, c.speed)
        &&& c.keyframes.len() == 0 ==> l.transform == c.transform@
    })
}

proof fn lemma_track_layers(p: ProjectView, track: int, n: int, pts: int)
    requires
        0 <= track < p.video_tracks.len(),
        0 <= n <= p.video_tracks[track].clips.len(),
    ensures
        ({
            let ls = track_layers(p, track, n, pts);
            &&& forall|i: int|
                0 <= i < ls.len() ==> {
                    let l = #[trigger] ls[i];
                    is_of_clip(p, l, pts) && l.track == track && l.clip < n
                }
            &&& forall|i: int, j: int| 0 <= i < j < ls.len() ==> lies_below(ls[i], ls[j])
        }),
    decreases n,
{
    if n > 0 {
        lemma_track_layers(p, track, n - 1, pts);
    }
}

proof fn lemma_layers_upto(p: ProjectView, n: int, pts: int)
    requires
        0 <= n <= p.video_tracks.len(),
    ensures
        ({
            let ls = layers_upto(p, n, pts);
            &&& forall|i: int|
                0 <= i < ls.len() ==> {
                    let l = #[trigger] ls[i];
                    is_of_clip(p, l, pts) && l.track < n
                }
            &&& forall|i: int, j: int| 0 <= i < j < ls.len() ==> lies_below(ls[i], ls[j])
        }),
    decreases n,
{
    if n > 0 {
        lemma_layers_upto(p, n - 1, pts);
        lemma_track_layers(p, n - 1, p.video_tracks[n - 1].clips.len() as int, pts);
    }
}

proof fn lemma_shown_on_track(p: ProjectView, track: int, n: int, pts: int, clip: int) -> (i: int)
    requires
        0 <= track < p.video_tracks.len(),
        0 <= clip < n <= p.video_tracks[track].clips.len(),
        is_layer(p, track, clip, pts),
    ensures
        0 <= i < track_layers(p, track, n, pts).len(),
        track_layers(p, track, n, pts)[i].track == track,
        track_layers(p, track, n, pts)[i].clip == clip,
    decreases n,
{
    let before = track_layers(p, track, n - 1, pts);
    if clip == n - 1 {
        before.len() as int
    } else {
        lemma_shown_on_track(p, track, n - 1, pts, clip)
    }
}

proof fn lemma_shown(p: ProjectView, n: int, pts: int, track: int, clip: int) -> (i: int)
    requires
        0 <= track < n <= p.video_tracks.len(),
        0 <= clip < p.video_tracks[track].clips.len(),
        is_layer(p, track, clip, pts),
    ensures
        0 <= i < layers_upto(p, n, pts).len(),
        layers_upto(p, n, pts)[i].track == track,
        layers_upto(p, n, pts)[i].clip == clip,
    decreases n,
{
    let before = layers_upto(p, n - 1, pts);
    let m = p.video_tracks[n - 1].clips.len() as int;
    if track == n - 1 {
        let i = lemma_shown_on_track(p, track, m, pts, clip);
        assert((before + track_layers(p, n - 1, m, pts))[before.len() + i] == track_layers(
            p,
            n - 1,
            m,
            pts,
        )[i]);
        before.len() + i
    } else {
        let i = lemma_shown(p, n - 1, pts, track, clip);
        assert((before + track_layers(p, n - 1, m, pts))[i] == before[i]);
        i
    }
}

/// The layers of a frame are the clips that show at its time, from the bottom to the top:
/// each is a clip that covers the time, and lower tracks and earlier clips come first.
pub proof fn law_layers_are_what_shows(p: ProjectView, pts: int)
    ensures
        ({
            let ls = layers_at(p, pts);
            &&& forall|i: int| 0 <= i < ls.len() ==> is_of_clip(p, #[trigger] ls[i], pts)
            &&& forall|i: int, j: int| 0 <= i < j < ls.len() ==> lies_below(ls[i], ls[j])
        }),
{
    lemma_layers_upto(p, p.video_tracks.len() as int, pts);
}

/// No clip is left out that covers the time of a frame, whose asset is there, and whose
/// opacity, times its fades, is at least a two hundredth. `opacity` counts the smallest
/// numbers in it.
pub proof fn law_no_layer_is_left_out(
    p: ProjectView,
    track: int,
    clip: int,
    pts: int,
    opacity: nat,
) -> (i: int)
    requires
        0 <= track < p.video_tracks.len(),
        0 <= clip < p.video_tracks[track].clips.len(),
        p.video_tracks[track].clips[clip].active(pts),
        p.assets.assets.contains_key(p.video_tracks[track].clips[clip].asset.0),
        p.video_tracks[track].clips[clip].opacity@ == (Number::Finite {
            negative: false,
            units: opacity,
        }),
        opacity <= pow2(149),
        p.video_tracks[track].clips[clip].transition_us < 0x100_0000,
        clip + 1 < p.video_tracks[track].clips.len() ==> p.video_tracks[track].clips[clip
            + 1].transition_us < 0x100_0000,
        ({
            let clips = p.video_tracks[track].clips;
            let ((a, b), (c, d)) = (part_faded_in(clips[clip], pts), part_left(clips, clip, pts));
            200 * (opacity * (a * c)) >= pow2(149) * (b * d)
        }),
    ensures
        0 <= i < layers_at(p, pts).len(),
        layers_at(p, pts)[i].track == track,
        layers_at(p, pts)[i].clip == clip,
{
    let clips = p.video_tracks[track].clips;
    let u = pow2(149) as int;
    lemma_pow2_pos(149);
    let al = lemma_clip_alpha(clips, clip, pts, opacity);
    let ((a, b), (c, d)) = (part_faded_in(clips[clip], pts), part_left(clips, clip, pts));
    let alpha = Number::Finite { negative: false, units: al };
    if less(alpha, (Float32 { bits: 0x3a83_126f })@) {
        lemma_faint(al);
        let (j, n) = (b * d, opacity * (a * c));
        assert(j > 0) by (nonlinear_arith)
            requires
                j == b * d,
                b > 0,
                d > 0,
        ;
        let (aj, uj) = (al * j, u * j);
        assert(aj * 512 <= uj && uj > 0) by (nonlinear_arith)
            requires
                aj == al * j,
                uj == u * j,
                al * 512 <= u,
                j > 0,
                u > 0,
        ;
        assert(false);
    }
    lemma_shown(p, p.video_tracks.len() as int, pts, track, clip)
}

/// A whole number of the 32-bit format as so many halves.
proof fn lemma_whole(i: int)
    requires
        -0x80_0000 < i < 0x80_0000,
    ensures
        num(i) == integer(single(), i),
        num(i) == halves(2 * i),
{
    lemma2_to64();
    law_integers_are_exact(single(), i);
    lemma_halves(i);
}

/// All of the way and half of the way between two whole numbers.
proof fn lemma_between(a: int, b: int)
    requires
        -0x40_0000 < a < 0x40_0000,
        -0x40_0000 < b < 0x40_0000,
    ensures
        between(num(a), num(b), num(1)) == num(b),
        between(num(a), num(b), halves(1)) == halves(a + b),
{
    lemma_whole(a);
    lemma_whole(b);
    lemma_whole(1);
    lemma_whole(b - a);
    let p = pow2(148);
    assert(0 * p == 0) by (nonlinear_arith);
    assert(negated(halves(2 * a)) == (Number::Finite {
        negative: -2 * a < 0 || a == 0,
        units: magnitude(-2 * a) * p,
    }));
    lemma_signed_halves(2 * b, -2 * a, a == 0);
    lemma_halves_alone(2 * b - 2 * a);
    lemma_signed_halves(2 * a, 2 * b - 2 * a, false);
    lemma_half_of(b - a);
    lemma_signed_halves(2 * a, b - a, false);
}

/// All of a stretch of time, and half of it.
proof fn lemma_parts_of_time(h: int)
    requires
        0 < h < 0x10_0000_0000_0000,
    ensures
        narrowed(quotient(double(), time_number(h), time_number(h))) == num(1),
        narrowed(quotient(double(), time_number(h), time_number(2 * h))) == halves(1),
{
    reveal(narrowed);
    reveal(quotient);
    let d = double();
    let (one, p, g) = (pow2(1074), pow2(1073), pow2(925));
    lemma2_to64();
    lemma2_to64_rest();
    lemma_pow2_pos(1073);
    lemma_pow2_pos(925);
    lemma_pow2_adds(1073, 1);
    lemma_pow2_adds(149, 925);
    lemma_pow2_adds(148, 925);
    law_integers_are_exact(d, h);
    law_integers_are_exact(d, 2 * h);
    lemma_over_itself(d, h);
    lemma_whole(1);
    let v = (2 * h) as nat * one;
    let m = h as nat;
    assert(v > 0 && (m * one) * one == (1 * p) * v && 1 * one == one && 1 * p == p)
        by (nonlinear_arith)
        requires
            v == (2 * h) as nat * one,
            m == h,
            h > 0,
            one == p * 2,
            p > 0,
    ;
    lemma_exact(d, false, 1, 1073, v);
    assert((1 * pow2(149)) * g == one && (1 * pow2(148)) * g == p && 1 * pow2(149) == pow2(149) && 1
        * pow2(148) == pow2(148)) by (nonlinear_arith)
        requires
            one == pow2(149) * g,
            p == pow2(148) * g,
    ;
    lemma_exact(single(), false, 1, 149, g);
    lemma_exact(single(), false, 1, 148, g);
}

/// A transform of whole numbers.
pub open spec fn is_whole(t: TransformView, v: (int, int, int, int)) -> bool {
    &&& t == TransformView { x: num(v.0), y: num(v.1), scale: num(v.2), rotate: num(v.3) }
    &&& -0x40_0000 < v.0 < 0x40_0000
    &&& -0x40_0000 < v.1 < 0x40_0000
    &&& -0x40_0000 < v.2 < 0x40_0000
    &&& -0x40_0000 < v.3 < 0x40_0000
}

/// Keyframes follow each other in time.
pub open spec fn in_time(kf: Seq<TransformKeyframe>) -> bool {
    &&& forall|i: int| 0 <= i < kf.len() ==> 0 <= (#[trigger] kf[i]).t_us < 0x10_0000_0000_0000
    &&& forall|i: int, j: int|
        0 <= i < j < kf.len() ==> (#[trigger] kf[i]).t_us < (#[trigger] kf[j]).t_us
}

proof fn lemma_time(t: int)
    requires
        0 <= t < 0x20_0000_0000_0000,
    ensures
        time_number(t) == integer(double(), t),
        time_number(t) != Number::Nan,
{
    lemma2_to64_rest();
    law_integers_are_exact(double(), t);
}

/// The stretch between two keyframes in which a time lies.
proof fn lemma_keyframe_stretch(kf: Seq<TransformKeyframe>, t: int, i: int, j: int, still: TransformView)
    requires
        in_time(kf),
        0 <= i <= j,
        j + 1 < kf.len(),
        0 <= t < 0x10_0000_0000_0000,
        i < j ==> kf[j].t_us < t,
    ensures
        keyframes_from(kf, time_number(t), i, still) == keyframes_from(
            kf,
            time_number(t),
            j,
            still,
        ),
    decreases j - i,
{
    if i < j {
        let (a, b) = (kf[i].t_us as int, kf[i + 1].t_us as int);
        assert(b <= kf[j].t_us) by {
            if i + 1 < j {
                assert(kf[i + 1].t_us < kf[j].t_us);
            }
        }
        lemma_time(t);
        lemma_time(b);
        lemma_integers_in_order(double(), b, t);
        lemma_keyframe_stretch(kf, t, i + 1, j, still);
    }
}

/// Up to the first keyframe a clip has the transform of the first, from the last one on that
/// of the last, and without keyframes its own.
pub proof fn law_keyframes_hold_outside(still: Transform, kf: Seq<TransformKeyframe>, t: int)
    requires
        in_time(kf),
        0 <= t < 0x10_0000_0000_0000,
    ensures
        kf.len() == 0 ==> transform_at(still, kf, t) == still@,
        kf.len() > 0 && t <= kf[0].t_us ==> transform_at(still, kf, t) == kf[0].transform@,
        kf.len() > 0 && t >= kf.last().t_us ==> transform_at(still, kf, t) == kf.last().transform@,
{
    lemma_time(t);
    if kf.len() > 0 {
        let (a, b) = (kf[0].t_us as int, kf.last().t_us as int);
        assert(kf.last() == kf[kf.len() - 1]);
        lemma_time(a);
        lemma_time(b);
        lemma_integers_in_order(double(), a, t);
        lemma_integers_in_order(double(), t, b);
        lemma_integers_in_order(double(), b, t);
        if kf.len() > 1 {
            assert(kf[0].t_us < kf[kf.len() - 1].t_us);
        } else {
            assert(a == b);
        }
    }
}

/// A clip passes its keyframes: at the time of each it has the transform of that keyframe,
/// and halfway to the next one the middle between both. This holds of transforms of whole
/// numbers; `now` and `after` are those of a keyframe and of the next.
pub proof fn law_keyframes_are_passed(
    still: Transform,
    kf: Seq<TransformKeyframe>,
    i: int,
    half: int,
    now: (int, int, int, int),
    after: (int, int, int, int),
)
    requires
        in_time(kf),
        0 <= i,
        i + 1 < kf.len(),
        is_whole(kf[i].transform@, now),
        is_whole(kf[i + 1].transform@, after),
        kf[i].t_us + 2 * half == kf[i + 1].t_us,
    ensures
        transform_at(still, kf, kf[i + 1].t_us as int) == kf[i + 1].transform@,
        transform_at(still, kf, kf[i].t_us + half) == (TransformView {
            x: halves(now.0 + after.0),
            y: halves(now.1 + after.1),
            scale: halves(now.2 + after.2),
            rotate: halves(now.3 + after.3),
        }),
{
    let d = double();
    let (a, b) = (kf[i].t_us as int, kf[i + 1].t_us as int);
    let mid = a + half;
    let (first, last) = (kf[0].t_us as int, kf.last().t_us as int);
    assert(a < b);
    assert(kf.last() == kf[kf.len() - 1]);
    assert(first <= a) by {
        if 0 < i {
            assert(kf[0].t_us < kf[i].t_us);
        }
    }
    assert(b <= last) by {
        if i + 1 < kf.len() - 1 {
            assert(kf[i + 1].t_us < kf[kf.len() - 1].t_us);
        }
    }
    lemma_time(a);
    lemma_time(b);
    lemma_time(mid);
    lemma_time(first);
    lemma_time(last);
    lemma_time(b - a);
    lemma_time(half);
    lemma_integers_in_order(d, first, b);
    lemma_integers_in_order(d, first, mid);
    lemma_integers_in_order(d, b, last);
    lemma_integers_in_order(d, mid, last);
    lemma_integers_in_order(d, b, a);
    lemma_integers_in_order(d, b, b);
    lemma_integers_in_order(d, mid, a);
    lemma_integers_in_order(d, b, mid);
    lemma_whole_difference(b, a);
    lemma_whole_difference(mid, a);
    lemma_parts_of_time(b - a);
    lemma_parts_of_time(half);
    lemma_between(now.0, after.0);
    lemma_between(now.1, after.1);
    lemma_between(now.2, after.2);
    lemma_between(now.3, after.3);
    lemma_keyframe_stretch(kf, b, 0, i, still@);
    lemma_keyframe_stretch(kf, mid, 0, i, still@);
    assert(keyframe_between(kf[i], kf[i + 1], time_number(b)) == kf[i + 1].transform@);
}

/// Two layers of two projects show the same: the same place of the same asset, in the same
/// way.
pub open spec fn shows_same(p: ProjectView, l: LayerView, q: ProjectView, m: LayerView) -> bool {
    let (c, d) = (p.video_tracks[l.track].clips[l.clip], q.video_tracks[m.track].clips[m.clip]);
    &&& l.track == m.track
    &&& l.source_pts == m.source_pts
    &&& l.alpha == m.alpha
    &&& l.transform == m.transform
    &&& c.asset == d.asset
    &&& c.grade == d.grade
    &&& c.flip_x == d.flip_x
    &&& c.flip_y == d.flip_y
    &&& c.crop == d.crop
    &&& c.blend == d.blend
}

/// The layers of two projects show the same.
pub open spec fn show_same(p: ProjectView, a: Seq<LayerView>, q: ProjectView, b: Seq<LayerView>) -> bool {
    &&& a.len() == b.len()
    &&& forall|k: int|
        #![trigger a[k]]
        #![trigger b[k]]
        0 <= k < a.len() ==> shows_same(p, a[k], q, b[k])
}

proof fn lemma_no_fades(clips: Seq<VideoClipView>, i: int, pts: int)
    requires
        0 <= i < clips.len(),
        forall|j: int| 0 <= j < clips.len() ==> (#[trigger] clips[j]).transition_us <= 0,
    ensures
        clip_alpha(clips, i, pts) == clips[i].opacity@,
{
    lemma2_to64();
    law_integers_are_exact(single(), 0);
    lemma_integers_in_order(single(), 0, 0);
    assert(0 * pow2(149) == 0) by (nonlinear_arith);
    assert(clips[i].transition_us <= 0);
    if i + 1 < clips.len() {
        assert(clips[i + 1].transition_us <= 0);
    }
}

/// A clip can be split without a trace: at normal speed, without keyframes, on a track without
/// transitions.
pub open spec fn splits_plainly(p: ProjectView, track: int, clip: int, at: i64) -> bool {
    &&& 0 <= track < p.video_tracks.len()
    &&& 0 <= clip < p.video_tracks[track].clips.len()
    &&& ({
        let c = p.video_tracks[track].clips[clip];
        &&& c.speed.bits == ONE_BITS
        &&& c.keyframes.len() == 0
        &&& c.timeline_start < at < c.timeline_start + (c.source_out - c.source_in)
        &&& c.source_out - c.source_in < 0x20_0000_0000_0000
    })
    &&& forall|j: int|
        0 <= j < p.video_tracks[track].clips.len() ==> (
        #[trigger] p.video_tracks[track].clips[j]).transition_us <= 0
}

proof fn lemma_split_elsewhere(p: ProjectView, q: ProjectView, t: int, n: int, pts: int)
    requires
        q.assets == p.assets,
        q.video_tracks[t] == p.video_tracks[t],
        0 <= t < p.video_tracks.len(),
        0 <= n <= p.video_tracks[t].clips.len(),
    ensures
        track_layers(q, t, n, pts) == track_layers(p, t, n, pts),
        forall|k: int|
            0 <= k < track_layers(p, t, n, pts).len() ==> (#[trigger] track_layers(p, t, n, pts)[k]).track
                == t,
    decreases n,
{
    if n > 0 {
        lemma_split_elsewhere(p, q, t, n - 1, pts);
        assert(is_layer(p, t, n - 1, pts) == is_layer(q, t, n - 1, pts));
        assert(layer_of(p, t, n - 1, pts) == layer_of(q, t, n - 1, pts));
    }
}

proof fn lemma_split_track(p: ProjectView, track: int, clip: int, at: i64, n: int, pts: int)
    requires
        splits_plainly(p, track, clip, at),
        0 <= n <= p.video_tracks[track].clips.len(),
    ensures
        ({
            let q = split_at(p, Lane::Video, track, clip, at);
            show_same(
                p,
                track_layers(p, track, n, pts),
                q,
                track_layers(q, track, if n <= clip { n } else { n + 1 }, pts),
            )
        }),
    decreases n,
{
    let q = split_at(p, Lane::Video, track, clip, at);
    let (a, b) = (p.video_tracks[track].clips, q.video_tracks[track].clips);
    let c = a[clip];
    assert forall|j: int| 0 <= j < b.len() implies (#[trigger] b[j]).transition_us <= 0 by {
        if j < clip {
            assert(b[j] == a[j]);
        } else if j > clip + 1 {
            assert(b[j] == a[j - 1]);
        } else {
            assert(a[clip].transition_us <= 0);
        }
    }
    assert forall|j: int| 0 <= j < a.len() implies (#[trigger] a[j]).transition_us <= 0 by {}
    if n > 0 {
        lemma_split_track(p, track, clip, at, n - 1, pts);
        let i = n - 1;
        lemma_no_fades(a, i, pts);
        if i < clip {
            lemma_no_fades(b, i, pts);
            assert(b[i] == a[i]);
            assert(is_layer(p, track, i, pts) == is_layer(q, track, i, pts));
        } else if i > clip {
            lemma_no_fades(b, i + 1, pts);
            assert(b[i + 1] == a[i]);
            assert(is_layer(p, track, i, pts) == is_layer(q, track, i + 1, pts));
        } else {
            let (first, second) = (b[clip], b[clip + 1]);
            let one = Float32 { bits: ONE_BITS };
            lemma_no_fades(b, clip, pts);
            lemma_no_fades(b, clip + 1, pts);
            assert(c.speed == one);
            let src = first.source_out;
            law_normal_speed(c.source_in, c.source_out, 0);
            law_normal_speed(c.source_in, src, 0);
            law_normal_speed(src, c.source_out, 0);
            assert(first.length() == at - c.timeline_start);
            assert(second.timeline_start + second.length() == c.timeline_start + c.length());
            if c.timeline_start <= pts < c.timeline_start + c.length() {
                law_normal_speed(0, 0, (pts - c.timeline_start) as i64);
                if pts >= at {
                    law_normal_speed(0, 0, (pts - at) as i64);
                }
            }
            assert(is_layer(p, track, clip, pts) == (is_layer(q, track, clip, pts) || is_layer(
                q,
                track,
                clip + 1,
                pts,
            )));
            assert(!(is_layer(q, track, clip, pts) && is_layer(q, track, clip + 1, pts)));
            reveal_with_fuel(track_layers, 3);
        }
    }
}

proof fn lemma_split_layers(p: ProjectView, track: int, clip: int, at: i64, n: int, pts: int)
    requires
        splits_plainly(p, track, clip, at),
        0 <= n <= p.video_tracks.len(),
    ensures
        ({
            let q = split_at(p, Lane::Video, track, clip, at);
            show_same(p, layers_upto(p, n, pts), q, layers_upto(q, n, pts))
        }),
    decreases n,
{
    let q = split_at(p, Lane::Video, track, clip, at);
    if n > 0 {
        let t = n - 1;
        lemma_split_layers(p, track, clip, at, t, pts);
        let m = p.video_tracks[t].clips.len() as int;
        let (x, y) = (
            track_layers(p, t, m, pts),
            track_layers(q, t, q.video_tracks[t].clips.len() as int, pts),
        );
        if t == track {
            lemma_split_track(p, track, clip, at, m, pts);
        } else {
            lemma_split_elsewhere(p, q, t, m, pts);
        }
        assert(show_same(p, x, q, y));
        let (a, b) = (layers_upto(p, t, pts), layers_upto(q, t, pts));
        assert forall|k: int| 0 <= k < (a + x).len() implies shows_same(
            p,
            #[trigger] (a + x)[k],
            q,
            (b + y)[k],
        ) by {
            if k < a.len() {
                assert((a + x)[k] == a[k] && (b + y)[k] == b[k]);
            } else {
                assert((a + x)[k] == x[k - a.len()] && (b + y)[k] == y[k - a.len()]);
            }
        }
    }
}

proof fn lemma_same_frames(
    p: ProjectView,
    a: Seq<LayerView>,
    q: ProjectView,
    b: Seq<LayerView>,
    w: int,
    h: int,
    fetched: Seq<Option<VideoFrame>>,
    turns: Seq<(Number, Number)>,
    n: int,
)
    requires
        show_same(p, a, q, b),
        q.assets == p.assets,
        0 <= n <= a.len(),
    ensures
        composed(p, w, h, a, fetched, turns, n) == composed(q, w, h, b, fetched, turns, n),
    decreases n,
{
    if n > 0 {
        lemma_same_frames(p, a, q, b, w, h, fetched, turns, n - 1);
        assert(shows_same(p, a[n - 1], q, b[n - 1]));
    }
}

/// Splitting a clip changes no frame: at every time the layers show the same places of the
/// same assets in the same way as before, and so the frame is the same, byte for byte. This
/// holds of clips at normal speed without keyframes on tracks without transitions.
pub proof fn law_splitting_changes_no_frame(
    p: ProjectView,
    track: int,
    clip: int,
    at: i64,
    pts: int,
    w: int,
    h: int,
    fetched: Seq<Option<VideoFrame>>,
    turns: Seq<(Number, Number)>,
)
    requires
        splits_plainly(p, track, clip, at),
    ensures
        ({
            let q = split_at(p, Lane::Video, track, clip, at);
            let (a, b) = (layers_at(p, pts), layers_at(q, pts));
            &&& show_same(p, a, q, b)
            &&& composed(p, w, h, a, fetched, turns, a.len() as int) == composed(
                q,
                w,
                h,
                b,
                fetched,
                turns,
                b.len() as int,
            )
        }),
{
    let q = split_at(p, Lane::Video, track, clip, at);
    let (a, b) = (layers_at(p, pts), layers_at(q, pts));
    lemma_split_layers(p, track, clip, at, p.video_tracks.len() as int, pts);
    lemma_same_frames(p, a, q, b, w, h, fetched, turns, a.len() as int);
}

} // verus!
