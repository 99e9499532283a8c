//! The geometry of the timeline: time and pixels, zoom and scroll, the boxes of the
//! clips, and what is under the pointer.

use crate::edit::{not_below_zero, Lane};
use crate::exact::{
    holds, integer, law_integer_products_are_exact, law_integer_sums_are_exact,
    law_integers_are_exact, law_integers_come_back, lemma_exact, lemma_exact_quotient,
    lemma_integers_in_order, lemma_plus_zero, zero_with,
};
use crate::float::{
    absolute, clamp_number, difference, larger, less, negated, no_more, of_integer, product, quotient, same, single,
    smaller, sum, to_integer, Float32, Number, Toward,
};
use crate::pixel::{n32, num};
use crate::project::{Clip, Placed, Project, ProjectView};
use crate::timeline::{offset_in_source, source_offset, views, AudioClip, Track, TrackView, SECOND_US};
use vstd::arithmetic::power2::{lemma2_to64, lemma_pow2_adds, lemma_pow2_pos, pow2};
use vstd::prelude::*;

verus! {

/// A stretch of time as pixels at a zoom in pixels per second.
pub open spec fn pixels_of(t: int, zoom: Number) -> Number {
    product(single(), quotient(single(), num(t), num(SECOND_US as int)), zoom)
}

/// A stretch of pixels as time at a zoom.
pub open spec fn time_of(px: Number, zoom: Number) -> int {
    to_integer(
        single(),
        Toward::Zero,
        product(single(), quotient(single(), px, zoom), num(SECOND_US as int)),
        i64::MIN as int,
        i64::MAX as int,
    )
}

/// What of the timeline is in view.
pub struct ViewSpec {
    /// Where the lanes begin, and how wide they are.
    pub left: Number,
    pub width: Number,
    /// Pixels per second.
    pub zoom: Number,
    pub scroll_us: int,
    pub duration_us: int,
}

impl ViewSpec {
    /// How wide all of the timeline is.
    pub open spec fn total(self) -> Number {
        pixels_of(self.duration_us, self.zoom)
    }

    /// How far it can be scrolled.
    pub open spec fn max_scroll(self) -> Number {
        larger(difference(single(), self.total(), self.width), num(0))
    }

    /// How far it is scrolled.
    pub open spec fn scroll_px(self) -> Number {
        clamp_number(pixels_of(self.scroll_us, self.zoom), num(0), self.max_scroll())
    }

    /// Where a time is on the screen.
    pub open spec fn x_of(self, t: int) -> Number {
        difference(
            single(),
            sum(single(), self.left, pixels_of(t, self.zoom)),
            self.scroll_px(),
        )
    }

    /// The time at a place on the screen.
    pub open spec fn t_of(self, x: Number) -> int {
        time_of(
            sum(single(), difference(single(), x, self.left), self.scroll_px()),
            self.zoom,
        )
    }
}

/// What of the timeline is in view.
#[derive(Clone, Copy, Debug)]
pub struct TimelineView {
    pub left: Float32,
    pub width: Float32,
    pub zoom: Float32,
    pub scroll_us: i64,
    pub duration_us: i64,
}

impl View for TimelineView {
    type V = ViewSpec;

    open spec fn view(&self) -> ViewSpec {
        ViewSpec {
            left: self.left@,
            width: self.width@,
            zoom: self.zoom@,
            scroll_us: self.scroll_us as int,
            duration_us: self.duration_us as int,
        }
    }
}

fn to_pixels(t: i64, zoom: Float32) -> (r: Float32)
    ensures
        r@ == pixels_of(t as int, zoom@),
{
    n32(t).over(n32(SECOND_US)).times(zoom)
}

fn to_time(px: Float32, zoom: Float32) -> (r: i64)
    ensures
        r == time_of(px@, zoom@),
{
    px.over(zoom).times(n32(SECOND_US)).to_i64(Toward::Zero)
}

/// The limits of the zoom.
pub open spec fn zoom_held(z: Number) -> Number {
    clamp_number(z, num(4), num(3000))
}

/// The zoom one step out.
pub open spec fn zoomed_out(z: Number) -> Number {
    larger(product(single(), z, (Float32 { bits: 0x3f59_999a })@), num(4))
}

/// The zoom one step in.
pub open spec fn zoomed_in(z: Number) -> Number {
    smaller(product(single(), z, (Float32 { bits: 0x3f97_0a3d })@), num(3000))
}

/// The zoom at which a duration fills a width.
pub open spec fn zoom_fitted(width: Number, duration: int) -> Number {
    zoom_held(
        quotient(
            single(),
            product(
                single(),
                larger(difference(single(), width, num(190)), num(100)),
                num(SECOND_US as int),
            ),
            num(duration),
        ),
    )
}

pub fn zoom_out(z: Float32) -> (r: Float32)
    ensures
        r@ == zoomed_out(z@),
{
    z.times(Float32 { bits: 0x3f59_999a }).maximum(n32(4))
}

pub fn zoom_in(z: Float32) -> (r: Float32)
    ensures
        r@ == zoomed_in(z@),
{
    z.times(Float32 { bits: 0x3f97_0a3d }).minimum(n32(3000))
}

/// The zoom at which a duration fills the width that is there.
pub fn zoom_fit(width: Float32, duration_us: i64) -> (r: Float32)
    ensures
        r@ == zoom_fitted(width@, duration_us as int),
{
    width.minus(n32(190)).maximum(n32(100)).times(n32(SECOND_US)).over(n32(duration_us)).clamped(
        n32(4),
        n32(3000),
    )
}

/// The zoom after a turn of the wheel.
pub open spec fn wheel_zoom(z: Number, wheel: Number) -> Number {
    zoom_held(
        product(
            single(),
            z,
            sum(single(), num(1), product(single(), wheel, (Float32 { bits: 0x3d75_c28f })@)),
        ),
    )
}

/// The scroll that goes with a zoom by the wheel at a place on the screen: the time there
/// stays there, as far as the timeline can be scrolled.
pub open spec fn wheel_zoom_scroll(v: ViewSpec, x: Number, nz: Number) -> int {
    let to = difference(
        single(),
        pixels_of(v.t_of(x), nz),
        difference(single(), x, v.left),
    );
    let most = larger(difference(single(), pixels_of(v.duration_us, nz), v.width), num(0));
    time_of(smaller(larger(to, num(0)), most), nz)
}

/// The scroll after a turn of the wheel.
pub open spec fn wheel_scroll(v: ViewSpec, wheel: Number) -> int {
    let by = product(
        single(),
        product(single(), product(single(), wheel, num(60)), v.zoom),
        (Float32 { bits: 0x3d4c_cccd })@,
    );
    to_integer(
        single(),
        Toward::Zero,
        larger(sum(single(), num(v.scroll_us), by), num(0)),
        i64::MIN as int,
        i64::MAX as int,
    )
}

/// The scroll after a click on the overview, `x` of its width from its left edge.
pub open spec fn overview_scroll(v: ViewSpec, x: Number, width: Number) -> int {
    let part = clamp_number(quotient(single(), x, width), num(0), num(1));
    let at = to_integer(
        single(),
        Toward::Zero,
        product(single(), part, num(v.duration_us)),
        i64::MIN as int,
        i64::MAX as int,
    );
    let seconds = to_integer(
        single(),
        Toward::Zero,
        quotient(single(), v.width, v.zoom),
        i64::MIN as int,
        i64::MAX as int,
    );
    let half = if seconds < 0 {
        -((-seconds) / 2)
    } else {
        seconds / 2
    };
    to_integer(
        single(),
        Toward::Zero,
        smaller(num(time_saturated(at - half)), v.max_scroll()),
        i64::MIN as int,
        i64::MAX as int,
    )
}

/// A time not before zero, within what a time can hold.
pub open spec fn time_saturated(t: int) -> int {
    if t > i64::MAX {
        i64::MAX as int
    } else {
        not_below_zero(t)
    }
}

/// The time between two marks of the ruler: the least that is at least seventy pixels
/// wide, or ten seconds.
pub open spec fn tick_length(zoom: Number) -> int {
    let wide = |quarters: int|
        no_more(
            num(70),
            product(single(), quotient(single(), num(quarters), num(4)), zoom),
        );
    if wide(1) {
        250_000
    } else if wide(2) {
        500_000
    } else if wide(4) {
        1_000_000
    } else if wide(8) {
        2_000_000
    } else if wide(20) {
        5_000_000
    } else if wide(40) {
        10_000_000
    } else if wide(120) {
        30_000_000
    } else if wide(240) {
        60_000_000
    } else {
        10_000_000
    }
}

fn wide_enough(quarters: i64, zoom: Float32) -> (r: bool)
    ensures
        r == no_more(
            num(70),
            product(single(), quotient(single(), num(quarters as int), num(4)), zoom@),
        ),
{
    n32(70).at_most(n32(quarters).over(n32(4)).times(zoom))
}

/// The time between two marks of the ruler.
pub fn tick_us(zoom: Float32) -> (r: i64)
    ensures
        r == tick_length(zoom@),
        r > 0,
{
    if wide_enough(1, zoom) {
        250_000
    } else if wide_enough(2, zoom) {
        500_000
    } else if wide_enough(4, zoom) {
        1_000_000
    } else if wide_enough(8, zoom) {
        2_000_000
    } else if wide_enough(20, zoom) {
        5_000_000
    } else if wide_enough(40, zoom) {
        10_000_000
    } else if wide_enough(120, zoom) {
        30_000_000
    } else if wide_enough(240, zoom) {
        60_000_000
    } else {
        10_000_000
    }
}

impl TimelineView {
    /// How wide all of the timeline is.
    pub fn total_px(&self) -> (r: Float32)
        ensures
            r@ == self@.total(),
    {
        to_pixels(self.duration_us, self.zoom)
    }

    /// How far the timeline can be scrolled.
    pub fn max_scroll(&self) -> (r: Float32)
        ensures
            r@ == self@.max_scroll(),
    {
        self.total_px().minus(self.width).maximum(n32(0))
    }

    /// How far the timeline is scrolled.
    pub fn scroll_px(&self) -> (r: Float32)
        ensures
            r@ == self@.scroll_px(),
    {
        to_pixels(self.scroll_us, self.zoom).clamped(n32(0), self.max_scroll())
    }

    /// Where a time is on the screen.
    pub fn x_for(&self, t: i64) -> (r: Float32)
        ensures
            r@ == self@.x_of(t as int),
    {
        self.left.plus(to_pixels(t, self.zoom)).minus(self.scroll_px())
    }

    /// The time at a place on the screen.
    pub fn t_for(&self, x: Float32) -> (r: i64)
        ensures
            r == self@.t_of(x@),
    {
        to_time(x.minus(self.left).plus(self.scroll_px()), self.zoom)
    }

    /// The zoom and scroll after a turn of the wheel at `x`, as a zoom that keeps the
    /// time under the pointer, or as a scroll.
    pub fn wheel(&self, x: Float32, wheel: Float32, zooms: bool) -> (r: (Float32, i64))
        ensures
            if same(wheel@, num(0)) {
                r == (self.zoom, self.scroll_us)
            } else if zooms {
                r.0@ == wheel_zoom(self.zoom@, wheel@) && r.1 == wheel_zoom_scroll(
                    self@,
                    x@,
                    wheel_zoom(self.zoom@, wheel@),
                )
            } else {
                r.0 == self.zoom && r.1 == wheel_scroll(self@, wheel@)
            },
    {
        if wheel.equals(n32(0)) {
            return (self.zoom, self.scroll_us);
        }
        if zooms {
            let at: i64 = self.t_for(x);
            let nz: Float32 = self.zoom.times(
                n32(1).plus(wheel.times(Float32 { bits: 0x3d75_c28f })),
            ).clamped(n32(4), n32(3000));
            let to: Float32 = to_pixels(at, nz).minus(x.minus(self.left));
            let most: Float32 = to_pixels(self.duration_us, nz).minus(self.width).maximum(n32(0));
            (nz, to_time(to.maximum(n32(0)).minimum(most), nz))
        } else {
            let by: Float32 = wheel.times(n32(60)).times(self.zoom).times(
                Float32 { bits: 0x3d4c_cccd },
            );
            (self.zoom, n32(self.scroll_us).plus(by).maximum(n32(0)).to_i64(Toward::Zero))
        }
    }

    /// The scroll after a click on the overview.
    pub fn jump(&self, x: Float32, width: Float32) -> (r: i64)
        ensures
            r == overview_scroll(self@, x@, width@),
    {
        let at: i64 = x.over(width).clamped(n32(0), n32(1)).times(n32(self.duration_us)).to_i64(
            Toward::Zero,
        );
        let seconds: i64 = self.width.over(self.zoom).to_i64(Toward::Zero);
        let half: i128 = if seconds < 0 {
            -((-(seconds as i128)) / 2)
        } else {
            seconds as i128 / 2
        };
        let target: i128 = at as i128 - half;
        let t: i64 = if target > i64::MAX as i128 {
            i64::MAX
        } else if target > 0 {
            target as i64
        } else {
            0
        };
        n32(t).minimum(self.max_scroll()).to_i64(Toward::Zero)
    }
}

/// The multiples of `step` from `t` on that are no later than `last`.
pub open spec fn ticks_from(t: int, last: int, step: int) -> Seq<i64>
    decreases last - t + step,
{
    if step <= 0 || t > last {
        Seq::empty()
    } else {
        seq![t as i64] + ticks_from(t + step, last, step)
    }
}

/// The marks of the ruler between two places on the screen.
pub open spec fn ruler_ticks(v: ViewSpec, left: Number, right: Number) -> Seq<i64> {
    let step = tick_length(v.zoom);
    let first = not_below_zero(v.t_of(difference(single(), left, num(1))));
    ticks_from(first / step * step, v.t_of(right), step)
}

/// Where a stretch of time is on the overview, and how wide: at least one and a half
/// pixels.
pub open spec fn overview_stretch(
    v: ViewSpec,
    start: int,
    length: int,
    left: Number,
    width: Number,
) -> (Number, Number) {
    (
        overview_place(v, start, left, width),
        larger(
            product(single(), quotient(single(), num(length), num(v.duration_us)), width),
            (Float32 { bits: 0x3fc0_0000 })@,
        ),
    )
}

/// Where a time is on the overview.
pub open spec fn overview_place(v: ViewSpec, t: int, left: Number, width: Number) -> Number {
    sum(
        single(),
        left,
        product(single(), quotient(single(), num(t), num(v.duration_us)), width),
    )
}

/// What of the overview is in view: where it begins, and how wide it is.
pub open spec fn overview_frame(v: ViewSpec, left: Number, width: Number) -> (Number, Number) {
    (
        overview_place(v, v.scroll_us, left, width),
        smaller(
            product(single(), quotient(single(), v.width, larger(v.total(), num(1))), width),
            width,
        ),
    )
}

impl TimelineView {
    /// The marks of the ruler between two places on the screen.
    pub fn ticks(&self, left: Float32, right: Float32) -> (r: Vec<i64>)
        ensures
            r@ == ruler_ticks(self@, left@, right@),
    {
        let step: i64 = tick_us(self.zoom);
        let from: i64 = self.t_for(left.minus(n32(1)));
        let first: i64 = if from > 0 {
            from
        } else {
            0
        };
        let last: i64 = self.t_for(right);
        let start: i64 = first - first % step;
        proof {
            assert(first / step * step == first - first % step) by (nonlinear_arith)
                requires
                    first >= 0,
                    step > 0,
            ;
        }
        let ghost all = ticks_from(start as int, last as int, step as int);
        let mut r: Vec<i64> = Vec::new();
        let mut t: i128 = start as i128;
        assert(r@ + all =~= all);
        while t <= last as i128
            invariant
                step > 0,
                0 <= t <= i64::MAX + step,
                r@ + ticks_from(t as int, last as int, step as int) == all,
            decreases last - t + step,
        {
            let ghost held = r@;
            let ghost rest = ticks_from(t + step, last as int, step as int);
            r.push(t as i64);
            proof {
                assert(r@ + rest =~= held + (seq![t as i64] + rest));
            }
            t = t + step as i128;
        }
        assert(r@ + Seq::empty() =~= r@);
        r
    }

    fn on_overview(&self, t: i64, left: Float32, width: Float32) -> (r: Float32)
        ensures
            r@ == overview_place(self@, t as int, left@, width@),
    {
        left.plus(n32(t).over(n32(self.duration_us)).times(width))
    }

    /// Where a clip is on the overview, and how wide.
    pub fn overview_bar(&self, start: i64, length: i64, left: Float32, width: Float32) -> (r: (
        Float32,
        Float32,
    ))
        ensures
            (r.0@, r.1@) == overview_stretch(
                self@,
                start as int,
                length as int,
                left@,
                width@,
            ),
    {
        (
            self.on_overview(start, left, width),
            n32(length).over(n32(self.duration_us)).times(width).maximum(
                Float32 { bits: 0x3fc0_0000 },
            ),
        )
    }

    /// What of the overview is in view.
    pub fn overview_window(&self, left: Float32, width: Float32) -> (r: (Float32, Float32))
        ensures
            (r.0@, r.1@) == overview_frame(self@, left@, width@),
    {
        (
            self.on_overview(self.scroll_us, left, width),
            self.width.over(self.total_px().maximum(n32(1))).times(width).minimum(width),
        )
    }
}

/// A clip shows its speed: it is not the normal one.
pub open spec fn speed_shows(speed: Number) -> bool {
    less(
        (Float32 { bits: 0x3a83_126f })@,
        absolute(difference(single(), speed, num(1))),
    )
}

/// Whether a clip shows its speed.
pub fn shows_speed(speed: Float32) -> (r: bool)
    ensures
        r == speed_shows(speed@),
{
    (Float32 { bits: 0x3a83_126f }).less_than(speed.minus(n32(1)).magnitude())
}

/// How far into a clip the place `x` of its box is, in time.
pub open spec fn time_in_box(x: Number, left: Number, width: Number, length: int) -> int {
    to_integer(
        single(),
        Toward::Zero,
        product(
            single(),
            quotient(single(), difference(single(), x, left), width),
            num(length),
        ),
        i64::MIN as int,
        i64::MAX as int,
    )
}

/// The source time of a clip at the place `x` of its box, which is `width` wide from
/// `left` on; `None` where it is beyond what a time can hold.
pub fn source_under(c: &AudioClip, x: Float32, left: Float32, width: Float32) -> (r: Option<i64>)
    ensures
        ({
            let local = time_in_box(x@, left@, width@, c@.length() as int);
            let at = c.source_in + source_offset(local as i64, c.speed);
            match r {
                Some(t) => t == at,
                None => !(i64::MIN <= at <= i64::MAX),
            }
        }),
{
    let length: i64 = c.on_timeline_us();
    let local: i64 = x.minus(left).over(width).times(n32(length)).to_i64(Toward::Zero);
    c.source_in.checked_add(offset_in_source(local, c.speed))
}

/// A box on the screen by its values.
pub struct AreaView {
    pub min_x: Number,
    pub min_y: Number,
    pub max_x: Number,
    pub max_y: Number,
}

impl AreaView {
    /// The place lies in the box, edges and all.
    pub open spec fn contains(self, x: Number, y: Number) -> bool {
        no_more(self.min_x, x) && no_more(x, self.max_x) && no_more(self.min_y, y) && no_more(
            y,
            self.max_y,
        )
    }
}

/// A box on the screen.
#[derive(Clone, Copy, Debug)]
pub struct Area {
    pub min_x: Float32,
    pub min_y: Float32,
    pub max_x: Float32,
    pub max_y: Float32,
}

impl View for Area {
    type V = AreaView;

    open spec fn view(&self) -> AreaView {
        AreaView {
            min_x: self.min_x@,
            min_y: self.min_y@,
            max_x: self.max_x@,
            max_y: self.max_y@,
        }
    }
}

impl Area {
    /// Whether the place lies in the box.
    pub fn contains(&self, x: Float32, y: Float32) -> (r: bool)
        ensures
            r == self@.contains(x@, y@),
    {
        self.min_x.at_most(x) && x.at_most(self.max_x) && self.min_y.at_most(y) && y.at_most(
            self.max_y,
        )
    }
}

/// The top of a row of lanes, below the overview and the ruler.
pub open spec fn row_top(top: Number, row: int) -> Number {
    sum(
        single(),
        sum(single(), sum(single(), top, num(16)), num(20)),
        product(single(), num(row), num(38)),
    )
}

/// The box of a clip on a row.
pub open spec fn clip_area(v: ViewSpec, top: Number, row: int, start: int, length: int) -> AreaView {
    let x = v.x_of(start);
    let y = row_top(top, row);
    AreaView {
        min_x: sum(single(), x, num(1)),
        min_y: sum(single(), y, num(3)),
        max_x: difference(single(), sum(single(), x, pixels_of(length, v.zoom)), num(1)),
        max_y: difference(single(), sum(single(), y, num(38)), num(7)),
    }
}

/// A clip is in view: it does not end left of the lanes or begin right of them.
pub open spec fn in_view(v: ViewSpec, right: Number, start: int, length: int) -> bool {
    let x = v.x_of(start);
    !less(sum(single(), x, pixels_of(length, v.zoom)), v.left) && !less(right, x)
}

/// A clip on the screen by its values.
pub struct ClipBoxView {
    pub lane: Lane,
    pub track: int,
    pub clip: int,
    pub area: AreaView,
    pub start: int,
    pub length: int,
}

/// A clip on the screen.
#[derive(Clone, Copy, Debug)]
pub struct ClipBox {
    pub lane: Lane,
    pub track: usize,
    pub clip: usize,
    pub area: Area,
    pub start: i64,
    pub length: i64,
}

impl View for ClipBox {
    type V = ClipBoxView;

    open spec fn view(&self) -> ClipBoxView {
        ClipBoxView {
            lane: self.lane,
            track: self.track as int,
            clip: self.clip as int,
            area: self.area@,
            start: self.start as int,
            length: self.length as int,
        }
    }
}

/// Where the timeline is on the screen.
#[derive(Clone, Copy, Debug)]
pub struct Frame {
    /// The top edge and the right one.
    pub top: Float32,
    pub right: Float32,
}

/// The boxes of the first `n` clips of a track that are in view.
pub open spec fn track_boxes<V: Placed>(
    v: ViewSpec,
    f: Frame,
    lane: Lane,
    clips: Seq<V>,
    track: int,
    row: int,
    n: int,
) -> Seq<ClipBoxView>
    decreases n,
{
    if n <= 0 {
        Seq::empty()
    } else {
        let before = track_boxes(v, f, lane, clips, track, row, n - 1);
        let c = clips[n - 1];
        let length = c.finish() - c.start();
        if in_view(v, f.right@, c.start(), length) {
            before.push(
                ClipBoxView {
                    lane,
                    track,
                    clip: n - 1,
                    area: clip_area(v, f.top@, row, c.start(), length),
                    start: c.start(),
                    length,
                },
            )
        } else {
            before
        }
    }
}

/// The boxes of the clips of the first `n` tracks of a lane, whose rows begin at
/// `first`.
pub open spec fn lane_boxes<V: Placed>(
    v: ViewSpec,
    f: Frame,
    lane: Lane,
    tracks: Seq<TrackView<V>>,
    first: int,
    n: int,
) -> Seq<ClipBoxView>
    decreases n,
{
    if n <= 0 {
        Seq::empty()
    } else {
        lane_boxes(v, f, lane, tracks, first, n - 1) + track_boxes(
            v,
            f,
            lane,
            tracks[n - 1].clips,
            n - 1,
            first + (n - 1),
            tracks[n - 1].clips.len() as int,
        )
    }
}

/// A lane has at least one row.
pub open spec fn rows(n: int) -> int {
    if n > 1 {
        n
    } else {
        1
    }
}

/// The boxes of all clips in view: video, audio, text.
pub open spec fn all_boxes(v: ViewSpec, f: Frame, p: ProjectView) -> Seq<ClipBoxView> {
    let a = rows(p.video_tracks.len() as int);
    let x = a + rows(p.audio_tracks.len() as int);
    lane_boxes(v, f, Lane::Video, p.video_tracks, 0, p.video_tracks.len() as int) + lane_boxes(
        v,
        f,
        Lane::Audio,
        p.audio_tracks,
        a,
        p.audio_tracks.len() as int,
    ) + lane_boxes(v, f, Lane::Text, p.text_tracks, x, p.text_tracks.len() as int)
}

/// The lengths of all clips can be computed.
pub open spec fn all_measurable<V: Placed>(tracks: Seq<TrackView<V>>) -> bool {
    forall|i: int, j: int|
        0 <= i < tracks.len() && 0 <= j < tracks[i].clips.len() ==> (
        #[trigger] tracks[i].clips[j]).measurable()
}

fn top_of_row(top: Float32, row: u64) -> (r: Float32)
    ensures
        r@ == row_top(top@, row as int),
{
    top.plus(n32(16)).plus(n32(20)).plus(Float32::from_u64(row).times(n32(38)))
}

fn push_boxes<C: Clip>(
    v: &TimelineView,
    f: &Frame,
    lane: Lane,
    tracks: &Vec<Track<C>>,
    first: u64,
    out: &mut Vec<ClipBox>,
) where C::V: Placed
    requires
        all_measurable(views(tracks@)),
        first + tracks.len() <= u64::MAX,
    ensures
        views(final(out)@) == views(old(out)@) + lane_boxes(
            v@,
            *f,
            lane,
            views(tracks@),
            first as int,
            tracks.len() as int,
        ),
{
    let ghost vs = views(tracks@);
    let ghost start = views(out@);
    let mut i: usize = 0;
    assert(views(out@) =~= start + lane_boxes(v@, *f, lane, vs, first as int, 0));
    while i < tracks.len()
        invariant
            i <= tracks.len(),
            vs == views(tracks@),
            all_measurable(vs),
            first + tracks.len() <= u64::MAX,
            views(out@) == start + lane_boxes(v@, *f, lane, vs, first as int, i as int),
        decreases tracks.len() - i,
    {
        let clips: &Vec<C> = &tracks[i].clips;
        let row: u64 = first + i as u64;
        let ghost cs = vs[i as int].clips;
        let ghost below = views(out@);
        let mut j: usize = 0;
        assert(below =~= below + track_boxes(v@, *f, lane, cs, i as int, row as int, 0));
        while j < clips.len()
            invariant
                i < tracks.len(),
                j <= clips.len(),
                vs == views(tracks@),
                cs == vs[i as int].clips,
                cs == views(clips@),
                all_measurable(vs),
                row == first + i,
                views(out@) == below + track_boxes(
                    v@,
                    *f,
                    lane,
                    cs,
                    i as int,
                    row as int,
                    j as int,
                ),
            decreases clips.len() - j,
        {
            assert(vs[i as int].clips[j as int].measurable());
            let from: i64 = clips[j].start_us();
            let length: i64 = clips[j].length_us();
            let x: Float32 = v.x_for(from);
            let w: Float32 = to_pixels(length, v.zoom);
            let ghost held = views(out@);
            let ghost before = track_boxes(v@, *f, lane, cs, i as int, row as int, j as int);
            if !x.plus(w).less_than(v.left) && !f.right.less_than(x) {
                let y: Float32 = top_of_row(f.top, row);
                let b: ClipBox = ClipBox {
                    lane,
                    track: i,
                    clip: j,
                    area: Area {
                        min_x: x.plus(n32(1)),
                        min_y: y.plus(n32(3)),
                        max_x: x.plus(w).minus(n32(1)),
                        max_y: y.plus(n32(38)).minus(n32(7)),
                    },
                    start: from,
                    length,
                };
                out.push(b);
                proof {
                    assert(views(out@) =~= held.push(b@));
                    assert(held.push(b@) =~= below + before.push(b@));
                }
            }
            j = j + 1;
        }
        proof {
            assert(views(out@) =~= start + lane_boxes(v@, *f, lane, vs, first as int, i + 1));
        }
        i = i + 1;
    }
}

/// The boxes of all clips in view; `None` where there are more rows than can be
/// counted.
pub fn clip_boxes(v: &TimelineView, f: &Frame, project: &Project) -> (r: Option<Vec<ClipBox>>)
    requires
        all_measurable(project@.text_tracks),
    ensures
        r.is_some() == (rows(project.video_tracks.len() as int) + rows(
            project.audio_tracks.len() as int,
        ) + project.text_tracks.len() <= u64::MAX),
        r.is_some() ==> views(r.unwrap()@) == all_boxes(v@, *f, project@),
{
    let video: u64 = if project.video_tracks.len() > 1 {
        project.video_tracks.len() as u64
    } else {
        1
    };
    let audio: u64 = if project.audio_tracks.len() > 1 {
        project.audio_tracks.len() as u64
    } else {
        1
    };
    let texts: u64 = project.text_tracks.len() as u64;
    let sum: u128 = video as u128 + audio as u128 + texts as u128;
    if sum > u64::MAX as u128 {
        return None;
    }
    let mut out: Vec<ClipBox> = Vec::new();
    let ghost p = project@;
    proof {
        assert(views(out@) =~= Seq::empty());
    }
    push_boxes(v, f, Lane::Video, &project.video_tracks, 0, &mut out);
    push_boxes(v, f, Lane::Audio, &project.audio_tracks, video, &mut out);
    push_boxes(v, f, Lane::Text, &project.text_tracks, video + audio, &mut out);
    proof {
        assert(views(out@) =~= all_boxes(v@, *f, p));
    }
    Some(out)
}

/// A lane on the screen by its values.
pub struct LaneRowView {
    pub lane: Lane,
    pub track: int,
    pub area: AreaView,
}

/// A lane on the screen.
#[derive(Clone, Copy, Debug)]
pub struct LaneRow {
    pub lane: Lane,
    pub track: usize,
    pub area: Area,
}

impl View for LaneRow {
    type V = LaneRowView;

    open spec fn view(&self) -> LaneRowView {
        LaneRowView { lane: self.lane, track: self.track as int, area: self.area@ }
    }
}

/// The area of a row of lanes, with a gap of three pixels below it.
pub open spec fn row_area(left: Number, f: Frame, row: int) -> AreaView {
    let y = row_top(f.top@, row);
    AreaView {
        min_x: left,
        min_y: y,
        max_x: f.right@,
        max_y: difference(single(), sum(single(), y, num(38)), num(3)),
    }
}

/// The rows of `n` tracks of a lane, from row `first` on.
pub open spec fn rows_of_lane(left: Number, f: Frame, lane: Lane, n: int, first: int) -> Seq<
    LaneRowView,
> {
    Seq::new(
        n as nat,
        |i: int| LaneRowView { lane, track: i, area: row_area(left, f, first + i) },
    )
}

/// The rows of all tracks: video, audio, text. A lane without tracks leaves one row free.
pub open spec fn all_rows(left: Number, f: Frame, p: ProjectView) -> Seq<LaneRowView> {
    let a = rows(p.video_tracks.len() as int);
    let x = a + rows(p.audio_tracks.len() as int);
    rows_of_lane(left, f, Lane::Video, p.video_tracks.len() as int, 0) + rows_of_lane(
        left,
        f,
        Lane::Audio,
        p.audio_tracks.len() as int,
        a,
    ) + rows_of_lane(left, f, Lane::Text, p.text_tracks.len() as int, x)
}

fn push_rows(left: Float32, f: &Frame, lane: Lane, n: usize, first: u64, out: &mut Vec<LaneRow>)
    requires
        first + n <= u64::MAX,
    ensures
        views(final(out)@) == views(old(out)@) + rows_of_lane(
            left@,
            *f,
            lane,
            n as int,
            first as int,
        ),
{
    let ghost start = views(out@);
    let ghost all = rows_of_lane(left@, *f, lane, n as int, first as int);
    let mut i: usize = 0;
    assert(views(out@) =~= start + all.take(0));
    while i < n
        invariant
            i <= n,
            first + n <= u64::MAX,
            all == rows_of_lane(left@, *f, lane, n as int, first as int),
            views(out@) == start + all.take(i as int),
        decreases n - i,
    {
        let ghost held = views(out@);
        let y: Float32 = top_of_row(f.top, first + i as u64);
        let r: LaneRow = LaneRow {
            lane,
            track: i,
            area: Area {
                min_x: left,
                min_y: y,
                max_x: f.right,
                max_y: y.plus(n32(38)).minus(n32(3)),
            },
        };
        out.push(r);
        proof {
            assert(r@ == all[i as int]);
            assert(views(out@) =~= held.push(r@));
            assert(all.take(i + 1) =~= all.take(i as int).push(all[i as int]));
            assert(held.push(r@) =~= start + all.take(i + 1));
        }
        i = i + 1;
    }
    assert(all.take(n as int) =~= all);
}

/// The rows of all tracks; `None` where there are more than can be counted.
pub fn lane_rows(v: &TimelineView, f: &Frame, project: &Project) -> (r: Option<Vec<LaneRow>>)
    ensures
        r.is_some() == (rows(project.video_tracks.len() as int) + rows(
            project.audio_tracks.len() as int,
        ) + project.text_tracks.len() <= u64::MAX),
        r.is_some() ==> views(r.unwrap()@) == all_rows(v.left@, *f, project@),
{
    let video: u64 = if project.video_tracks.len() > 1 {
        project.video_tracks.len() as u64
    } else {
        1
    };
    let audio: u64 = if project.audio_tracks.len() > 1 {
        project.audio_tracks.len() as u64
    } else {
        1
    };
    if video as u128 + audio as u128 + project.text_tracks.len() as u128 > u64::MAX as u128 {
        return None;
    }
    let mut out: Vec<LaneRow> = Vec::new();
    proof {
        assert(views(out@) =~= Seq::empty());
    }
    push_rows(v.left, f, Lane::Video, project.video_tracks.len(), 0, &mut out);
    push_rows(v.left, f, Lane::Audio, project.audio_tracks.len(), video, &mut out);
    push_rows(v.left, f, Lane::Text, project.text_tracks.len(), video + audio, &mut out);
    proof {
        assert(views(out@) =~= all_rows(v.left@, *f, project@));
    }
    Some(out)
}

/// The first row under a place, from the `i`th on.
pub open spec fn row_from(rs: Seq<LaneRowView>, x: Number, y: Number, i: int) -> Option<(Lane, int)>
    decreases rs.len() - i,
{
    if i < 0 || i >= rs.len() {
        None
    } else if rs[i].area.contains(x, y) {
        Some((rs[i].lane, rs[i].track))
    } else {
        row_from(rs, x, y, i + 1)
    }
}

/// The lane and track under a place.
pub fn lane_at(rows: &Vec<LaneRow>, x: Float32, y: Float32) -> (r: Option<(Lane, usize)>)
    ensures
        match row_from(views(rows@), x@, y@, 0) {
            Some((lane, track)) => r.is_some() && r.unwrap().0 == lane && r.unwrap().1 == track,
            None => r.is_none(),
        },
{
    let ghost rs = views(rows@);
    let mut i: usize = 0;
    while i < rows.len()
        invariant
            i <= rows.len(),
            rs == views(rows@),
            row_from(rs, x@, y@, 0) == row_from(rs, x@, y@, i as int),
        decreases rows.len() - i,
    {
        assert(rs[i as int] == rows@[i as int]@);
        if rows[i].area.contains(x, y) {
            return Some((rows[i].lane, rows[i].track));
        }
        i = i + 1;
    }
    None
}

/// Whether a place lies above the lanes, on the overview or the ruler.
pub fn above_lanes(f: &Frame, y: Float32) -> (r: bool)
    ensures
        r == less(y@, sum(single(), sum(single(), f.top@, num(16)), num(20))),
{
    y.less_than(f.top.plus(n32(16)).plus(n32(20)))
}

/// The topmost of the first `n` boxes under a place.
pub open spec fn hit_upto(boxes: Seq<ClipBoxView>, x: Number, y: Number, n: int) -> Option<int>
    decreases n,
{
    if n <= 0 {
        None
    } else if boxes[n - 1].area.contains(x, y) {
        Some(n - 1)
    } else {
        hit_upto(boxes, x, y, n - 1)
    }
}

/// The topmost box under a place.
pub fn hit(boxes: &Vec<ClipBox>, x: Float32, y: Float32) -> (r: Option<usize>)
    ensures
        match hit_upto(views(boxes@), x@, y@, boxes.len() as int) {
            Some(i) => r.is_some() && r.unwrap() == i && i < boxes.len(),
            None => r.is_none(),
        },
{
    let ghost bs = views(boxes@);
    let mut n: usize = boxes.len();
    while n > 0
        invariant
            n <= boxes.len(),
            bs == views(boxes@),
            hit_upto(bs, x@, y@, boxes.len() as int) == hit_upto(bs, x@, y@, n as int),
        decreases n,
    {
        if boxes[n - 1].area.contains(x, y) {
            return Some(n - 1);
        }
        n = n - 1;
    }
    None
}

/// What a drag from a place in a box takes hold of.
#[derive(Clone, Copy, Debug, PartialEq, Eq, Structural)]
pub enum Handle {
    Left,
    Right,
    Body,
}

/// The handle at `x` of a box: six pixels at either end, the left one first.
pub open spec fn handle_of(a: AreaView, x: Number) -> Handle {
    if no_more(x, sum(single(), a.min_x, num(6))) {
        Handle::Left
    } else if no_more(difference(single(), a.max_x, num(6)), x) {
        Handle::Right
    } else {
        Handle::Body
    }
}

/// The handle at `x` of a box.
pub fn handle_at(a: &Area, x: Float32) -> (r: Handle)
    ensures
        r == handle_of(a@, x@),
{
    if x.at_most(a.min_x.plus(n32(6))) {
        Handle::Left
    } else if a.max_x.minus(n32(6)).at_most(x) {
        Handle::Right
    } else {
        Handle::Body
    }
}

/// The size of a picture in the space that is there: as large as fits with its
/// aspect, times a zoom.
pub open spec fn preview_size(
    w: Number,
    h: Number,
    pw: int,
    ph: int,
    zoom: Number,
) -> (Number, Number) {
    let aspect = quotient(single(), num(pw), num(ph));
    let (x, y) = if less(aspect, quotient(single(), w, h)) {
        (product(single(), h, aspect), h)
    } else {
        (w, quotient(single(), w, aspect))
    };
    (product(single(), x, zoom), product(single(), y, zoom))
}

/// The size of the preview in the space that is there.
pub fn fit_preview(w: Float32, h: Float32, pw: u32, ph: u32, zoom: Float32) -> (r: (Float32, Float32))
    ensures
        (r.0@, r.1@) == preview_size(w@, h@, pw as int, ph as int, zoom@),
{
    let aspect: Float32 = n32(pw as i64).over(n32(ph as i64));
    let (x, y): (Float32, Float32) = if aspect.less_than(w.over(h)) {
        (h.times(aspect), h)
    } else {
        (w, w.over(aspect))
    };
    (x.times(zoom), y.times(zoom))
}

/// Whole seconds, pixels per second and pixels that numbers hold exactly.
pub open spec fn seconds_fit(k: int, z: int) -> bool {
    0 <= k <= 1000 && 1 <= z <= 3000
}

proof fn lemma_small_number(i: int)
    requires
        -0x100_0000 < i < 0x100_0000,
    ensures
        holds(single(), i),
        num(i) == integer(single(), i),
{
    lemma2_to64();
    law_integers_are_exact(single(), i);
}

/// Whole seconds are exact, as numbers, as pixels, and back.
proof fn lemma_seconds(k: int, z: int)
    requires
        seconds_fit(k, z),
    ensures
        pixels_of(k * SECOND_US, num(z)) == num(k * z),
        time_of(num(k * z), num(z)) == k * SECOND_US,
        0 <= k * z <= 3_000_000,
{
    let f = single();
    let one = pow2(149);
    let m = (15_625 * k) as nat;
    reveal(of_integer);
    reveal(product);
    lemma2_to64();
    lemma_pow2_pos(149);
    lemma_pow2_adds(6, 149);
    assert(0 <= k * z <= 3_000_000) by (nonlinear_arith)
        requires
            0 <= k <= 1000,
            1 <= z <= 3000,
    ;
    lemma_small_number(k);
    lemma_small_number(z);
    lemma_small_number(k * z);
    lemma_small_number(SECOND_US as int);
    let t = (k * SECOND_US) as nat;
    assert(t * one == m * pow2(155) && (m * pow2(155)) * 1 == t * one) by (nonlinear_arith)
        requires
            t == k * 1_000_000,
            m == 15_625 * k,
            pow2(155) == 64 * one,
            k >= 0,
    ;
    lemma_exact(f, false, m, 155, 1);
    assert(num(k * SECOND_US) == integer(f, k * SECOND_US));
    lemma_exact_quotient(f, k, SECOND_US as int);
    law_integer_products_are_exact(f, k, z);
    lemma_exact_quotient(f, k, z);
    assert((k as nat * one) * (1_000_000 * one) == (m * pow2(155)) * one) by (nonlinear_arith)
        requires
            m == 15_625 * k,
            pow2(155) == 64 * one,
            k >= 0,
    ;
    lemma_exact(f, false, m, 155, one);
    law_integers_come_back(f, Toward::Zero, k * SECOND_US, i64::MIN as int, i64::MAX as int);
}

/// The time at the place of a time is that time again, however far the timeline is
/// scrolled: of whole seconds up to a thousand, with whole pixels per second and a view
/// that begins, and is scrolled, by whole pixels.
pub proof fn law_screen_and_time_are_inverse(v: ViewSpec, k: int, z: int, left: int, scroll: int)
    requires
        seconds_fit(k, z),
        v.zoom == num(z),
        v.left == num(left),
        v.scroll_px() == num(scroll),
        0 <= left <= 1_000_000,
        0 <= scroll <= 3_000_000,
    ensures
        v.t_of(v.x_of(k * SECOND_US)) == k * SECOND_US,
{
    let f = single();
    let p = k * z;
    lemma_seconds(k, z);
    lemma_small_number(p);
    lemma_small_number(left);
    lemma_small_number(scroll);
    lemma_small_number(left + p);
    lemma_small_number(left + p - scroll);
    lemma_small_number(p - scroll);
    law_integer_sums_are_exact(f, left, p);
    lemma_whole_difference(left + p, scroll);
    lemma_whole_difference(left + p - scroll, left);
    law_integer_sums_are_exact(f, p - scroll, scroll);
}

proof fn lemma_whole_difference(i: int, j: int)
    requires
        -0x80_0000 < i < 0x80_0000,
        0 <= j < 0x80_0000,
    ensures
        difference(single(), integer(single(), i), integer(single(), j)) == integer(
            single(),
            i - j,
        ),
{
    let f = single();
    lemma2_to64();
    if j == 0 {
        assert(0 * pow2(149) == 0) by (nonlinear_arith);
        assert(negated(integer(f, 0)) == zero_with(true));
        lemma_plus_zero(f, i, true);
    } else {
        assert(negated(integer(f, j)) == integer(f, -j));
        law_integer_sums_are_exact(f, i, -j);
    }
}

/// A zoom by the wheel keeps the time under the pointer where it is: of whole seconds,
/// where the view can be scrolled to the `m`th second, at which that is so.
pub proof fn law_zoom_keeps_the_time(
    v: ViewSpec,
    k: int,
    z: int,
    m: int,
    left: int,
    most: int,
)
    requires
        seconds_fit(k, z),
        0 <= m <= k,
        0 <= left <= 1_000_000,
        v.left == num(left),
        v.t_of(num(left + (k - m) * z)) == k * SECOND_US,
        larger(difference(single(), pixels_of(v.duration_us, num(z)), v.width), num(0)) == num(
            most,
        ),
        m * z <= most <= 3_000_000,
    ensures
        ({
            let x = num(left + (k - m) * z);
            let after = ViewSpec {
                zoom: num(z),
                scroll_us: wheel_zoom_scroll(v, x, num(z)),
                ..v
            };
            &&& after.scroll_us == m * SECOND_US
            &&& after.x_of(k * SECOND_US) == x
        }),
{
    let f = single();
    let d = (k - m) * z;
    let x = num(left + d);
    assert(0 <= d <= 3_000_000 && 0 <= m * z <= 3_000_000 && k * z == m * z + d) by (nonlinear_arith)
        requires
            d == (k - m) * z,
            0 <= m <= k <= 1000,
            1 <= z <= 3000,
    ;
    lemma_seconds(k, z);
    lemma_seconds(m, z);
    lemma_small_number(left);
    lemma_small_number(left + d);
    lemma_small_number(d);
    lemma_small_number(k * z);
    lemma_small_number(m * z);
    lemma_small_number(most);
    lemma_small_number(0);
    lemma_small_number(left + k * z);
    lemma_whole_difference(left + d, left);
    lemma_whole_difference(k * z, d);
    lemma_integers_in_order(f, m * z, 0);
    lemma_integers_in_order(f, most, m * z);
    assert(wheel_zoom_scroll(v, x, num(z)) == m * SECOND_US);
    lemma_integers_in_order(f, m * z, 0);
    law_integer_sums_are_exact(f, left, k * z);
    lemma_whole_difference(left + k * z, m * z);
}

/// A second is as wide as the zoom says: the `k`th one lies that many times the pixels per
/// second behind the left edge, less what is scrolled away, which is as many seconds as the
/// view is scrolled by, as far as the timeline goes.
pub proof fn law_seconds_are_as_wide_as_the_zoom(
    v: ViewSpec,
    k: int,
    z: int,
    m: int,
    left: int,
    most: int,
)
    requires
        seconds_fit(k, z),
        seconds_fit(m, z),
        v.zoom == num(z),
        v.left == num(left),
        v.scroll_us == m * SECOND_US,
        v.max_scroll() == num(most),
        0 <= left <= 1_000_000,
        0 <= most <= 3_000_000,
    ensures
        v.scroll_px() == num(if m * z < most { m * z } else { most }),
        v.x_of(k * SECOND_US) == num(left + k * z - (if m * z < most { m * z } else { most })),
{
    let f = single();
    assert(0 <= m * z <= 3_000_000 && 0 <= k * z <= 3_000_000) by (nonlinear_arith)
        requires
            0 <= m <= 1000,
            0 <= k <= 1000,
            1 <= z <= 3000,
    ;
    let scroll = if m * z < most {
        m * z
    } else {
        most
    };
    lemma_seconds(k, z);
    lemma_seconds(m, z);
    lemma_small_number(0);
    lemma_small_number(left);
    lemma_small_number(k * z);
    lemma_small_number(m * z);
    lemma_small_number(most);
    lemma_small_number(left + k * z);
    lemma_small_number(left + k * z - scroll);
    lemma_integers_in_order(f, m * z, 0);
    lemma_integers_in_order(f, most, m * z);
    law_integer_sums_are_exact(f, left, k * z);
    lemma_whole_difference(left + k * z, scroll);
}

} // verus!
