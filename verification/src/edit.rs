//! Edits of a project: what each does to the tracks, clips, markers and assets.

use crate::exact::{
    law_integers_are_exact, law_whole_quotients, lemma_integers_in_order, lemma_one,
    lemma_quotient_between,
};
use crate::float::{
    double, larger, less, of_integer, quotient, single, to_integer, Float32, Float64, Toward,
};
use crate::project::{is_time, Clip, Placed, Project, ProjectView};
use crate::strings::{decimal, decimal_string};
use crate::text::{Subtitle, SubtitleView};
use crate::timeline::{
    default_audio_clip, default_text_clip, default_text_style, default_transform,
    default_video_clip, empty_track, law_normal_speed, length_on_timeline, offset_in_source,
    source_offset, timeline_length, views, Asset, AssetId, AssetKind, AssetStoreView, AudioClip,
    AudioClipView, Duplicate, Marker, MarkerView, TextClip, TextClipView, TextStyle, TextStyleView, Track,
    TrackView, Transform, VideoClip, VideoClipView, ONE_BITS, SECOND_US,
};
use vstd::arithmetic::div_mod::{lemma_fundamental_div_mod, lemma_mod_bound};
use vstd::arithmetic::power2::{lemma2_to64, lemma2_to64_rest, pow2};
use vstd::prelude::*;
use vstd::string::*;

verus! {

/// The three kinds of tracks.
#[derive(Debug, Clone, Copy, PartialEq, Eq, Structural)]
pub enum Lane {
    Video,
    Audio,
    Text,
}

/// There is such a clip.
pub open spec fn has_clip<V>(tracks: Seq<TrackView<V>>, track: int, clip: int) -> bool {
    0 <= track < tracks.len() && 0 <= clip < tracks[track].clips.len()
}

/// The tracks with one clip in the place of another.
pub open spec fn with_clip<V>(tracks: Seq<TrackView<V>>, track: int, clip: int, c: V) -> Seq<
    TrackView<V>,
> {
    tracks.update(
        track,
        TrackView { clips: tracks[track].clips.update(clip, c), ..tracks[track] },
    )
}

/// The tracks with one more clip at the end of a track.
pub open spec fn with_added<V>(tracks: Seq<TrackView<V>>, track: int, c: V) -> Seq<TrackView<V>> {
    tracks.update(track, TrackView { clips: tracks[track].clips.push(c), ..tracks[track] })
}

fn move_clip<C: Clip>(tracks: &mut Vec<Track<C>>, track: usize, clip: usize, start: i64) where
    C::V: Placed,

    requires
        has_clip(views(old(tracks)@), track as int, clip as int),
        views(old(tracks)@)[track as int].clips[clip as int].fits_at(start as int),
    ensures
        views(final(tracks)@) == with_clip(
            views(old(tracks)@),
            track as int,
            clip as int,
            views(old(tracks)@)[track as int].clips[clip as int].moved_to(start),
        ),
{
    let ghost before = views(tracks@);
    tracks[track].clips[clip].move_to(start);
    proof {
        let c = before[track as int].clips[clip as int].moved_to(start);
        let now = views(tracks@);
        let want = with_clip(before, track as int, clip as int, c);
        assert(now[track as int].clips =~= want[track as int].clips);
        assert(now =~= want);
    }
}

fn push_clip<C: Clip>(tracks: &mut Vec<Track<C>>, track: usize, c: C) where C::V: Placed
    requires
        track < old(tracks).len(),
    ensures
        views(final(tracks)@) == with_added(views(old(tracks)@), track as int, c@),
{
    let ghost before = views(tracks@);
    let ghost seen = c@;
    tracks[track].clips.push(c);
    proof {
        let now = views(tracks@);
        let want = with_added(before, track as int, seen);
        assert(now[track as int].clips =~= want[track as int].clips);
        assert(now =~= want);
    }
}

/// The start of a clip after what lay before it, from `from` on, has shrunk by
/// `by`: clips from there on move left, but not past zero.
pub open spec fn closed_up_start(start: int, from: int, by: int) -> int {
    if start >= from {
        if start - by > 0 {
            start - by
        } else {
            0
        }
    } else {
        start
    }
}

pub open spec fn closed_up<V: Placed>(c: V, from: int, by: int) -> V {
    if c.start() >= from {
        c.moved_to(closed_up_start(c.start(), from, by) as i64)
    } else {
        c
    }
}

/// The clips of a track without one of them. With `ripple` the later ones close
/// the gap.
pub open spec fn clips_without<V: Placed>(clips: Seq<V>, clip: int, ripple: bool) -> Seq<V> {
    let gone = clips[clip];
    let rest = clips.remove(clip);
    let len = gone.finish() - gone.start();
    if ripple && len > 0 {
        Seq::new(rest.len(), |i: int| closed_up(rest[i], gone.start(), len))
    } else {
        rest
    }
}

/// The tracks without one clip.
pub open spec fn without_clip<V: Placed>(
    tracks: Seq<TrackView<V>>,
    track: int,
    clip: int,
    ripple: bool,
) -> Seq<TrackView<V>> {
    tracks.update(
        track,
        TrackView { clips: clips_without(tracks[track].clips, clip, ripple), ..tracks[track] },
    )
}

/// The length of the clip can be computed, and so can the new places of the clips
/// that close the gap.
pub open spec fn can_remove<V: Placed>(
    tracks: Seq<TrackView<V>>,
    track: int,
    clip: int,
    ripple: bool,
) -> bool {
    let clips = tracks[track].clips;
    let gone = clips[clip];
    let len = gone.finish() - gone.start();
    &&& gone.measurable()
    &&& ripple && len > 0 ==> forall|i: int|
        0 <= i < clips.len() && i != clip && (#[trigger] clips[i]).start() >= gone.start()
            ==> clips[i].fits_at(closed_up_start(clips[i].start(), gone.start(), len))
}

fn remove_clip<C: Clip>(tracks: &mut Vec<Track<C>>, track: usize, clip: usize, ripple: bool) where
    C::V: Placed,

    requires
        has_clip(views(old(tracks)@), track as int, clip as int),
        can_remove(views(old(tracks)@), track as int, clip as int, ripple),
    ensures
        views(final(tracks)@) == without_clip(
            views(old(tracks)@),
            track as int,
            clip as int,
            ripple,
        ),
{
    let ghost before = views(tracks@);
    let ghost clips = before[track as int].clips;
    let ghost gone = clips[clip as int];
    let from: i64 = tracks[track].clips[clip].start_us();
    let len: i64 = tracks[track].clips[clip].length_us();
    let _ = tracks[track].clips.remove(clip);
    let ghost rest = clips.remove(clip as int);
    proof {
        assert(views(tracks@)[track as int].clips =~= rest);
        assert(views(tracks@) =~= before.update(
            track as int,
            TrackView { clips: rest, ..before[track as int] },
        ));
    }
    if ripple && len > 0 {
        let n: usize = tracks[track].clips.len();
        let ghost want = Seq::new(rest.len(), |i: int| closed_up(rest[i], gone.start(), len as int));
        let ghost part = |j: int| {
            before.update(
                track as int,
                TrackView {
                    clips: Seq::new(
                        rest.len(),
                        |i: int|
                            if i < j {
                                want[i]
                            } else {
                                rest[i]
                            },
                    ),
                    ..before[track as int]
                },
            )
        };
        let mut i: usize = 0;
        proof {
            assert(part(0)[track as int].clips =~= rest);
            assert(part(0) =~= views(tracks@));
            assert forall|k: int| 0 <= k < rest.len() && (#[trigger] rest[k]).start() >= gone.start()
                implies rest[k].fits_at(closed_up_start(rest[k].start(), gone.start(), len as int)) by {
                let o = if k < clip {
                    k
                } else {
                    k + 1
                };
                assert(rest[k] == clips[o]);
            }
        }
        while i < n
            invariant
                i <= n,
                n == rest.len(),
                track < before.len(),
                tracks.len() == before.len(),
                from == gone.start(),
                len > 0,
                want == Seq::new(rest.len(), |i: int| closed_up(rest[i], gone.start(), len as int)),
                part == (|j: int| {
                    before.update(
                        track as int,
                        TrackView {
                            clips: Seq::new(
                                rest.len(),
                                |i: int|
                                    if i < j {
                                        want[i]
                                    } else {
                                        rest[i]
                                    },
                            ),
                            ..before[track as int]
                        },
                    )
                }),
                views(tracks@) == part(i as int),
                forall|k: int|
                    0 <= k < rest.len() && (#[trigger] rest[k]).start() >= gone.start()
                        ==> rest[k].fits_at(
                        closed_up_start(rest[k].start(), gone.start(), len as int),
                    ),
            decreases n - i,
        {
            assert(views(tracks@)[track as int].clips == views(tracks@[track as int].clips@));
            assert(views(tracks@[track as int].clips@)[i as int] == rest[i as int]);
            let start: i64 = tracks[track].clips[i].start_us();
            if start >= from {
                assert(rest[i as int].start() >= gone.start());
                let moved: i64 = if start > len {
                    start - len
                } else {
                    0
                };
                move_clip(tracks, track, i, moved);
            }
            proof {
                let now = views(tracks@);
                assert(now[track as int].clips =~= part(i + 1)[track as int].clips);
                assert(now =~= part(i + 1));
            }
            i = i + 1;
        }
        proof {
            assert(views(tracks@)[track as int].clips =~= want);
        }
    }
    proof {
        assert(views(tracks@) =~= without_clip(before, track as int, clip as int, ripple));
    }
}

/// There is such a clip on such a track.
pub open spec fn clip_exists(p: ProjectView, lane: Lane, track: int, clip: int) -> bool {
    match lane {
        Lane::Video => has_clip(p.video_tracks, track, clip),
        Lane::Audio => has_clip(p.audio_tracks, track, clip),
        Lane::Text => has_clip(p.text_tracks, track, clip),
    }
}

/// There is such a track.
pub open spec fn track_exists(p: ProjectView, lane: Lane, track: int) -> bool {
    match lane {
        Lane::Video => 0 <= track < p.video_tracks.len(),
        Lane::Audio => 0 <= track < p.audio_tracks.len(),
        Lane::Text => 0 <= track < p.text_tracks.len(),
    }
}

/// The places of the clips after the removal of one can be computed.
pub open spec fn can_delete(p: ProjectView, lane: Lane, track: int, clip: int) -> bool {
    match lane {
        Lane::Video => can_remove(p.video_tracks, track, clip, p.ripple),
        Lane::Audio => can_remove(p.audio_tracks, track, clip, p.ripple),
        Lane::Text => can_remove(p.text_tracks, track, clip, p.ripple),
    }
}

/// The project without one clip; in ripple mode the later clips of its track close
/// the gap.
pub open spec fn deleted(p: ProjectView, lane: Lane, track: int, clip: int) -> ProjectView {
    match lane {
        Lane::Video => ProjectView {
            video_tracks: without_clip(p.video_tracks, track, clip, p.ripple),
            ..p
        },
        Lane::Audio => ProjectView {
            audio_tracks: without_clip(p.audio_tracks, track, clip, p.ripple),
            ..p
        },
        Lane::Text => ProjectView {
            text_tracks: without_clip(p.text_tracks, track, clip, p.ripple),
            ..p
        },
    }
}

/// The color of the `n`th track, counted from zero.
pub open spec fn track_color(n: int) -> Seq<u8> {
    let k = n % 8;
    if k == 0 {
        seq![70u8, 120u8, 210u8]
    } else if k == 1 {
        seq![120u8, 200u8, 120u8]
    } else if k == 2 {
        seq![230u8, 160u8, 70u8]
    } else if k == 3 {
        seq![200u8, 110u8, 200u8]
    } else if k == 4 {
        seq![80u8, 200u8, 220u8]
    } else if k == 5 {
        seq![210u8, 90u8, 90u8]
    } else if k == 6 {
        seq![160u8, 200u8, 90u8]
    } else {
        seq![150u8, 120u8, 220u8]
    }
}

pub fn color_of_track(n: usize) -> (r: [u8; 3])
    ensures
        r@ == track_color(n as int),
{
    let k: usize = n % 8;
    let r: [u8; 3] = if k == 0 {
        [70, 120, 210]
    } else if k == 1 {
        [120, 200, 120]
    } else if k == 2 {
        [230, 160, 70]
    } else if k == 3 {
        [200, 110, 200]
    } else if k == 4 {
        [80, 200, 220]
    } else if k == 5 {
        [210, 90, 90]
    } else if k == 6 {
        [160, 200, 90]
    } else {
        [150, 120, 220]
    };
    proof {
        assert(r@ =~= track_color(n as int));
    }
    r
}

/// A letter and a number.
pub open spec fn numbered(letter: Seq<char>, n: nat) -> Seq<char> {
    letter + decimal(n)
}

/// The name of the track or marker that follows `n` others.
pub fn numbered_name(letter: &str, n: usize) -> (r: String)
    ensures
        r@ == numbered(letter@, (n + 1) as nat),
{
    let mut name: String = letter.to_string();
    name.append(decimal_string(n as u128 + 1).as_str());
    name
}

/// The project with one more video or audio track, numbered and colored by its
/// place; text tracks are not added this way.
pub open spec fn with_track(p: ProjectView, lane: Lane) -> ProjectView {
    match lane {
        Lane::Video => {
            let n = p.video_tracks.len();
            ProjectView {
                video_tracks: p.video_tracks.push(
                    empty_track(numbered("V"@, n + 1), track_color(n as int)),
                ),
                ..p
            }
        },
        Lane::Audio => {
            let n = p.audio_tracks.len();
            ProjectView {
                audio_tracks: p.audio_tracks.push(
                    empty_track(numbered("A"@, n + 1), track_color(n as int)),
                ),
                ..p
            }
        },
        Lane::Text => p,
    }
}

/// The whole microseconds of one frame.
pub open spec fn frame_length(fps: Float64) -> int {
    to_integer(
        double(),
        Toward::Zero,
        quotient(double(), of_integer(double(), 1_000_000), fps@),
        i64::MIN as int,
        i64::MAX as int,
    )
}

/// The whole microseconds of one frame, at least one.
pub open spec fn nudge_length(fps: Float64) -> int {
    to_integer(
        double(),
        Toward::Zero,
        larger(
            quotient(double(), of_integer(double(), 1_000_000), fps@),
            of_integer(double(), 1),
        ),
        i64::MIN as int,
        i64::MAX as int,
    )
}

/// The whole microseconds of one frame at no less than one frame per second.
pub open spec fn trim_length(fps: Float64) -> int {
    to_integer(
        double(),
        Toward::Zero,
        quotient(
            double(),
            of_integer(double(), 1_000_000),
            larger(fps@, of_integer(double(), 1)),
        ),
        i64::MIN as int,
        i64::MAX as int,
    )
}

pub fn frame_us(fps: Float64) -> (r: i64)
    ensures
        r == frame_length(fps),
{
    Float64::from_i64(SECOND_US).over(fps).to_i64(Toward::Zero)
}

pub fn nudge_us(fps: Float64) -> (r: i64)
    ensures
        r == nudge_length(fps),
{
    Float64::from_i64(SECOND_US).over(fps).maximum(Float64::from_i64(1)).to_i64(Toward::Zero)
}

pub fn trim_us(fps: Float64) -> (r: i64)
    ensures
        r == trim_length(fps),
{
    Float64::from_i64(SECOND_US).over(fps.maximum(Float64::from_i64(1))).to_i64(Toward::Zero)
}

pub open spec fn not_below_zero(t: int) -> int {
    if t > 0 {
        t
    } else {
        0
    }
}

/// The tracks with one clip moved by `delta`, but not past zero.
pub open spec fn nudged_tracks<V: Placed>(
    tracks: Seq<TrackView<V>>,
    track: int,
    clip: int,
    delta: int,
) -> Seq<TrackView<V>> {
    let c = tracks[track].clips[clip];
    with_clip(tracks, track, clip, c.moved_to(not_below_zero(c.start() + delta) as i64))
}

/// The project with one clip moved by `delta`, but not past zero.
pub open spec fn nudged(p: ProjectView, lane: Lane, track: int, clip: int, delta: int) -> ProjectView {
    match lane {
        Lane::Video => ProjectView {
            video_tracks: nudged_tracks(p.video_tracks, track, clip, delta),
            ..p
        },
        Lane::Audio => ProjectView {
            audio_tracks: nudged_tracks(p.audio_tracks, track, clip, delta),
            ..p
        },
        Lane::Text => ProjectView {
            text_tracks: nudged_tracks(p.text_tracks, track, clip, delta),
            ..p
        },
    }
}

/// The clip can be moved by `delta`.
pub open spec fn can_nudge(p: ProjectView, lane: Lane, track: int, clip: int, delta: int) -> bool {
    match lane {
        Lane::Video => {
            let c = p.video_tracks[track].clips[clip];
            c.fits_at(not_below_zero(c.start() + delta))
        },
        Lane::Audio => {
            let c = p.audio_tracks[track].clips[clip];
            c.fits_at(not_below_zero(c.start() + delta))
        },
        Lane::Text => {
            let c = p.text_tracks[track].clips[clip];
            c.fits_at(not_below_zero(c.start() + delta))
        },
    }
}

fn nudge_clip<C: Clip>(tracks: &mut Vec<Track<C>>, track: usize, clip: usize, delta: i64) where
    C::V: Placed,

    requires
        has_clip(views(old(tracks)@), track as int, clip as int),
        ({
            let c = views(old(tracks)@)[track as int].clips[clip as int];
            is_time(not_below_zero(c.start() + delta)) ==> c.fits_at(
                not_below_zero(c.start() + delta),
            )
        }),
        is_time(
            not_below_zero(views(old(tracks)@)[track as int].clips[clip as int].start() + delta),
        ),
    ensures
        views(final(tracks)@) == nudged_tracks(
            views(old(tracks)@),
            track as int,
            clip as int,
            delta as int,
        ),
{
    let at: i128 = tracks[track].clips[clip].start_us() as i128 + delta as i128;
    let start: i64 = if at > 0 {
        at as i64
    } else {
        0
    };
    move_clip(tracks, track, clip, start);
}

/// A place strictly inside a clip, where it can be split.
pub open spec fn splits(start: int, source_in: int, source_out: int, at: int) -> bool {
    start < at < start + (source_out - source_in)
}

/// The two parts of a video clip split at a time.
pub open spec fn split_video_clips(clips: Seq<VideoClipView>, clip: int, at: i64) -> Seq<
    VideoClipView,
> {
    let c = clips[clip];
    let src = (c.source_in + (at - c.timeline_start)) as i64;
    clips.update(clip, VideoClipView { source_out: src, ..c }).insert(
        clip + 1,
        VideoClipView { source_in: src, timeline_start: at, ..c },
    )
}

/// The two parts of an audio clip split at a time.
pub open spec fn split_audio_clips(clips: Seq<AudioClipView>, clip: int, at: i64) -> Seq<
    AudioClipView,
> {
    let c = clips[clip];
    let src = (c.source_in + (at - c.timeline_start)) as i64;
    clips.update(clip, AudioClipView { source_out: src, ..c }).insert(
        clip + 1,
        AudioClipView { source_in: src, timeline_start: at, ..c },
    )
}

/// The split can happen: there is such a clip and the time lies inside it.
pub open spec fn can_split(p: ProjectView, lane: Lane, track: int, clip: int, at: int) -> bool {
    &&& clip_exists(p, lane, track, clip)
    &&& match lane {
        Lane::Video => {
            let c = p.video_tracks[track].clips[clip];
            splits(c.timeline_start as int, c.source_in as int, c.source_out as int, at)
        },
        Lane::Audio => {
            let c = p.audio_tracks[track].clips[clip];
            splits(c.timeline_start as int, c.source_in as int, c.source_out as int, at)
        },
        Lane::Text => false,
    }
}

/// The project with a clip split in two at a time; the second part follows the
/// first on the track.
pub open spec fn split_at(p: ProjectView, lane: Lane, track: int, clip: int, at: i64) -> ProjectView {
    if !can_split(p, lane, track, clip, at as int) {
        p
    } else {
        match lane {
            Lane::Video => ProjectView {
                video_tracks: p.video_tracks.update(
                    track,
                    TrackView {
                        clips: split_video_clips(p.video_tracks[track].clips, clip, at),
                        ..p.video_tracks[track]
                    },
                ),
                ..p
            },
            Lane::Audio => ProjectView {
                audio_tracks: p.audio_tracks.update(
                    track,
                    TrackView {
                        clips: split_audio_clips(p.audio_tracks[track].clips, clip, at),
                        ..p.audio_tracks[track]
                    },
                ),
                ..p
            },
            Lane::Text => p,
        }
    }
}

/// The end of the clip's source, laid out from its start, can be computed.
pub open spec fn split_fits(p: ProjectView, lane: Lane, track: int, clip: int) -> bool {
    clip_exists(p, lane, track, clip) ==> match lane {
        Lane::Video => {
            let c = p.video_tracks[track].clips[clip];
            is_time(c.source_out - c.source_in) && is_time(
                c.timeline_start + (c.source_out - c.source_in),
            )
        },
        Lane::Audio => {
            let c = p.audio_tracks[track].clips[clip];
            is_time(c.source_out - c.source_in) && is_time(
                c.timeline_start + (c.source_out - c.source_in),
            )
        },
        Lane::Text => true,
    }
}

impl Project {
    /// Whether there is such a clip.
    pub fn has_clip(&self, lane: Lane, track: usize, clip: usize) -> (r: bool)
        ensures
            r == clip_exists(self@, lane, track as int, clip as int),
    {
        match lane {
            Lane::Video => track < self.video_tracks.len() && clip < self.video_tracks[track].clips.len(),
            Lane::Audio => track < self.audio_tracks.len() && clip < self.audio_tracks[track].clips.len(),
            Lane::Text => track < self.text_tracks.len() && clip < self.text_tracks[track].clips.len(),
        }
    }

    /// Whether there is such a track.
    pub fn has_track(&self, lane: Lane, track: usize) -> (r: bool)
        ensures
            r == track_exists(self@, lane, track as int),
    {
        match lane {
            Lane::Video => track < self.video_tracks.len(),
            Lane::Audio => track < self.audio_tracks.len(),
            Lane::Text => track < self.text_tracks.len(),
        }
    }

    /// Removes a clip.
    pub fn delete_clip(&mut self, lane: Lane, track: usize, clip: usize)
        requires
            clip_exists(old(self)@, lane, track as int, clip as int),
            can_delete(old(self)@, lane, track as int, clip as int),
        ensures
            final(self)@ == deleted(old(self)@, lane, track as int, clip as int),
    {
        let ripple: bool = self.ripple;
        match lane {
            Lane::Video => remove_clip(&mut self.video_tracks, track, clip, ripple),
            Lane::Audio => remove_clip(&mut self.audio_tracks, track, clip, ripple),
            Lane::Text => remove_clip(&mut self.text_tracks, track, clip, ripple),
        }
    }

    /// Adds an empty video or audio track.
    pub fn add_track(&mut self, lane: Lane)
        ensures
            final(self)@ == with_track(old(self)@, lane),
    {
        let ghost before = self@;
        match lane {
            Lane::Video => {
                let n: usize = self.video_tracks.len();
                self.video_tracks.push(Track::new(numbered_name("V", n), color_of_track(n)));
                proof {
                    assert(self@.video_tracks =~= with_track(before, lane).video_tracks);
                }
            },
            Lane::Audio => {
                let n: usize = self.audio_tracks.len();
                self.audio_tracks.push(Track::new(numbered_name("A", n), color_of_track(n)));
                proof {
                    assert(self@.audio_tracks =~= with_track(before, lane).audio_tracks);
                }
            },
            Lane::Text => {},
        }
    }

    /// Moves a clip by `delta`, but not past zero.
    pub fn nudge_clip(&mut self, lane: Lane, track: usize, clip: usize, delta: i64)
        requires
            clip_exists(old(self)@, lane, track as int, clip as int),
            can_nudge(old(self)@, lane, track as int, clip as int, delta as int),
        ensures
            final(self)@ == nudged(old(self)@, lane, track as int, clip as int, delta as int),
    {
        match lane {
            Lane::Video => nudge_clip(&mut self.video_tracks, track, clip, delta),
            Lane::Audio => nudge_clip(&mut self.audio_tracks, track, clip, delta),
            Lane::Text => nudge_clip(&mut self.text_tracks, track, clip, delta),
        }
    }

    /// Whether a clip can be split at a time.
    pub fn splits_at(&self, lane: Lane, track: usize, clip: usize, at: i64) -> (r: bool)
        requires
            split_fits(self@, lane, track as int, clip as int),
        ensures
            r == can_split(self@, lane, track as int, clip as int, at as int),
    {
        if !self.has_clip(lane, track, clip) {
            return false;
        }
        match lane {
            Lane::Video => {
                let c: &VideoClip = &self.video_tracks[track].clips[clip];
                assert(c@ == self@.video_tracks[track as int].clips[clip as int]);
                let end: i64 = c.timeline_start + (c.source_out - c.source_in);
                c.timeline_start < at && at < end
            },
            Lane::Audio => {
                let c: &AudioClip = &self.audio_tracks[track].clips[clip];
                assert(c@ == self@.audio_tracks[track as int].clips[clip as int]);
                let end: i64 = c.timeline_start + (c.source_out - c.source_in);
                c.timeline_start < at && at < end
            },
            Lane::Text => false,
        }
    }

    /// Splits a video or audio clip in two at a time inside it.
    pub fn split_clip(&mut self, lane: Lane, track: usize, clip: usize, at: i64)
        requires
            split_fits(old(self)@, lane, track as int, clip as int),
        ensures
            final(self)@ == split_at(old(self)@, lane, track as int, clip as int, at),
    {
        if !self.splits_at(lane, track, clip, at) {
            return;
        }
        let ghost before = self@;
        match lane {
            Lane::Video => {
                let mut second: VideoClip = self.video_tracks[track].clips[clip].duplicate();
                assert(second@ == before.video_tracks[track as int].clips[clip as int]);
                let src: i64 = second.source_in + (at - second.timeline_start);
                second.source_in = src;
                second.timeline_start = at;
                self.video_tracks[track].clips[clip].source_out = src;
                let n: usize = self.video_tracks[track].clips.len();
                assert(clip < n);
                self.video_tracks[track].clips.insert(clip + 1, second);
                proof {
                    let want = split_at(before, lane, track as int, clip as int, at);
                    assert(self@.video_tracks[track as int].clips
                        =~= want.video_tracks[track as int].clips);
                    assert(self@.video_tracks =~= want.video_tracks);
                }
            },
            Lane::Audio => {
                let mut second: AudioClip = self.audio_tracks[track].clips[clip].duplicate();
                assert(second@ == before.audio_tracks[track as int].clips[clip as int]);
                let src: i64 = second.source_in + (at - second.timeline_start);
                second.source_in = src;
                second.timeline_start = at;
                self.audio_tracks[track].clips[clip].source_out = src;
                let n: usize = self.audio_tracks[track].clips.len();
                assert(clip < n);
                self.audio_tracks[track].clips.insert(clip + 1, second);
                proof {
                    let want = split_at(before, lane, track as int, clip as int, at);
                    assert(self@.audio_tracks[track as int].clips
                        =~= want.audio_tracks[track as int].clips);
                    assert(self@.audio_tracks =~= want.audio_tracks);
                }
            },
            Lane::Text => {},
        }
    }
}

/// A clip that was copied.
#[derive(Debug, Clone)]
pub enum ClipboardItem {
    Video(VideoClip),
    Audio(AudioClip),
    Text(TextClip),
}

/// A copied clip by its view.
pub enum ClipboardView {
    Video(VideoClipView),
    Audio(AudioClipView),
    Text(TextClipView),
}

impl View for ClipboardItem {
    type V = ClipboardView;

    open spec fn view(&self) -> ClipboardView {
        match self {
            ClipboardItem::Video(c) => ClipboardView::Video(c@),
            ClipboardItem::Audio(c) => ClipboardView::Audio(c@),
            ClipboardItem::Text(c) => ClipboardView::Text(c@),
        }
    }
}

/// A copied clip by its view, or none.
pub open spec fn clipboard_view(item: Option<ClipboardItem>) -> Option<ClipboardView> {
    match item {
        Some(i) => Some(i@),
        None => None,
    }
}

/// The end of a text pasted at `at`: as long as it was, or three seconds where it
/// had no length.
pub open spec fn pasted_end(c: TextClipView, at: int) -> int {
    let len = c.timeline_end - c.timeline_start;
    if len > 0 {
        at + len
    } else {
        at + 3 * SECOND_US
    }
}

/// The project with a copied clip at the end of the first track of its kind,
/// starting at `at`.
pub open spec fn pasted(p: ProjectView, item: ClipboardView, at: i64) -> ProjectView {
    match item {
        ClipboardView::Video(c) => ProjectView {
            video_tracks: with_added(
                p.video_tracks,
                0,
                VideoClipView { timeline_start: at, ..c },
            ),
            ..p
        },
        ClipboardView::Audio(c) => ProjectView {
            audio_tracks: with_added(
                p.audio_tracks,
                0,
                AudioClipView { timeline_start: at, ..c },
            ),
            ..p
        },
        ClipboardView::Text(c) => ProjectView {
            text_tracks: with_added(
                p.text_tracks,
                0,
                TextClipView {
                    timeline_start: at,
                    timeline_end: pasted_end(c, at as int) as i64,
                    ..c
                },
            ),
            ..p
        },
    }
}

/// There is a track to paste on, and the end of a text can be computed.
pub open spec fn can_paste(p: ProjectView, item: ClipboardView, at: i64) -> bool {
    match item {
        ClipboardView::Video(c) => p.video_tracks.len() > 0,
        ClipboardView::Audio(c) => p.audio_tracks.len() > 0,
        ClipboardView::Text(c) => {
            &&& p.text_tracks.len() > 0
            &&& is_time(c.timeline_end - c.timeline_start)
            &&& is_time(pasted_end(c, at as int))
        },
    }
}

/// The clip that is selected, copied.
pub open spec fn copied(p: ProjectView, lane: Lane, track: int, clip: int) -> ClipboardView {
    match lane {
        Lane::Video => ClipboardView::Video(p.video_tracks[track].clips[clip]),
        Lane::Audio => ClipboardView::Audio(p.audio_tracks[track].clips[clip]),
        Lane::Text => ClipboardView::Text(p.text_tracks[track].clips[clip]),
    }
}

/// A pasted clip is the one that was copied, but for where it starts.
pub proof fn law_paste_gives_the_copy(p: ProjectView, track: int, clip: int, at: i64)
    ensures
        clip_exists(p, Lane::Video, track, clip) && p.video_tracks.len() > 0 ==> pasted(
            p,
            copied(p, Lane::Video, track, clip),
            at,
        ).video_tracks[0].clips.last() == p.video_tracks[track].clips[clip].moved_to(at),
        clip_exists(p, Lane::Audio, track, clip) && p.audio_tracks.len() > 0 ==> pasted(
            p,
            copied(p, Lane::Audio, track, clip),
            at,
        ).audio_tracks[0].clips.last() == p.audio_tracks[track].clips[clip].moved_to(at),
        clip_exists(p, Lane::Text, track, clip) && p.text_tracks.len() > 0
            && p.text_tracks[track].clips[clip].finish() > p.text_tracks[track].clips[clip].start()
            ==> pasted(p, copied(p, Lane::Text, track, clip), at).text_tracks[0].clips.last()
            == p.text_tracks[track].clips[clip].moved_to(at),
{
}

/// The last track at most.
pub open spec fn nearest_track(track: int, n: int) -> int {
    if track < n {
        track
    } else if n > 0 {
        n - 1
    } else {
        0
    }
}

fn nearest_index(track: usize, n: usize) -> (r: usize)
    ensures
        r == nearest_track(track as int, n as int),
{
    if track < n {
        track
    } else if n > 0 {
        n - 1
    } else {
        0
    }
}

/// The length of the source of a new clip: three seconds of an image on a video
/// track, else the whole asset, at least a second.
pub open spec fn new_clip_length(a: Asset, lane: Lane) -> i64 {
    if lane == Lane::Video && a.kind == AssetKind::Image {
        (3 * SECOND_US) as i64
    } else if a.duration_us > SECOND_US {
        a.duration_us
    } else {
        SECOND_US
    }
}

/// The project with an asset placed as a clip on a video or audio track, on the
/// last one where there are not so many; nothing where there is no such asset, or
/// on a text track.
pub open spec fn with_asset_clip(
    p: ProjectView,
    id: AssetId,
    lane: Lane,
    track: int,
    at: i64,
) -> ProjectView {
    if !p.assets.assets.contains_key(id.0) {
        p
    } else {
        let out = new_clip_length(p.assets.assets[id.0], lane);
        match lane {
            Lane::Video => ProjectView {
                video_tracks: with_added(
                    p.video_tracks,
                    nearest_track(track, p.video_tracks.len() as int),
                    VideoClipView {
                        asset: id,
                        source_in: 0,
                        source_out: out,
                        timeline_start: at,
                        ..default_video_clip()
                    },
                ),
                ..p
            },
            Lane::Audio => ProjectView {
                audio_tracks: with_added(
                    p.audio_tracks,
                    nearest_track(track, p.audio_tracks.len() as int),
                    AudioClipView {
                        asset: id,
                        source_in: 0,
                        source_out: out,
                        timeline_start: at,
                        fade_in_us: 200_000,
                        fade_out_us: 200_000,
                        ..default_audio_clip()
                    },
                ),
                ..p
            },
            Lane::Text => p,
        }
    }
}

/// The project with a three-second text on a text track.
pub open spec fn with_text(p: ProjectView, track: int, text: Seq<char>, at: int) -> ProjectView {
    ProjectView {
        text_tracks: with_added(
            p.text_tracks,
            track,
            TextClipView {
                text,
                timeline_start: at as i64,
                timeline_end: (at + 3 * SECOND_US) as i64,
                ..default_text_clip()
            },
        ),
        ..p
    }
}

impl Project {
    /// A copy of a clip.
    pub fn copy_clip(&self, lane: Lane, track: usize, clip: usize) -> (r: ClipboardItem)
        requires
            clip_exists(self@, lane, track as int, clip as int),
        ensures
            r@ == copied(self@, lane, track as int, clip as int),
    {
        match lane {
            Lane::Video => ClipboardItem::Video(self.video_tracks[track].clips[clip].duplicate()),
            Lane::Audio => ClipboardItem::Audio(self.audio_tracks[track].clips[clip].duplicate()),
            Lane::Text => ClipboardItem::Text(self.text_tracks[track].clips[clip].duplicate()),
        }
    }

    /// Puts a copied clip on the first track of its kind.
    pub fn paste(&mut self, item: &ClipboardItem, at: i64)
        requires
            can_paste(old(self)@, item@, at),
        ensures
            final(self)@ == pasted(old(self)@, item@, at),
    {
        match item {
            ClipboardItem::Video(c) => {
                let mut n: VideoClip = c.duplicate();
                n.timeline_start = at;
                push_clip(&mut self.video_tracks, 0, n);
            },
            ClipboardItem::Audio(c) => {
                let mut n: AudioClip = c.duplicate();
                n.timeline_start = at;
                push_clip(&mut self.audio_tracks, 0, n);
            },
            ClipboardItem::Text(c) => {
                let mut n: TextClip = c.duplicate();
                let len: i64 = n.timeline_end - n.timeline_start;
                let end: i64 = if len > 0 {
                    at + len
                } else {
                    at + 3 * SECOND_US
                };
                n.timeline_start = at;
                n.timeline_end = end;
                push_clip(&mut self.text_tracks, 0, n);
            },
        }
    }

    /// Inserts an asset as a clip at a time.
    pub fn add_clip_at(&mut self, id: AssetId, lane: Lane, track: usize, at: i64)
        requires
            lane == Lane::Video ==> old(self).video_tracks.len() > 0,
            lane == Lane::Audio ==> old(self).audio_tracks.len() > 0,
        ensures
            final(self)@ == with_asset_clip(old(self)@, id, lane, track as int, at),
    {
        let (kind, duration): (AssetKind, i64) = match self.assets.get(id) {
            Some(a) => (a.kind, a.duration_us),
            None => {
                return;
            },
        };
        let whole: i64 = if duration > SECOND_US {
            duration
        } else {
            SECOND_US
        };
        match lane {
            Lane::Video => {
                let mut c: VideoClip = VideoClip::default();
                c.asset = id;
                c.source_out = if kind == AssetKind::Image {
                    3 * SECOND_US
                } else {
                    whole
                };
                c.timeline_start = at;
                let i: usize = nearest_index(track, self.video_tracks.len());
                push_clip(&mut self.video_tracks, i, c);
            },
            Lane::Audio => {
                let mut c: AudioClip = AudioClip::default();
                c.asset = id;
                c.source_out = whole;
                c.timeline_start = at;
                c.fade_in_us = 200_000;
                c.fade_out_us = 200_000;
                let i: usize = nearest_index(track, self.audio_tracks.len());
                push_clip(&mut self.audio_tracks, i, c);
            },
            Lane::Text => {},
        }
    }

    fn push_text(&mut self, track: usize, text: String, at: i64)
        requires
            track < old(self).text_tracks.len(),
            at + 3 * SECOND_US <= i64::MAX,
        ensures
            final(self)@ == with_text(old(self)@, track as int, text@, at as int),
    {
        let mut c: TextClip = TextClip::default();
        c.text = text;
        c.timeline_start = at;
        c.timeline_end = at + 3 * SECOND_US;
        push_clip(&mut self.text_tracks, track, c);
    }

    /// Adds a title on the first text track.
    pub fn add_title(&mut self, at: i64)
        requires
            old(self).text_tracks.len() > 0,
            at + 3 * SECOND_US <= i64::MAX,
        ensures
            final(self)@ == with_text(old(self)@, 0, "New title"@, at as int),
    {
        self.push_text(0, "New title".to_string(), at);
    }

    /// Adds a text on a text track, on the last one where there are not so many,
    /// not before zero.
    pub fn add_text_clip_at(&mut self, track: usize, at: i64)
        requires
            old(self).text_tracks.len() > 0,
            not_below_zero(at as int) + 3 * SECOND_US <= i64::MAX,
        ensures
            final(self)@ == with_text(
                old(self)@,
                nearest_track(track as int, old(self)@.text_tracks.len() as int),
                "New text"@,
                not_below_zero(at as int),
            ),
    {
        let start: i64 = if at > 0 {
            at
        } else {
            0
        };
        let i: usize = nearest_index(track, self.text_tracks.len());
        self.push_text(i, "New text".to_string(), start);
    }
}

/// Where a subtitle stands: low, in the middle.
pub open spec fn subtitle_transform() -> Transform {
    Transform { y: Float32 { bits: 0x3f59_999a }, ..default_transform() }
}

/// The look of subtitles: white with a dark outline.
pub open spec fn subtitle_style() -> TextStyleView {
    TextStyleView {
        font_size: Float32 { bits: 0x41a8_0000 },
        color: seq![255u8, 255u8, 255u8, 255u8],
        outline_color: seq![0u8, 0u8, 0u8, 200u8],
        outline_width: Float32 { bits: 0x4000_0000 },
        ..default_text_style()
    }
}

/// The text clip of a subtitle.
pub open spec fn subtitle_clip(s: SubtitleView) -> TextClipView {
    TextClipView {
        text: s.text,
        timeline_start: s.start_us,
        timeline_end: s.end_us,
        style: subtitle_style(),
        transform: subtitle_transform(),
        opacity: Float32 { bits: ONE_BITS },
    }
}

/// The project with some subtitles on a new text track.
pub open spec fn with_subtitles(p: ProjectView, subs: Seq<SubtitleView>) -> ProjectView {
    ProjectView {
        text_tracks: p.text_tracks.push(
            TrackView {
                clips: Seq::new(subs.len(), |i: int| subtitle_clip(subs[i])),
                ..empty_track("Subtitles"@, seq![0u8, 0u8, 0u8])
            },
        ),
        ..p
    }
}

fn clip_of_subtitle(s: &Subtitle) -> (c: TextClip)
    ensures
        c@ == subtitle_clip(s@),
{
    let mut style: TextStyle = TextStyle::default();
    style.font_size = Float32 { bits: 0x41a8_0000 };
    style.color = [255, 255, 255, 255];
    style.outline_color = [0, 0, 0, 200];
    style.outline_width = Float32 { bits: 0x4000_0000 };
    let mut transform: Transform = Transform::default();
    transform.y = Float32 { bits: 0x3f59_999a };
    proof {
        assert(style.color@ =~= seq![255u8, 255u8, 255u8, 255u8]);
        assert(style.outline_color@ =~= seq![0u8, 0u8, 0u8, 200u8]);
    }
    TextClip {
        text: s.text.clone(),
        timeline_start: s.start_us,
        timeline_end: s.end_us,
        style,
        transform,
        opacity: Float32 { bits: ONE_BITS },
    }
}

impl Project {
    /// Adds a text track with a clip for each subtitle.
    pub fn add_subtitles(&mut self, subs: &Vec<Subtitle>)
        ensures
            final(self)@ == with_subtitles(old(self)@, views(subs@)),
    {
        let ghost before = self@;
        let black: [u8; 3] = [0, 0, 0];
        let mut track: Track<TextClip> = Track::new("Subtitles".to_string(), black);
        proof {
            assert(black@ =~= seq![0u8, 0u8, 0u8]);
        }
        let ghost empty = track@;
        let mut i: usize = 0;
        while i < subs.len()
            invariant
                i <= subs.len(),
                track@ == (TrackView { clips: track@.clips, ..empty }),
                track@.clips.len() == i,
                forall|k: int|
                    0 <= k < i ==> (#[trigger] track@.clips[k]) == subtitle_clip(subs@[k]@),
            decreases subs.len() - i,
        {
            let ghost clips = track@.clips;
            let c: TextClip = clip_of_subtitle(&subs[i]);
            let ghost seen = c@;
            track.clips.push(c);
            assert(track@.clips =~= clips.push(seen));
            i = i + 1;
        }
        let ghost done = track@;
        self.text_tracks.push(track);
        proof {
            let want = with_subtitles(before, views(subs@));
            assert(done.clips =~= want.text_tracks.last().clips);
            assert(self@.text_tracks =~= want.text_tracks);
        }
    }
}

/// A marker put behind the last one that is not later.
pub open spec fn marker_inserted(ms: Seq<MarkerView>, m: MarkerView) -> Seq<MarkerView>
    decreases ms.len(),
{
    if ms.len() == 0 || ms.last().time_us <= m.time_us {
        ms.push(m)
    } else {
        marker_inserted(ms.drop_last(), m).push(ms.last())
    }
}

/// The markers by time; those of one time stay in their order.
pub open spec fn markers_sorted(ms: Seq<MarkerView>) -> Seq<MarkerView>
    decreases ms.len(),
{
    if ms.len() == 0 {
        Seq::empty()
    } else {
        marker_inserted(markers_sorted(ms.drop_last()), ms.last())
    }
}

proof fn lemma_marker_inserted(ms: Seq<MarkerView>, m: MarkerView, j: int)
    requires
        0 <= j <= ms.len(),
        forall|k: int| j <= k < ms.len() ==> (#[trigger] ms[k]).time_us > m.time_us,
        j > 0 ==> ms[j - 1].time_us <= m.time_us,
    ensures
        marker_inserted(ms, m) == ms.insert(j, m),
    decreases ms.len(),
{
    if j == ms.len() {
        assert(ms.insert(j, m) =~= ms.push(m));
    } else {
        lemma_marker_inserted(ms.drop_last(), m, j);
        assert(ms.drop_last().insert(j, m).push(ms.last()) =~= ms.insert(j, m));
    }
}

proof fn lemma_markers_sorted_len(ms: Seq<MarkerView>)
    ensures
        markers_sorted(ms).len() == ms.len(),
    decreases ms.len(),
{
    if ms.len() > 0 {
        lemma_markers_sorted_len(ms.drop_last());
        lemma_marker_inserted_len(markers_sorted(ms.drop_last()), ms.last());
    }
}

proof fn lemma_marker_inserted_len(ms: Seq<MarkerView>, m: MarkerView)
    ensures
        marker_inserted(ms, m).len() == ms.len() + 1,
    decreases ms.len(),
{
    if ms.len() > 0 {
        lemma_marker_inserted_len(ms.drop_last(), m);
    }
}

pub open spec fn markers_in_order(ms: Seq<MarkerView>) -> bool {
    forall|i: int, j: int| 0 <= i < j < ms.len() ==> (#[trigger] ms[i]).time_us <= (#[trigger] ms[j]).time_us
}

proof fn lemma_marker_inserted_order(ms: Seq<MarkerView>, m: MarkerView)
    requires
        markers_in_order(ms),
    ensures
        markers_in_order(marker_inserted(ms, m)),
        marker_inserted(ms, m).to_multiset() == ms.to_multiset().insert(m),
        ms.len() > 0 ==> marker_inserted(ms, m).last().time_us == (if ms.last().time_us > m.time_us {
            ms.last().time_us
        } else {
            m.time_us
        }),
        ms.len() == 0 ==> marker_inserted(ms, m).last() == m,
        marker_inserted(ms, m).len() == ms.len() + 1,
    decreases ms.len(),
{
    broadcast use vstd::seq_lib::group_to_multiset_ensures;

    lemma_marker_inserted_len(ms, m);
    if ms.len() == 0 || ms.last().time_us <= m.time_us {
        let r = ms.push(m);
        assert forall|i: int, j: int| 0 <= i < j < r.len() implies (#[trigger] r[i]).time_us <= (
        #[trigger] r[j]).time_us by {
            if j == ms.len() {
                assert(ms[i].time_us <= ms[ms.len() - 1].time_us);
            }
        }
    } else {
        let init = ms.drop_last();
        assert(markers_in_order(init));
        lemma_marker_inserted_order(init, m);
        let t = marker_inserted(init, m);
        let r = t.push(ms.last());
        assert(t.last().time_us <= ms.last().time_us) by {
            if init.len() > 0 {
                assert(ms[init.len() - 1].time_us <= ms[ms.len() - 1].time_us);
            }
        }
        assert forall|i: int, j: int| 0 <= i < j < r.len() implies (#[trigger] r[i]).time_us <= (
        #[trigger] r[j]).time_us by {
            if j == t.len() {
                if i < t.len() - 1 {
                    assert(t[i].time_us <= t[t.len() - 1].time_us);
                }
            }
        }
        assert(ms =~= init.push(ms.last()));
        assert(r.to_multiset() =~= ms.to_multiset().insert(m));
    }
}

/// Sorting the markers leaves them in order of time, and loses or adds none.
pub proof fn law_markers_sorted(ms: Seq<MarkerView>)
    ensures
        markers_in_order(markers_sorted(ms)),
        markers_sorted(ms).to_multiset() == ms.to_multiset(),
    decreases ms.len(),
{
    broadcast use vstd::seq_lib::group_to_multiset_ensures;

    if ms.len() > 0 {
        law_markers_sorted(ms.drop_last());
        lemma_marker_inserted_order(markers_sorted(ms.drop_last()), ms.last());
        assert(ms =~= ms.drop_last().push(ms.last()));
    }
}

/// Sorts the markers by time.
pub fn sort_markers(ms: &mut Vec<Marker>)
    ensures
        views(final(ms)@) == markers_sorted(views(old(ms)@)),
{
    let ghost all = views(ms@);
    let n: usize = ms.len();
    let mut i: usize = 0;
    assert(markers_sorted(all.take(0)) + all.skip(0) =~= all);
    while i < n
        invariant
            i <= n,
            n == ms.len(),
            all.len() == n,
            views(ms@) == markers_sorted(all.take(i as int)) + all.skip(i as int),
        decreases n - i,
    {
        let ghost done = markers_sorted(all.take(i as int));
        let ghost next = all[i as int];
        proof {
            lemma_markers_sorted_len(all.take(i as int));
            assert(views(ms@)[i as int] == next);
            assert(all.take(i + 1).drop_last() =~= all.take(i as int));
            assert(all.take(i + 1).last() == next);
        }
        let ghost held = views(ms@);
        let m: Marker = ms.remove(i);
        let mut j: usize = i;
        proof {
            assert(views(ms@) =~= held.remove(i as int));
            assert(held.remove(i as int) =~= done + all.skip(i + 1));
        }
        while j > 0 && ms[j - 1].time_us > m.time_us
            invariant
                j <= i < n,
                n == ms.len() + 1,
                done.len() == i,
                m@ == next,
                views(ms@) == done + all.skip(i + 1),
                forall|k: int| j <= k < i ==> (#[trigger] done[k]).time_us > m.time_us,
            decreases j,
        {
            assert(views(ms@)[j - 1] == done[j - 1]);
            j = j - 1;
        }
        proof {
            if j > 0 {
                assert(views(ms@)[j - 1] == done[j - 1]);
            }
            lemma_marker_inserted(done, next, j as int);
        }
        let ghost left = views(ms@);
        ms.insert(j, m);
        proof {
            assert(views(ms@) =~= left.insert(j as int, next));
            assert(views(ms@) =~= done.insert(j as int, next) + all.skip(i + 1));
        }
        i = i + 1;
    }
    proof {
        assert(all.take(n as int) =~= all);
        assert(markers_sorted(all) + all.skip(n as int) =~= markers_sorted(all));
    }
}

/// The color of a new marker.
pub open spec fn marker_color() -> Seq<u8> {
    seq![240u8, 180u8, 60u8]
}

/// The project with a nameless marker at a time, the markers sorted.
pub open spec fn with_marker(p: ProjectView, at: i64) -> ProjectView {
    ProjectView {
        markers: markers_sorted(
            p.markers.push(MarkerView { time_us: at, name: ""@, color: marker_color() }),
        ),
        ..p
    }
}

/// The project with a numbered marker behind the others, not before zero.
pub open spec fn with_numbered_marker(p: ProjectView, at: int) -> ProjectView {
    ProjectView {
        markers: p.markers.push(
            MarkerView {
                time_us: not_below_zero(at) as i64,
                name: numbered("Marker "@, p.markers.len() + 1),
                color: marker_color(),
            },
        ),
        ..p
    }
}

/// The project with a numbered empty text track.
pub open spec fn with_text_track(p: ProjectView) -> ProjectView {
    ProjectView {
        text_tracks: p.text_tracks.push(
            empty_track(numbered("Text "@, p.text_tracks.len() + 1), seq![0u8, 0u8, 0u8]),
        ),
        ..p
    }
}

/// Both ends of the loop region are set.
pub open spec fn looping(p: ProjectView) -> bool {
    p.loop_start.is_some() && p.loop_end.is_some()
}

/// The start of a loop region at the playhead: at least a second before the end.
pub open spec fn loop_from(playhead: int, duration: int) -> int {
    let last = not_below_zero(duration - SECOND_US);
    if playhead < last {
        playhead
    } else {
        last
    }
}

/// The end of a loop region: four seconds on, no later than the end of the
/// project, but after its start.
pub open spec fn loop_to(start: int, duration: int) -> int {
    let e = if start + 4 * SECOND_US < duration {
        start + 4 * SECOND_US
    } else {
        duration
    };
    if e > start + 1 {
        e
    } else {
        start + 1
    }
}

/// The project with its loop region off where it was on, else with one at the
/// playhead where there is anything to play.
pub open spec fn loop_toggled(p: ProjectView, playhead: int) -> ProjectView {
    if looping(p) {
        ProjectView { loop_start: None, loop_end: None, ..p }
    } else if p.duration() > 0 {
        let s = loop_from(playhead, p.duration());
        ProjectView {
            loop_start: Some(s as i64),
            loop_end: Some(loop_to(s, p.duration()) as i64),
            ..p
        }
    } else {
        p
    }
}

/// The project with its loop region off where it was on, else with one a second to
/// either side of the playhead.
pub open spec fn loop_around(p: ProjectView, playhead: int) -> ProjectView {
    if looping(p) {
        ProjectView { loop_start: None, loop_end: None, ..p }
    } else {
        ProjectView {
            loop_start: Some(not_below_zero(playhead - SECOND_US) as i64),
            loop_end: Some(
                (if playhead + SECOND_US > 1 {
                    playhead + SECOND_US
                } else {
                    1
                }) as i64,
            ),
            ..p
        }
    }
}

/// A loop region that was just switched on is never empty.
pub proof fn law_loop_is_not_empty(p: ProjectView, playhead: i64)
    requires
        !looping(p),
        p.duration() > 0,
        p.duration() <= i64::MAX,
    ensures
        ({
            let q = loop_toggled(p, playhead as int);
            looping(q) && q.loop_start.unwrap() < q.loop_end.unwrap()
        }),
{
}

/// The switches in the header of a track.
#[derive(Debug, Clone, Copy, PartialEq, Eq, Structural)]
pub enum HeaderButton {
    Mute,
    Solo,
    Lock,
}

/// The project after a click on a switch of a track: mute works on video and audio
/// tracks, solo on audio tracks, lock on all.
pub open spec fn header_toggled(p: ProjectView, lane: Lane, i: int, button: HeaderButton) -> ProjectView {
    match (lane, button) {
        (Lane::Video, HeaderButton::Mute) => ProjectView {
            video_tracks: p.video_tracks.update(
                i,
                TrackView { muted: !p.video_tracks[i].muted, ..p.video_tracks[i] },
            ),
            ..p
        },
        (Lane::Audio, HeaderButton::Mute) => ProjectView {
            audio_tracks: p.audio_tracks.update(
                i,
                TrackView { muted: !p.audio_tracks[i].muted, ..p.audio_tracks[i] },
            ),
            ..p
        },
        (Lane::Audio, HeaderButton::Solo) => ProjectView {
            audio_tracks: p.audio_tracks.update(
                i,
                TrackView { solo: !p.audio_tracks[i].solo, ..p.audio_tracks[i] },
            ),
            ..p
        },
        (Lane::Video, HeaderButton::Lock) => ProjectView {
            video_tracks: p.video_tracks.update(
                i,
                TrackView { locked: !p.video_tracks[i].locked, ..p.video_tracks[i] },
            ),
            ..p
        },
        (Lane::Audio, HeaderButton::Lock) => ProjectView {
            audio_tracks: p.audio_tracks.update(
                i,
                TrackView { locked: !p.audio_tracks[i].locked, ..p.audio_tracks[i] },
            ),
            ..p
        },
        (Lane::Text, HeaderButton::Lock) => ProjectView {
            text_tracks: p.text_tracks.update(
                i,
                TrackView { locked: !p.text_tracks[i].locked, ..p.text_tracks[i] },
            ),
            ..p
        },
        _ => p,
    }
}

/// Clicking a switch twice changes nothing.
pub proof fn law_header_toggle_twice(p: ProjectView, lane: Lane, i: int, button: HeaderButton)
    requires
        track_exists(p, lane, i),
    ensures
        header_toggled(header_toggled(p, lane, i, button), lane, i, button) == p,
{
    let q = header_toggled(header_toggled(p, lane, i, button), lane, i, button);
    assert(q.video_tracks =~= p.video_tracks);
    assert(q.audio_tracks =~= p.audio_tracks);
    assert(q.text_tracks =~= p.text_tracks);
}

impl Project {
    /// Places a nameless marker and sorts the markers.
    pub fn add_marker(&mut self, at: i64)
        ensures
            final(self)@ == with_marker(old(self)@, at),
    {
        let ghost before = self@;
        let color: [u8; 3] = [240, 180, 60];
        self.markers.push(Marker { time_us: at, name: "".to_string(), color });
        proof {
            assert(color@ =~= marker_color());
            assert(self@.markers =~= before.markers.push(
                MarkerView { time_us: at, name: ""@, color: marker_color() },
            ));
        }
        sort_markers(&mut self.markers);
    }

    /// Places a numbered marker behind the others.
    pub fn add_numbered_marker(&mut self, at: i64)
        ensures
            final(self)@ == with_numbered_marker(old(self)@, at as int),
    {
        let ghost before = self@;
        let color: [u8; 3] = [240, 180, 60];
        let name: String = numbered_name("Marker ", self.markers.len());
        let time_us: i64 = if at > 0 {
            at
        } else {
            0
        };
        self.markers.push(Marker { time_us, name, color });
        proof {
            assert(color@ =~= marker_color());
            assert(self@.markers =~= with_numbered_marker(before, at as int).markers);
        }
    }

    /// Adds a numbered empty text track.
    pub fn add_text_track(&mut self)
        ensures
            final(self)@ == with_text_track(old(self)@),
    {
        let ghost before = self@;
        let black: [u8; 3] = [0, 0, 0];
        let name: String = numbered_name("Text ", self.text_tracks.len());
        self.text_tracks.push(Track::new(name, black));
        proof {
            assert(black@ =~= seq![0u8, 0u8, 0u8]);
            assert(self@.text_tracks =~= with_text_track(before).text_tracks);
        }
    }

    /// Whether both ends of the loop region are set.
    pub fn is_looping(&self) -> (r: bool)
        ensures
            r == looping(self@),
    {
        self.loop_start.is_some() && self.loop_end.is_some()
    }

    /// Switches the loop region off, or on at the playhead.
    pub fn toggle_loop(&mut self, playhead: i64)
        requires
            old(self)@.times_fit(),
        ensures
            final(self)@ == loop_toggled(old(self)@, playhead as int),
    {
        if self.is_looping() {
            self.loop_start = None;
            self.loop_end = None;
        } else {
            let duration: i64 = self.duration_us();
            if duration > 0 {
                let last: i64 = if duration > SECOND_US {
                    duration - SECOND_US
                } else {
                    0
                };
                let s: i64 = if playhead < last {
                    playhead
                } else {
                    last
                };
                let far: i128 = s as i128 + 4 * SECOND_US as i128;
                let e: i64 = if far < duration as i128 {
                    far as i64
                } else {
                    duration
                };
                self.loop_start = Some(s);
                self.loop_end = Some(
                    if e > s + 1 {
                        e
                    } else {
                        s + 1
                    },
                );
            }
        }
    }

    /// Switches the loop region off, or on around the playhead.
    pub fn toggle_loop_around(&mut self, playhead: i64)
        requires
            looping(old(self)@) || playhead + SECOND_US <= i64::MAX,
        ensures
            final(self)@ == loop_around(old(self)@, playhead as int),
    {
        if self.is_looping() {
            self.loop_start = None;
            self.loop_end = None;
        } else {
            let a: i64 = if playhead > SECOND_US {
                playhead - SECOND_US
            } else {
                0
            };
            let b: i64 = playhead + SECOND_US;
            self.loop_start = Some(a);
            self.loop_end = Some(
                if b > 1 {
                    b
                } else {
                    1
                },
            );
        }
    }

    /// Throws a switch in the header of a track.
    pub fn toggle_header(&mut self, lane: Lane, i: usize, button: HeaderButton)
        requires
            track_exists(old(self)@, lane, i as int),
        ensures
            final(self)@ == header_toggled(old(self)@, lane, i as int, button),
    {
        let ghost before = self@;
        match (lane, button) {
            (Lane::Video, HeaderButton::Mute) => {
                let on: bool = self.video_tracks[i].muted;
                self.video_tracks[i].muted = !on;
            },
            (Lane::Audio, HeaderButton::Mute) => {
                let on: bool = self.audio_tracks[i].muted;
                self.audio_tracks[i].muted = !on;
            },
            (Lane::Audio, HeaderButton::Solo) => {
                let on: bool = self.audio_tracks[i].solo;
                self.audio_tracks[i].solo = !on;
            },
            (Lane::Video, HeaderButton::Lock) => {
                let on: bool = self.video_tracks[i].locked;
                self.video_tracks[i].locked = !on;
            },
            (Lane::Audio, HeaderButton::Lock) => {
                let on: bool = self.audio_tracks[i].locked;
                self.audio_tracks[i].locked = !on;
            },
            (Lane::Text, HeaderButton::Lock) => {
                let on: bool = self.text_tracks[i].locked;
                self.text_tracks[i].locked = !on;
            },
            _ => {},
        }
        proof {
            let want = header_toggled(before, lane, i as int, button);
            assert(self@.video_tracks =~= want.video_tracks);
            assert(self@.audio_tracks =~= want.audio_tracks);
            assert(self@.text_tracks =~= want.text_tracks);
        }
    }
}

/// Splitting a clip at normal speed changes nothing of what plays when: the two
/// parts meet at the split and cover the time of the whole, each time comes from the
/// same place of the source, and the other clips stay as they are.
pub proof fn law_split_keeps_what_plays(clips: Seq<VideoClipView>, clip: int, at: i64, t: int)
    requires
        0 <= clip < clips.len(),
        clips[clip].speed.bits == ONE_BITS,
        clips[clip].source_out - clips[clip].source_in < 0x20_0000_0000_0000,
        splits(
            clips[clip].timeline_start as int,
            clips[clip].source_in as int,
            clips[clip].source_out as int,
            at as int,
        ),
    ensures
        ({
            let whole = clips[clip];
            let r = split_video_clips(clips, clip, at);
            let first = r[clip];
            let second = r[clip + 1];
            &&& r.len() == clips.len() + 1
            &&& first.start() == whole.start()
            &&& first.finish() == at
            &&& second.start() == at
            &&& second.finish() == whole.finish()
            &&& whole.active(t) <==> first.active(t) || second.active(t)
            &&& !(first.active(t) && second.active(t))
            &&& first.source_in + (t - first.start()) == whole.source_in + (t - whole.start())
            &&& second.source_in + (t - second.start()) == whole.source_in + (t - whole.start())
            &&& forall|i: int| 0 <= i < clip ==> r[i] == clips[i]
            &&& forall|i: int| clip < i < clips.len() ==> r[i + 1] == clips[i]
        }),
{
    let whole = clips[clip];
    let src = (whole.source_in + (at - whole.timeline_start)) as i64;
    assert(whole.speed == Float32 { bits: ONE_BITS });
    law_normal_speed(whole.source_in, whole.source_out, 0);
    law_normal_speed(whole.source_in, src, 0);
    law_normal_speed(src, whole.source_out, 0);
}

/// The same of audio clips.
pub proof fn law_split_keeps_what_sounds(clips: Seq<AudioClipView>, clip: int, at: i64, t: int)
    requires
        0 <= clip < clips.len(),
        clips[clip].speed.bits == ONE_BITS,
        clips[clip].source_out - clips[clip].source_in < 0x20_0000_0000_0000,
        splits(
            clips[clip].timeline_start as int,
            clips[clip].source_in as int,
            clips[clip].source_out as int,
            at as int,
        ),
    ensures
        ({
            let whole = clips[clip];
            let r = split_audio_clips(clips, clip, at);
            let first = r[clip];
            let second = r[clip + 1];
            &&& r.len() == clips.len() + 1
            &&& first.start() == whole.start()
            &&& first.finish() == at
            &&& second.start() == at
            &&& second.finish() == whole.finish()
            &&& whole.active(t) <==> first.active(t) || second.active(t)
            &&& !(first.active(t) && second.active(t))
            &&& first.source_in + (t - first.start()) == whole.source_in + (t - whole.start())
            &&& second.source_in + (t - second.start()) == whole.source_in + (t - whole.start())
            &&& forall|i: int| 0 <= i < clip ==> r[i] == clips[i]
            &&& forall|i: int| clip < i < clips.len() ==> r[i + 1] == clips[i]
        }),
{
    let whole = clips[clip];
    let src = (whole.source_in + (at - whole.timeline_start)) as i64;
    assert(whole.speed == Float32 { bits: ONE_BITS });
    law_normal_speed(whole.source_in, whole.source_out, 0);
    law_normal_speed(whole.source_in, src, 0);
    law_normal_speed(src, whole.source_out, 0);
}

/// Of some tracks, only the clips of one change.
pub open spec fn one_track_changes<V>(
    a: Seq<TrackView<V>>,
    b: Seq<TrackView<V>>,
    track: int,
) -> bool {
    &&& b.len() == a.len()
    &&& forall|i: int| 0 <= i < a.len() && i != track ==> #[trigger] b[i] == a[i]
    &&& 0 <= track < a.len() ==> {
        let (x, y) = (a[track], b[track]);
        &&& y.muted == x.muted
        &&& y.locked == x.locked
        &&& y.name == x.name
        &&& y.solo == x.solo
        &&& y.color == x.color
        &&& y.gain_db == x.gain_db
    }
}

/// Of two projects, only the clips of one track differ.
pub open spec fn differs_on_track(p: ProjectView, q: ProjectView, lane: Lane, track: int) -> bool {
    &&& match lane {
        Lane::Video => {
            &&& one_track_changes(p.video_tracks, q.video_tracks, track)
            &&& q.audio_tracks == p.audio_tracks
            &&& q.text_tracks == p.text_tracks
        },
        Lane::Audio => {
            &&& one_track_changes(p.audio_tracks, q.audio_tracks, track)
            &&& q.video_tracks == p.video_tracks
            &&& q.text_tracks == p.text_tracks
        },
        Lane::Text => {
            &&& one_track_changes(p.text_tracks, q.text_tracks, track)
            &&& q.video_tracks == p.video_tracks
            &&& q.audio_tracks == p.audio_tracks
        },
    }
    &&& q.name == p.name
    &&& q.assets == p.assets
    &&& q.fps == p.fps
    &&& q.sample_rate == p.sample_rate
    &&& q.width == p.width
    &&& q.height == p.height
    &&& q.loop_start == p.loop_start
    &&& q.loop_end == p.loop_end
    &&& q.markers == p.markers
    &&& q.ripple == p.ripple
    &&& q.master_gain == p.master_gain
}

/// Of two sequences, only one item differs.
pub open spec fn one_item_changes<V>(a: Seq<V>, b: Seq<V>, item: int) -> bool {
    &&& b.len() == a.len()
    &&& forall|i: int| 0 <= i < a.len() && i != item ==> #[trigger] b[i] == a[i]
}

/// Two video clips show the same in the same way, but for which stretch of it and when.
pub open spec fn looks_alike(a: VideoClipView, b: VideoClipView) -> bool {
    &&& a.asset == b.asset
    &&& a.opacity == b.opacity
    &&& a.transform == b.transform
    &&& a.speed == b.speed
    &&& a.blend == b.blend
    &&& a.grade == b.grade
    &&& a.flip_x == b.flip_x
    &&& a.flip_y == b.flip_y
    &&& a.crop == b.crop
    &&& a.transition_us == b.transition_us
    &&& a.keyframes == b.keyframes
}

/// Two audio clips sound the same, but for which stretch of it and when.
pub open spec fn sounds_alike(a: AudioClipView, b: AudioClipView) -> bool {
    &&& a.asset == b.asset
    &&& a.gain_db == b.gain_db
    &&& a.fade_in_us == b.fade_in_us
    &&& a.fade_out_us == b.fade_out_us
    &&& a.speed == b.speed
    &&& a.envelope == b.envelope
    &&& a.solo == b.solo
}

/// Two texts read the same, but for when they show.
pub open spec fn reads_alike(a: TextClipView, b: TextClipView) -> bool {
    &&& a.text == b.text
    &&& a.style == b.style
    &&& a.transform == b.transform
    &&& a.opacity == b.opacity
}

/// A split makes two clips of one at any speed: both look or sound as the whole did, the
/// first begins where the whole began and the second ends where it ended, and where the
/// source of the first ends that of the second goes on. All else stays, and at a time that
/// is not inside the clip nothing changes.
pub proof fn law_split_makes_two_alike(p: ProjectView, track: int, clip: int, at: i64)
    ensures
        has_clip(p.video_tracks, track, clip) ==> {
            let c = p.video_tracks[track].clips[clip];
            let q = split_at(p, Lane::Video, track, clip, at);
            let (before, after) = (p.video_tracks[track].clips, q.video_tracks[track].clips);
            let (a, b) = (after[clip], after[clip + 1]);
            if c.timeline_start < at < c.timeline_start + (c.source_out - c.source_in) {
                &&& differs_on_track(p, q, Lane::Video, track)
                &&& after.len() == before.len() + 1
                &&& forall|i: int| 0 <= i < clip ==> #[trigger] after[i] == before[i]
                &&& forall|i: int|
                    clip + 1 < i < after.len() ==> #[trigger] after[i] == before[i - 1]
                &&& looks_alike(a, c) && looks_alike(b, c)
                &&& a.timeline_start == c.timeline_start && b.timeline_start == at
                &&& a.source_in == c.source_in && b.source_out == c.source_out
                &&& a.source_out == b.source_in
                &&& a.source_out - a.source_in == at - c.timeline_start
            } else {
                q == p
            }
        },
        has_clip(p.audio_tracks, track, clip) ==> {
            let c = p.audio_tracks[track].clips[clip];
            let q = split_at(p, Lane::Audio, track, clip, at);
            let (before, after) = (p.audio_tracks[track].clips, q.audio_tracks[track].clips);
            let (a, b) = (after[clip], after[clip + 1]);
            if c.timeline_start < at < c.timeline_start + (c.source_out - c.source_in) {
                &&& differs_on_track(p, q, Lane::Audio, track)
                &&& after.len() == before.len() + 1
                &&& forall|i: int| 0 <= i < clip ==> #[trigger] after[i] == before[i]
                &&& forall|i: int|
                    clip + 1 < i < after.len() ==> #[trigger] after[i] == before[i - 1]
                &&& sounds_alike(a, c) && sounds_alike(b, c)
                &&& a.timeline_start == c.timeline_start && b.timeline_start == at
                &&& a.source_in == c.source_in && b.source_out == c.source_out
                &&& a.source_out == b.source_in
                &&& a.source_out - a.source_in == at - c.timeline_start
            } else {
                q == p
            }
        },
        split_at(p, Lane::Text, track, clip, at) == p,
{
}

/// Moving, nudging and trimming a clip change that clip alone.
pub proof fn law_edits_change_one_clip(
    p: ProjectView,
    lane: Lane,
    track: int,
    clip: int,
    t: i64,
    delta: int,
)
    requires
        clip_exists(p, lane, track, clip),
    ensures
        forall|q: ProjectView|
            q == moved_clip(p, lane, track, clip, t) || q == nudged(p, lane, track, clip, delta)
                || q == trimmed_left(p, lane, track, clip, t as int) || q == trimmed_right(
                p,
                lane,
                track,
                clip,
                t as int,
            ) ==> {
                &&& #[trigger] differs_on_track(p, q, lane, track)
                &&& match lane {
                    Lane::Video => {
                        let (a, b) = (p.video_tracks[track].clips, q.video_tracks[track].clips);
                        one_item_changes(a, b, clip) && looks_alike(a[clip], b[clip])
                    },
                    Lane::Audio => {
                        let (a, b) = (p.audio_tracks[track].clips, q.audio_tracks[track].clips);
                        one_item_changes(a, b, clip) && sounds_alike(a[clip], b[clip])
                    },
                    Lane::Text => {
                        let (a, b) = (p.text_tracks[track].clips, q.text_tracks[track].clips);
                        one_item_changes(a, b, clip) && reads_alike(a[clip], b[clip])
                    },
                }
            },
{
}

/// A moved clip starts where it was moved to and plays the same stretch of its source; a
/// nudged one starts `delta` later, though not before zero. A text keeps its length.
pub proof fn law_moved_clips_start_there(
    p: ProjectView,
    lane: Lane,
    track: int,
    clip: int,
    start: i64,
    delta: int,
)
    requires
        clip_exists(p, lane, track, clip),
        can_move(p, lane, track, clip, start as int),
        can_nudge(p, lane, track, clip, delta),
    ensures
        ({
            let q = moved_clip(p, lane, track, clip, start);
            let r = nudged(p, lane, track, clip, delta);
            match lane {
                Lane::Video => {
                    let a = p.video_tracks[track].clips[clip];
                    let b = q.video_tracks[track].clips[clip];
                    let c = r.video_tracks[track].clips[clip];
                    &&& b.timeline_start == start
                    &&& b.source_in == a.source_in && b.source_out == a.source_out
                    &&& c.timeline_start == a.timeline_start + delta || (c.timeline_start == 0
                        && a.timeline_start + delta < 0)
                    &&& c.source_in == a.source_in && c.source_out == a.source_out
                },
                Lane::Audio => {
                    let a = p.audio_tracks[track].clips[clip];
                    let b = q.audio_tracks[track].clips[clip];
                    let c = r.audio_tracks[track].clips[clip];
                    &&& b.timeline_start == start
                    &&& b.source_in == a.source_in && b.source_out == a.source_out
                    &&& c.timeline_start == a.timeline_start + delta || (c.timeline_start == 0
                        && a.timeline_start + delta < 0)
                    &&& c.source_in == a.source_in && c.source_out == a.source_out
                },
                Lane::Text => {
                    let a = p.text_tracks[track].clips[clip];
                    let b = q.text_tracks[track].clips[clip];
                    let c = r.text_tracks[track].clips[clip];
                    let len = a.timeline_end - a.timeline_start;
                    &&& b.timeline_start == start
                    &&& b.timeline_end - b.timeline_start == len
                    &&& c.timeline_start == a.timeline_start + delta || (c.timeline_start == 0
                        && a.timeline_start + delta < 0)
                    &&& c.timeline_end - c.timeline_start == len
                },
            }
        }),
{
}

/// Moving a clip changes where it starts, not how long it is.
pub proof fn law_moving_keeps_length(v: VideoClipView, a: AudioClipView, x: TextClipView, start: i64)
    requires
        x.fits_at(start as int),
    ensures
        v.moved_to(start).start() == start,
        v.moved_to(start).finish() - start == v.finish() - v.start(),
        a.moved_to(start).start() == start,
        a.moved_to(start).finish() - start == a.finish() - a.start(),
        x.moved_to(start).start() == start,
        x.moved_to(start).finish() - start == x.finish() - x.start(),
{
}

/// What removing a clip does to the `i`th of the clips that stay: in ripple mode a
/// later one moves left by the length of the removed one, as long as it was, though
/// not before zero; an earlier one stays, and out of ripple mode so do all.
pub open spec fn gap_closed<V: Placed>(clips: Seq<V>, clip: int, ripple: bool, i: int) -> bool {
    let gone = clips[clip];
    let len = gone.finish() - gone.start();
    let rest = clips_without(clips, clip, ripple);
    let before = clips.remove(clip)[i];
    let after = rest[i];
    let to = not_below_zero(before.start() - len);
    &&& rest.len() == clips.len() - 1
    &&& !ripple || len <= 0 || before.start() < gone.start() ==> after == before
    &&& ripple && len > 0 && before.start() >= gone.start() && before.fits_at(to) ==> {
        &&& after.start() == to
        &&& after.finish() - after.start() == before.finish() - before.start()
    }
}

/// Removing a clip in ripple mode closes the gap on a track of any kind.
pub proof fn law_ripple_closes_the_gap(
    videos: Seq<VideoClipView>,
    audios: Seq<AudioClipView>,
    texts: Seq<TextClipView>,
    clip: int,
    ripple: bool,
    i: int,
)
    ensures
        0 <= clip < videos.len() && 0 <= i < videos.len() - 1 ==> gap_closed(
            videos,
            clip,
            ripple,
            i,
        ),
        0 <= clip < audios.len() && 0 <= i < audios.len() - 1 ==> gap_closed(
            audios,
            clip,
            ripple,
            i,
        ),
        0 <= clip < texts.len() && 0 <= i < texts.len() - 1 ==> gap_closed(texts, clip, ripple, i),
{
}

/// The time position of a dragged clip: where the pointer is, less the place at
/// which the clip was grabbed, not before zero.
pub open spec fn dragged_start(t: int, grab: int) -> int {
    not_below_zero(t - grab)
}

/// The project with a clip moved to a start; nothing where there is no such clip.
pub open spec fn moved_clip(p: ProjectView, lane: Lane, track: int, clip: int, start: i64) -> ProjectView {
    if !clip_exists(p, lane, track, clip) {
        p
    } else {
        match lane {
            Lane::Video => ProjectView {
                video_tracks: with_clip(
                    p.video_tracks,
                    track,
                    clip,
                    p.video_tracks[track].clips[clip].moved_to(start),
                ),
                ..p
            },
            Lane::Audio => ProjectView {
                audio_tracks: with_clip(
                    p.audio_tracks,
                    track,
                    clip,
                    p.audio_tracks[track].clips[clip].moved_to(start),
                ),
                ..p
            },
            Lane::Text => ProjectView {
                text_tracks: with_clip(
                    p.text_tracks,
                    track,
                    clip,
                    p.text_tracks[track].clips[clip].moved_to(start),
                ),
                ..p
            },
        }
    }
}

/// The clip can start there.
pub open spec fn can_move(p: ProjectView, lane: Lane, track: int, clip: int, start: int) -> bool {
    clip_exists(p, lane, track, clip) ==> match lane {
        Lane::Video => p.video_tracks[track].clips[clip].fits_at(start),
        Lane::Audio => p.audio_tracks[track].clips[clip].fits_at(start),
        Lane::Text => p.text_tracks[track].clips[clip].fits_at(start),
    }
}

pub open spec fn at_least_one(n: int) -> int {
    if n > 1 {
        n
    } else {
        1
    }
}

pub open spec fn clamped_time(x: int, low: int, high: int) -> int {
    if x < low {
        low
    } else if x > high {
        high
    } else {
        x
    }
}

/// The source time at the left edge of a clip that is trimmed at timeline time `t`:
/// not before the start of the source, and at least a frame before its end.
pub open spec fn trimmed_in(
    source_in: int,
    source_out: int,
    start: int,
    speed: Float32,
    t: int,
    frame: int,
) -> int {
    clamped_time(
        source_in + source_offset(not_below_zero(t - start) as i64, speed),
        0,
        source_out - at_least_one(frame),
    )
}

/// The left edge can be computed, and a frame of the source is left.
pub open spec fn can_trim_in(
    source_in: int,
    source_out: int,
    start: int,
    speed: Float32,
    t: int,
    frame: int,
) -> bool {
    &&& is_time(t - start)
    &&& is_time(source_in + source_offset(not_below_zero(t - start) as i64, speed))
    &&& source_out - at_least_one(frame) >= 0
}

/// The source time at the right edge of a clip that is trimmed at timeline time `t`:
/// it moves in, by at least a frame, and stays a frame after the left edge and
/// within the asset.
pub open spec fn trimmed_out(
    source_in: i64,
    source_out: i64,
    start: int,
    speed: Float32,
    t: int,
    frame: int,
    longest: int,
) -> int {
    let local = if t - start > frame {
        t - start
    } else {
        frame
    };
    let usable = at_least_one(timeline_length(source_in, source_out, speed) - at_least_one(frame));
    let at = if local < usable {
        local
    } else {
        usable
    };
    clamped_time(
        source_in + source_offset(at as i64, speed),
        source_in + at_least_one(frame),
        longest,
    )
}

/// The right edge can be computed, and the asset is at least a frame longer than
/// the left edge.
pub open spec fn can_trim_out(
    source_in: i64,
    source_out: i64,
    start: int,
    speed: Float32,
    t: int,
    frame: int,
    longest: int,
) -> bool {
    let local = if t - start > frame {
        t - start
    } else {
        frame
    };
    let length = timeline_length(source_in, source_out, speed);
    let usable = at_least_one(length - at_least_one(frame));
    let at = if local < usable {
        local
    } else {
        usable
    };
    &&& is_time(t - start)
    &&& is_time(length - at_least_one(frame))
    &&& is_time(source_in + source_offset(at as i64, speed))
    &&& source_in + at_least_one(frame) <= longest
}

/// The length of the asset of a clip, or the end of its source where there is no
/// such asset.
pub open spec fn longest_out(p: ProjectView, id: AssetId, source_out: i64) -> i64 {
    if p.assets.assets.contains_key(id.0) {
        p.assets.assets[id.0].duration_us
    } else {
        source_out
    }
}

/// A text trimmed on the left at `t`: it keeps a frame, starts no earlier than a
/// frame after its old start, and not before zero.
pub open spec fn text_trimmed_in(c: TextClipView, t: int, frame: int) -> TextClipView {
    let s = if t > c.timeline_start + frame {
        t
    } else {
        c.timeline_start + frame
    };
    let latest = c.timeline_end - at_least_one(frame);
    let start = not_below_zero(
        if s < latest {
            s
        } else {
            latest
        },
    );
    TextClipView {
        timeline_start: start as i64,
        timeline_end: if c.timeline_end <= start {
            (start + frame) as i64
        } else {
            c.timeline_end
        },
        ..c
    }
}

pub open spec fn can_trim_text_in(c: TextClipView, t: int, frame: int) -> bool {
    let s = if t > c.timeline_start + frame {
        t
    } else {
        c.timeline_start + frame
    };
    let latest = c.timeline_end - at_least_one(frame);
    let start = not_below_zero(
        if s < latest {
            s
        } else {
            latest
        },
    );
    &&& is_time(c.timeline_start + frame)
    &&& is_time(latest)
    &&& c.timeline_end <= start ==> is_time(start + frame)
}

/// The project with the left edge of a clip dragged to `t`.
pub open spec fn trimmed_left(p: ProjectView, lane: Lane, track: int, clip: int, t: int) -> ProjectView {
    let frame = trim_length(p.fps);
    if !clip_exists(p, lane, track, clip) {
        p
    } else {
        match lane {
            Lane::Video => {
                let c = p.video_tracks[track].clips[clip];
                let s = trimmed_in(
                    c.source_in as int,
                    c.source_out as int,
                    c.timeline_start as int,
                    c.speed,
                    t,
                    frame,
                );
                ProjectView {
                    video_tracks: with_clip(
                        p.video_tracks,
                        track,
                        clip,
                        VideoClipView { source_in: s as i64, ..c },
                    ),
                    ..p
                }
            },
            Lane::Audio => {
                let c = p.audio_tracks[track].clips[clip];
                let s = trimmed_in(
                    c.source_in as int,
                    c.source_out as int,
                    c.timeline_start as int,
                    c.speed,
                    t,
                    frame,
                );
                ProjectView {
                    audio_tracks: with_clip(
                        p.audio_tracks,
                        track,
                        clip,
                        AudioClipView { source_in: s as i64, ..c },
                    ),
                    ..p
                }
            },
            Lane::Text => ProjectView {
                text_tracks: with_clip(
                    p.text_tracks,
                    track,
                    clip,
                    text_trimmed_in(p.text_tracks[track].clips[clip], t, frame),
                ),
                ..p
            },
        }
    }
}

/// The left edge of the clip can be dragged to `t`.
pub open spec fn can_trim_left(p: ProjectView, lane: Lane, track: int, clip: int, t: int) -> bool {
    let frame = trim_length(p.fps);
    clip_exists(p, lane, track, clip) ==> match lane {
        Lane::Video => {
            let c = p.video_tracks[track].clips[clip];
            can_trim_in(
                c.source_in as int,
                c.source_out as int,
                c.timeline_start as int,
                c.speed,
                t,
                frame,
            )
        },
        Lane::Audio => {
            let c = p.audio_tracks[track].clips[clip];
            can_trim_in(
                c.source_in as int,
                c.source_out as int,
                c.timeline_start as int,
                c.speed,
                t,
                frame,
            )
        },
        Lane::Text => can_trim_text_in(p.text_tracks[track].clips[clip], t, frame),
    }
}

/// The project with the right edge of a clip dragged to `t`. The edge of a video
/// clip is placed as at normal speed.
pub open spec fn trimmed_right(p: ProjectView, lane: Lane, track: int, clip: int, t: int) -> ProjectView {
    let frame = trim_length(p.fps);
    if !clip_exists(p, lane, track, clip) {
        p
    } else {
        match lane {
            Lane::Video => {
                let c = p.video_tracks[track].clips[clip];
                let s = trimmed_out(
                    c.source_in,
                    c.source_out,
                    c.timeline_start as int,
                    Float32 { bits: ONE_BITS },
                    t,
                    frame,
                    longest_out(p, c.asset, c.source_out) as int,
                );
                ProjectView {
                    video_tracks: with_clip(
                        p.video_tracks,
                        track,
                        clip,
                        VideoClipView { source_out: s as i64, ..c },
                    ),
                    ..p
                }
            },
            Lane::Audio => {
                let c = p.audio_tracks[track].clips[clip];
                let s = trimmed_out(
                    c.source_in,
                    c.source_out,
                    c.timeline_start as int,
                    c.speed,
                    t,
                    frame,
                    longest_out(p, c.asset, c.source_out) as int,
                );
                ProjectView {
                    audio_tracks: with_clip(
                        p.audio_tracks,
                        track,
                        clip,
                        AudioClipView { source_out: s as i64, ..c },
                    ),
                    ..p
                }
            },
            Lane::Text => {
                let c = p.text_tracks[track].clips[clip];
                let end = if t > c.timeline_start + frame {
                    t
                } else {
                    c.timeline_start + frame
                };
                ProjectView {
                    text_tracks: with_clip(
                        p.text_tracks,
                        track,
                        clip,
                        TextClipView { timeline_end: end as i64, ..c },
                    ),
                    ..p
                }
            },
        }
    }
}

/// The right edge of the clip can be dragged to `t`.
pub open spec fn can_trim_right(p: ProjectView, lane: Lane, track: int, clip: int, t: int) -> bool {
    let frame = trim_length(p.fps);
    clip_exists(p, lane, track, clip) ==> match lane {
        Lane::Video => {
            let c = p.video_tracks[track].clips[clip];
            can_trim_out(
                c.source_in,
                c.source_out,
                c.timeline_start as int,
                Float32 { bits: ONE_BITS },
                t,
                frame,
                longest_out(p, c.asset, c.source_out) as int,
            )
        },
        Lane::Audio => {
            let c = p.audio_tracks[track].clips[clip];
            can_trim_out(
                c.source_in,
                c.source_out,
                c.timeline_start as int,
                c.speed,
                t,
                frame,
                longest_out(p, c.asset, c.source_out) as int,
            )
        },
        Lane::Text => is_time(p.text_tracks[track].clips[clip].timeline_start + frame),
    }
}

/// Trimming the left edge of a clip never leaves it before the start of its source
/// or past its end, and trimming the right edge never leaves it before the left
/// one or past the end of the asset.
pub proof fn law_trims_stay_inside(
    source_in: i64,
    source_out: i64,
    start: i64,
    speed: Float32,
    t: int,
    frame: int,
    longest: int,
)
    ensures
        can_trim_in(source_in as int, source_out as int, start as int, speed, t, frame) ==> 0
            <= trimmed_in(source_in as int, source_out as int, start as int, speed, t, frame)
            < source_out,
        can_trim_out(source_in, source_out, start as int, speed, t, frame, longest) ==> source_in
            < trimmed_out(source_in, source_out, start as int, speed, t, frame, longest) <= longest,
{
}

fn clamp_time(x: i64, low: i64, high: i64) -> (r: i64)
    ensures
        r == clamped_time(x as int, low as int, high as int),
{
    if x < low {
        low
    } else if x > high {
        high
    } else {
        x
    }
}

/// The new left edge of a video or audio clip, where it can be computed.
fn left_edge(
    source_in: i64,
    source_out: i64,
    start: i64,
    speed: Float32,
    t: i64,
    frame: i64,
) -> (r: Option<i64>)
    ensures
        r.is_some() == can_trim_in(
            source_in as int,
            source_out as int,
            start as int,
            speed,
            t as int,
            frame as int,
        ),
        r.is_some() ==> r.unwrap() == trimmed_in(
            source_in as int,
            source_out as int,
            start as int,
            speed,
            t as int,
            frame as int,
        ),
{
    let least: i64 = if frame > 1 {
        frame
    } else {
        1
    };
    if source_out < least {
        return None;
    }
    let local: i64 = match t.checked_sub(start) {
        Some(d) => d,
        None => {
            return None;
        },
    };
    let from: i64 = if local > 0 {
        local
    } else {
        0
    };
    match source_in.checked_add(offset_in_source(from, speed)) {
        Some(s) => Some(clamp_time(s, 0, source_out - least)),
        None => None,
    }
}

/// The new right edge of a video or audio clip, where it can be computed.
fn right_edge(
    source_in: i64,
    source_out: i64,
    start: i64,
    speed: Float32,
    t: i64,
    frame: i64,
    longest: i64,
) -> (r: Option<i64>)
    ensures
        r.is_some() == can_trim_out(
            source_in,
            source_out,
            start as int,
            speed,
            t as int,
            frame as int,
            longest as int,
        ),
        r.is_some() ==> r.unwrap() == trimmed_out(
            source_in,
            source_out,
            start as int,
            speed,
            t as int,
            frame as int,
            longest as int,
        ),
{
    let least: i64 = if frame > 1 {
        frame
    } else {
        1
    };
    let local: i64 = match t.checked_sub(start) {
        Some(d) => d,
        None => {
            return None;
        },
    };
    let room: i64 = match length_on_timeline(source_in, source_out, speed).checked_sub(least) {
        Some(d) => d,
        None => {
            return None;
        },
    };
    let local: i64 = if local > frame {
        local
    } else {
        frame
    };
    let usable: i64 = if room > 1 {
        room
    } else {
        1
    };
    let at: i64 = if local < usable {
        local
    } else {
        usable
    };
    let low: i64 = match source_in.checked_add(least) {
        Some(l) => l,
        None => {
            return None;
        },
    };
    if low > longest {
        return None;
    }
    match source_in.checked_add(offset_in_source(at, speed)) {
        Some(s) => Some(clamp_time(s, low, longest)),
        None => None,
    }
}

impl Project {
    /// Whether a clip can be moved to a start.
    pub fn can_move_clip(&self, lane: Lane, track: usize, clip: usize, start: i64) -> (r: bool)
        ensures
            r == can_move(self@, lane, track as int, clip as int, start as int),
    {
        if !self.has_clip(lane, track, clip) {
            return true;
        }
        match lane {
            Lane::Video => self.video_tracks[track].clips[clip].can_start_at(start),
            Lane::Audio => self.audio_tracks[track].clips[clip].can_start_at(start),
            Lane::Text => self.text_tracks[track].clips[clip].can_start_at(start),
        }
    }

    /// Moves a clip to a start, where there is such a clip.
    pub fn move_clip_to(&mut self, lane: Lane, track: usize, clip: usize, start: i64)
        requires
            can_move(old(self)@, lane, track as int, clip as int, start as int),
        ensures
            final(self)@ == moved_clip(old(self)@, lane, track as int, clip as int, start),
    {
        if !self.has_clip(lane, track, clip) {
            return;
        }
        match lane {
            Lane::Video => move_clip(&mut self.video_tracks, track, clip, start),
            Lane::Audio => move_clip(&mut self.audio_tracks, track, clip, start),
            Lane::Text => move_clip(&mut self.text_tracks, track, clip, start),
        }
    }

    /// Drags the left edge of a clip to `t`; `false`, with nothing done, where the
    /// edge cannot be placed there.
    pub fn trim_left(&mut self, lane: Lane, track: usize, clip: usize, t: i64) -> (done: bool)
        ensures
            done == can_trim_left(old(self)@, lane, track as int, clip as int, t as int),
            done ==> final(self)@ == trimmed_left(
                old(self)@,
                lane,
                track as int,
                clip as int,
                t as int,
            ),
            !done ==> *final(self) == *old(self),
    {
        if !self.has_clip(lane, track, clip) {
            return true;
        }
        let ghost before = self@;
        let frame: i64 = trim_us(self.fps);
        match lane {
            Lane::Video => {
                let c: &VideoClip = &self.video_tracks[track].clips[clip];
                assert(c@ == before.video_tracks[track as int].clips[clip as int]);
                let edge: Option<i64> = left_edge(
                    c.source_in,
                    c.source_out,
                    c.timeline_start,
                    c.speed,
                    t,
                    frame,
                );
                match edge {
                    Some(s) => {
                        self.video_tracks[track].clips[clip].source_in = s;
                        proof {
                            let want = trimmed_left(before, lane, track as int, clip as int, t as int);
                            assert(self@.video_tracks[track as int].clips
                                =~= want.video_tracks[track as int].clips);
                            assert(self@.video_tracks =~= want.video_tracks);
                        }
                        true
                    },
                    None => false,
                }
            },
            Lane::Audio => {
                let c: &AudioClip = &self.audio_tracks[track].clips[clip];
                assert(c@ == before.audio_tracks[track as int].clips[clip as int]);
                let edge: Option<i64> = left_edge(
                    c.source_in,
                    c.source_out,
                    c.timeline_start,
                    c.speed,
                    t,
                    frame,
                );
                match edge {
                    Some(s) => {
                        self.audio_tracks[track].clips[clip].source_in = s;
                        proof {
                            let want = trimmed_left(before, lane, track as int, clip as int, t as int);
                            assert(self@.audio_tracks[track as int].clips
                                =~= want.audio_tracks[track as int].clips);
                            assert(self@.audio_tracks =~= want.audio_tracks);
                        }
                        true
                    },
                    None => false,
                }
            },
            Lane::Text => {
                let c: &TextClip = &self.text_tracks[track].clips[clip];
                assert(c@ == before.text_tracks[track as int].clips[clip as int]);
                let least: i64 = if frame > 1 {
                    frame
                } else {
                    1
                };
                let end: i64 = c.timeline_end;
                let (after, latest): (i64, i64) = match (
                    c.timeline_start.checked_add(frame),
                    end.checked_sub(least),
                ) {
                    (Some(a), Some(l)) => (a, l),
                    _ => {
                        return false;
                    },
                };
                let s: i64 = if t > after {
                    t
                } else {
                    after
                };
                let s: i64 = if s < latest {
                    s
                } else {
                    latest
                };
                let start: i64 = if s > 0 {
                    s
                } else {
                    0
                };
                let new_end: i64 = if end <= start {
                    match start.checked_add(frame) {
                        Some(e) => e,
                        None => {
                            return false;
                        },
                    }
                } else {
                    end
                };
                self.text_tracks[track].clips[clip].timeline_start = start;
                self.text_tracks[track].clips[clip].timeline_end = new_end;
                proof {
                    let want = trimmed_left(before, lane, track as int, clip as int, t as int);
                    assert(self@.text_tracks[track as int].clips
                        =~= want.text_tracks[track as int].clips);
                    assert(self@.text_tracks =~= want.text_tracks);
                }
                true
            },
        }
    }

    fn longest(&self, id: AssetId, source_out: i64) -> (r: i64)
        ensures
            r == longest_out(self@, id, source_out),
    {
        match self.assets.get(id) {
            Some(a) => a.duration_us,
            None => source_out,
        }
    }

    /// Drags the right edge of a clip to `t`; `false`, with nothing done, where the
    /// edge cannot be placed there.
    pub fn trim_right(&mut self, lane: Lane, track: usize, clip: usize, t: i64) -> (done: bool)
        ensures
            done == can_trim_right(old(self)@, lane, track as int, clip as int, t as int),
            done ==> final(self)@ == trimmed_right(
                old(self)@,
                lane,
                track as int,
                clip as int,
                t as int,
            ),
            !done ==> *final(self) == *old(self),
    {
        if !self.has_clip(lane, track, clip) {
            return true;
        }
        let ghost before = self@;
        let frame: i64 = trim_us(self.fps);
        match lane {
            Lane::Video => {
                let c: &VideoClip = &self.video_tracks[track].clips[clip];
                assert(c@ == before.video_tracks[track as int].clips[clip as int]);
                let edge: Option<i64> = right_edge(
                    c.source_in,
                    c.source_out,
                    c.timeline_start,
                    Float32 { bits: ONE_BITS },
                    t,
                    frame,
                    self.longest(c.asset, c.source_out),
                );
                match edge {
                    Some(s) => {
                        self.video_tracks[track].clips[clip].source_out = s;
                        proof {
                            let want = trimmed_right(before, lane, track as int, clip as int, t as int);
                            assert(self@.video_tracks[track as int].clips
                                =~= want.video_tracks[track as int].clips);
                            assert(self@.video_tracks =~= want.video_tracks);
                        }
                        true
                    },
                    None => false,
                }
            },
            Lane::Audio => {
                let c: &AudioClip = &self.audio_tracks[track].clips[clip];
                assert(c@ == before.audio_tracks[track as int].clips[clip as int]);
                let edge: Option<i64> = right_edge(
                    c.source_in,
                    c.source_out,
                    c.timeline_start,
                    c.speed,
                    t,
                    frame,
                    self.longest(c.asset, c.source_out),
                );
                match edge {
                    Some(s) => {
                        self.audio_tracks[track].clips[clip].source_out = s;
                        proof {
                            let want = trimmed_right(before, lane, track as int, clip as int, t as int);
                            assert(self@.audio_tracks[track as int].clips
                                =~= want.audio_tracks[track as int].clips);
                            assert(self@.audio_tracks =~= want.audio_tracks);
                        }
                        true
                    },
                    None => false,
                }
            },
            Lane::Text => {
                let c: &TextClip = &self.text_tracks[track].clips[clip];
                assert(c@ == before.text_tracks[track as int].clips[clip as int]);
                let after: i64 = match c.timeline_start.checked_add(frame) {
                    Some(a) => a,
                    None => {
                        return false;
                    },
                };
                self.text_tracks[track].clips[clip].timeline_end = if t > after {
                    t
                } else {
                    after
                };
                proof {
                    let want = trimmed_right(before, lane, track as int, clip as int, t as int);
                    assert(self@.text_tracks[track as int].clips
                        =~= want.text_tracks[track as int].clips);
                    assert(self@.text_tracks =~= want.text_tracks);
                }
                true
            },
        }
    }

    /// Whether a clip can be removed.
    pub fn can_delete_clip(&self, lane: Lane, track: usize, clip: usize) -> (r: bool)
        requires
            clip_exists(self@, lane, track as int, clip as int),
        ensures
            r == can_delete(self@, lane, track as int, clip as int),
    {
        match lane {
            Lane::Video => removable(&self.video_tracks, track, clip, self.ripple),
            Lane::Audio => removable(&self.audio_tracks, track, clip, self.ripple),
            Lane::Text => removable(&self.text_tracks, track, clip, self.ripple),
        }
    }

    /// Whether a clip can be moved by `delta`.
    pub fn can_nudge_clip(&self, lane: Lane, track: usize, clip: usize, delta: i64) -> (r: bool)
        requires
            clip_exists(self@, lane, track as int, clip as int),
        ensures
            r == can_nudge(self@, lane, track as int, clip as int, delta as int),
    {
        let start: i64 = self.clip_start(lane, track, clip);
        let at: i128 = start as i128 + delta as i128;
        if at > i64::MAX as i128 {
            return false;
        }
        let to: i64 = if at > 0 {
            at as i64
        } else {
            0
        };
        match lane {
            Lane::Video => self.video_tracks[track].clips[clip].can_start_at(to),
            Lane::Audio => self.audio_tracks[track].clips[clip].can_start_at(to),
            Lane::Text => self.text_tracks[track].clips[clip].can_start_at(to),
        }
    }

    /// Whether the arithmetic of a split of a clip fits.
    pub fn can_split_clip(&self, lane: Lane, track: usize, clip: usize) -> (r: bool)
        ensures
            r == split_fits(self@, lane, track as int, clip as int),
    {
        if !self.has_clip(lane, track, clip) {
            return true;
        }
        match lane {
            Lane::Video => {
                let c: &VideoClip = &self.video_tracks[track].clips[clip];
                assert(c@ == self@.video_tracks[track as int].clips[clip as int]);
                match c.source_out.checked_sub(c.source_in) {
                    Some(d) => c.timeline_start.checked_add(d).is_some(),
                    None => false,
                }
            },
            Lane::Audio => {
                let c: &AudioClip = &self.audio_tracks[track].clips[clip];
                assert(c@ == self@.audio_tracks[track as int].clips[clip as int]);
                match c.source_out.checked_sub(c.source_in) {
                    Some(d) => c.timeline_start.checked_add(d).is_some(),
                    None => false,
                }
            },
            Lane::Text => true,
        }
    }

    /// Whether a copied clip can be pasted at a time.
    pub fn can_paste_at(&self, item: &ClipboardItem, at: i64) -> (r: bool)
        ensures
            r == can_paste(self@, item@, at),
    {
        match item {
            ClipboardItem::Video(_) => self.video_tracks.len() > 0,
            ClipboardItem::Audio(_) => self.audio_tracks.len() > 0,
            ClipboardItem::Text(c) => if self.text_tracks.len() == 0 {
                false
            } else {
                match c.timeline_end.checked_sub(c.timeline_start) {
                    Some(len) => if len > 0 {
                        at.checked_add(len).is_some()
                    } else {
                        at.checked_add(3 * SECOND_US).is_some()
                    },
                    None => false,
                }
            },
        }
    }

    fn clip_start(&self, lane: Lane, track: usize, clip: usize) -> (r: i64)
        requires
            clip_exists(self@, lane, track as int, clip as int),
        ensures
            r == clip_time(self@, lane, track as int, clip as int),
    {
        match lane {
            Lane::Video => self.video_tracks[track].clips[clip].start_us(),
            Lane::Audio => self.audio_tracks[track].clips[clip].start_us(),
            Lane::Text => self.text_tracks[track].clips[clip].start_us(),
        }
    }
}

/// The start of a clip; zero where there is none.
pub open spec fn clip_time(p: ProjectView, lane: Lane, track: int, clip: int) -> int {
    if !clip_exists(p, lane, track, clip) {
        0
    } else {
        match lane {
            Lane::Video => p.video_tracks[track].clips[clip].start(),
            Lane::Audio => p.audio_tracks[track].clips[clip].start(),
            Lane::Text => p.text_tracks[track].clips[clip].start(),
        }
    }
}

/// The start of a clip; zero where there is none.
pub fn clip_time_start(p: &Project, lane: Lane, track: usize, clip: usize) -> (r: i64)
    ensures
        r == clip_time(p@, lane, track as int, clip as int),
{
    if p.has_clip(lane, track, clip) {
        p.clip_start(lane, track, clip)
    } else {
        0
    }
}

fn removable<C: Clip>(tracks: &Vec<Track<C>>, track: usize, clip: usize, ripple: bool) -> (r: bool)
    where C::V: Placed
    requires
        has_clip(views(tracks@), track as int, clip as int),
    ensures
        r == can_remove(views(tracks@), track as int, clip as int, ripple),
{
    let clips: &Vec<C> = &tracks[track].clips;
    let ghost cs = views(tracks@)[track as int].clips;
    assert(cs == views(clips@));
    if !clips[clip].length_fits() {
        return false;
    }
    let len: i64 = clips[clip].length_us();
    let from: i64 = clips[clip].start_us();
    if !ripple || len <= 0 {
        return true;
    }
    let mut i: usize = 0;
    while i < clips.len()
        invariant
            i <= clips.len(),
            cs == views(clips@),
            cs == views(tracks@)[track as int].clips,
            clip < cs.len(),
            from == cs[clip as int].start(),
            len == cs[clip as int].finish() - from,
            len > 0,
            ripple,
            forall|k: int|
                0 <= k < i && k != clip && (#[trigger] cs[k]).start() >= from ==> cs[k].fits_at(
                    closed_up_start(cs[k].start(), from as int, len as int),
                ),
        decreases clips.len() - i,
    {
        let start: i64 = clips[i].start_us();
        assert(cs[i as int].start() == start);
        if i != clip && start >= from {
            let to: i64 = if start > len {
                start - len
            } else {
                0
            };
            if !clips[i].can_start_at(to) {
                return false;
            }
        }
        i = i + 1;
    }
    true
}

/// Some clip of the tracks shows the asset.
pub open spec fn video_uses(tracks: Seq<TrackView<VideoClipView>>, id: AssetId) -> bool {
    exists|i: int, j: int|
        0 <= i < tracks.len() && 0 <= j < tracks[i].clips.len() && (#[trigger] tracks[i].clips[j]).asset
            == id
}

pub open spec fn audio_uses(tracks: Seq<TrackView<AudioClipView>>, id: AssetId) -> bool {
    exists|i: int, j: int|
        0 <= i < tracks.len() && 0 <= j < tracks[i].clips.len() && (#[trigger] tracks[i].clips[j]).asset
            == id
}

/// Some video or audio clip refers to the asset.
pub open spec fn in_use(p: ProjectView, id: AssetId) -> bool {
    video_uses(p.video_tracks, id) || audio_uses(p.audio_tracks, id)
}

/// The project without an asset; an asset in use stays.
pub open spec fn asset_removed(p: ProjectView, id: AssetId) -> ProjectView {
    if in_use(p, id) {
        p
    } else {
        ProjectView {
            assets: AssetStoreView { assets: p.assets.assets.remove(id.0), ..p.assets },
            ..p
        }
    }
}

/// Every clip refers to an asset of the project.
pub open spec fn clips_have_assets(p: ProjectView) -> bool {
    &&& forall|i: int, j: int|
        0 <= i < p.video_tracks.len() && 0 <= j < p.video_tracks[i].clips.len()
            ==> p.assets.assets.contains_key((#[trigger] p.video_tracks[i].clips[j]).asset.0)
    &&& forall|i: int, j: int|
        0 <= i < p.audio_tracks.len() && 0 <= j < p.audio_tracks[i].clips.len()
            ==> p.assets.assets.contains_key((#[trigger] p.audio_tracks[i].clips[j]).asset.0)
}

/// Removing an asset never leaves a clip without one.
pub proof fn law_removal_strands_no_clip(p: ProjectView, id: AssetId)
    requires
        clips_have_assets(p),
    ensures
        clips_have_assets(asset_removed(p, id)),
{
    if !in_use(p, id) {
        let q = asset_removed(p, id);
        assert forall|i: int, j: int|
            0 <= i < q.video_tracks.len() && 0 <= j < q.video_tracks[i].clips.len() implies q.assets.assets.contains_key(
        (#[trigger] q.video_tracks[i].clips[j]).asset.0) by {
            assert(p.video_tracks[i].clips[j].asset != id);
        }
        assert forall|i: int, j: int|
            0 <= i < q.audio_tracks.len() && 0 <= j < q.audio_tracks[i].clips.len() implies q.assets.assets.contains_key(
        (#[trigger] q.audio_tracks[i].clips[j]).asset.0) by {
            assert(p.audio_tracks[i].clips[j].asset != id);
        }
    }
}

impl Project {
    fn video_shows(&self, id: AssetId) -> (r: bool)
        ensures
            r == video_uses(self@.video_tracks, id),
    {
        let ghost vs = self@.video_tracks;
        let mut i: usize = 0;
        while i < self.video_tracks.len()
            invariant
                i <= self.video_tracks.len(),
                vs == self@.video_tracks,
                forall|k: int, l: int|
                    0 <= k < i && 0 <= l < vs[k].clips.len() ==> (#[trigger] vs[k].clips[l]).asset
                        != id,
            decreases self.video_tracks.len() - i,
        {
            let clips: &Vec<VideoClip> = &self.video_tracks[i].clips;
            let mut j: usize = 0;
            while j < clips.len()
                invariant
                    i < self.video_tracks.len(),
                    j <= clips.len(),
                    vs == self@.video_tracks,
                    clips@ == self.video_tracks@[i as int].clips@,
                    forall|l: int| 0 <= l < j ==> (#[trigger] vs[i as int].clips[l]).asset != id,
                decreases clips.len() - j,
            {
                if clips[j].asset.0 == id.0 {
                    assert(vs[i as int].clips[j as int].asset == id);
                    return true;
                }
                j = j + 1;
            }
            i = i + 1;
        }
        false
    }

    fn audio_plays(&self, id: AssetId) -> (r: bool)
        ensures
            r == audio_uses(self@.audio_tracks, id),
    {
        let ghost vs = self@.audio_tracks;
        let mut i: usize = 0;
        while i < self.audio_tracks.len()
            invariant
                i <= self.audio_tracks.len(),
                vs == self@.audio_tracks,
                forall|k: int, l: int|
                    0 <= k < i && 0 <= l < vs[k].clips.len() ==> (#[trigger] vs[k].clips[l]).asset
                        != id,
            decreases self.audio_tracks.len() - i,
        {
            let clips: &Vec<AudioClip> = &self.audio_tracks[i].clips;
            let mut j: usize = 0;
            while j < clips.len()
                invariant
                    i < self.audio_tracks.len(),
                    j <= clips.len(),
                    vs == self@.audio_tracks,
                    clips@ == self.audio_tracks@[i as int].clips@,
                    forall|l: int| 0 <= l < j ==> (#[trigger] vs[i as int].clips[l]).asset != id,
                decreases clips.len() - j,
            {
                if clips[j].asset.0 == id.0 {
                    assert(vs[i as int].clips[j as int].asset == id);
                    return true;
                }
                j = j + 1;
            }
            i = i + 1;
        }
        false
    }

    /// Whether some video or audio clip refers to an asset.
    pub fn uses_asset(&self, id: AssetId) -> (r: bool)
        ensures
            r == in_use(self@, id),
    {
        self.video_shows(id) || self.audio_plays(id)
    }

    /// Takes out an asset that is not in use; `false` where it is.
    pub fn remove_asset(&mut self, id: AssetId) -> (done: bool)
        ensures
            done == !in_use(old(self)@, id),
            final(self)@ == asset_removed(old(self)@, id),
            !done ==> *final(self) == *old(self),
    {
        if self.uses_asset(id) {
            return false;
        }
        self.assets.remove(id);
        true
    }
}

/// The length of a frame fits the frame rate: as many frames as there are in a second fill
/// it but for less than one microsecond each.
pub proof fn law_frames_fill_a_second(fps: Float64, n: int)
    requires
        fps@ == of_integer(double(), n),
        1 <= n <= 1_000_000,
    ensures
        n * frame_length(fps) <= 1_000_000 < n * (frame_length(fps) + 1),
        nudge_length(fps) == frame_length(fps),
        trim_length(fps) == frame_length(fps),
{
    let d = double();
    let u = pow2(1074);
    lemma2_to64_rest();
    law_integers_are_exact(d, n);
    law_integers_are_exact(d, 1);
    law_integers_are_exact(d, 1_000_000);
    law_whole_quotients(d, 1_000_000, n, i64::MIN as int, i64::MAX as int);
    lemma_integers_in_order(d, n, 1);
    let (q, r) = (1_000_000int / n, 1_000_000int % n);
    lemma_fundamental_div_mod(1_000_000, n);
    lemma_mod_bound(1_000_000, n);
    assert(1 <= q && n * (q + 1) == n * q + n) by (nonlinear_arith)
        requires
            1_000_000 == n * q + r,
            0 <= r < n,
            1 <= n <= 1_000_000,
    ;
    let units = lemma_quotient_between(d, 1_000_000, n as nat);
    assert(u <= q * u && 1 * u == u) by (nonlinear_arith)
        requires
            1 <= q,
    ;
    assert(larger(quotient(d, of_integer(d, 1_000_000), fps@), of_integer(d, 1)) == quotient(
        d,
        of_integer(d, 1_000_000),
        fps@,
    )) by {
        reveal(less);
    }
}

/// A trimmed edge goes where it is dragged: at normal speed the left edge of a clip leaves out
/// as much of its source as lies before the pointer, and the right edge of a video or audio
/// clip keeps as much as lies before it, where a frame is left and the source reaches that
/// far. The other edge stays, and the clip does not move.
pub proof fn law_trims_follow_the_pointer(p: ProjectView, track: int, clip: int, t: int)
    requires
        trim_length(p.fps) >= 1,
    ensures
        has_clip(p.video_tracks, track, clip) ==> {
            let c = p.video_tracks[track].clips[clip];
            let l = trimmed_left(p, Lane::Video, track, clip, t).video_tracks[track].clips[clip];
            let r = trimmed_right(p, Lane::Video, track, clip, t).video_tracks[track].clips[clip];
            let frame = trim_length(p.fps);
            let off = t - c.timeline_start;
            &&& l.timeline_start == c.timeline_start && l.source_out == c.source_out
            &&& r.timeline_start == c.timeline_start && r.source_in == c.source_in
            &&& c.speed.bits == ONE_BITS && 0 <= off < 0x20_0000_0000_0000 && 0 <= c.source_in + off
                <= c.source_out - frame ==> l.source_in == c.source_in + off
            &&& frame <= off <= c.source_out - c.source_in - frame && 0 <= c.source_out - c.source_in
                < 0x20_0000_0000_0000 && p.assets.assets.contains_key(c.asset.0) && c.source_in + off
                <= p.assets.assets[c.asset.0].duration_us ==> r.source_out == c.source_in + off
        },
        has_clip(p.audio_tracks, track, clip) ==> {
            let c = p.audio_tracks[track].clips[clip];
            let l = trimmed_left(p, Lane::Audio, track, clip, t).audio_tracks[track].clips[clip];
            let r = trimmed_right(p, Lane::Audio, track, clip, t).audio_tracks[track].clips[clip];
            let frame = trim_length(p.fps);
            let off = t - c.timeline_start;
            &&& l.timeline_start == c.timeline_start && l.source_out == c.source_out
            &&& r.timeline_start == c.timeline_start && r.source_in == c.source_in
            &&& c.speed.bits == ONE_BITS && 0 <= off < 0x20_0000_0000_0000 && 0 <= c.source_in + off
                <= c.source_out - frame ==> l.source_in == c.source_in + off
            &&& c.speed.bits == ONE_BITS && frame <= off <= c.source_out - c.source_in - frame && 0
                <= c.source_out - c.source_in < 0x20_0000_0000_0000 && p.assets.assets.contains_key(
                c.asset.0,
            ) && c.source_in + off <= p.assets.assets[c.asset.0].duration_us ==> r.source_out
                == c.source_in + off
        },
        has_clip(p.text_tracks, track, clip) && is_time(t) ==> {
            let c = p.text_tracks[track].clips[clip];
            let l = trimmed_left(p, Lane::Text, track, clip, t).text_tracks[track].clips[clip];
            let r = trimmed_right(p, Lane::Text, track, clip, t).text_tracks[track].clips[clip];
            let frame = trim_length(p.fps);
            &&& r.timeline_start == c.timeline_start
            &&& t >= c.timeline_start + frame ==> r.timeline_end == t
            &&& 0 <= c.timeline_start && c.timeline_start + frame <= t <= c.timeline_end - frame
                ==> l.timeline_start == t && l.timeline_end == c.timeline_end
        },
{
    let one = Float32 { bits: ONE_BITS };
    if has_clip(p.video_tracks, track, clip) {
        let c = p.video_tracks[track].clips[clip];
        lemma_normal_trim(c.source_in, c.source_out, c.timeline_start, t);
        if c.speed.bits == ONE_BITS {
            assert(c.speed == one);
        }
    }
    if has_clip(p.audio_tracks, track, clip) {
        let c = p.audio_tracks[track].clips[clip];
        lemma_normal_trim(c.source_in, c.source_out, c.timeline_start, t);
        if c.speed.bits == ONE_BITS {
            assert(c.speed == one);
        }
    }
}

proof fn lemma_normal_trim(source_in: i64, source_out: i64, start: i64, t: int)
    ensures
        0 <= t - start < 0x20_0000_0000_0000 ==> source_offset(
            (t - start) as i64,
            Float32 { bits: ONE_BITS },
        ) == t - start,
        0 <= source_out - source_in < 0x20_0000_0000_0000 ==> timeline_length(
            source_in,
            source_out,
            Float32 { bits: ONE_BITS },
        ) == source_out - source_in,
{
    if 0 <= t - start < 0x20_0000_0000_0000 {
        law_normal_speed(0, 0, (t - start) as i64);
    }
    if 0 <= source_out - source_in < 0x20_0000_0000_0000 {
        law_normal_speed(source_in, source_out, 0);
    }
}

/// Deleting a clip takes that clip and no other: the rest stay in their order, each as it
/// looked, sounded or read, and out of ripple mode they stay where they were.
pub proof fn law_deleting_takes_one_clip(p: ProjectView, lane: Lane, track: int, clip: int)
    requires
        clip_exists(p, lane, track, clip),
    ensures
        ({
            let q = deleted(p, lane, track, clip);
            &&& differs_on_track(p, q, lane, track)
            &&& match lane {
                Lane::Video => {
                    let (a, b) = (p.video_tracks[track].clips, q.video_tracks[track].clips);
                    &&& b.len() == a.len() - 1
                    &&& forall|i: int|
                        0 <= i < b.len() ==> looks_alike(
                            #[trigger] b[i],
                            a[if i < clip { i } else { i + 1 }],
                        )
                    &&& !p.ripple ==> forall|i: int|
                        0 <= i < b.len() ==> #[trigger] b[i] == a[if i < clip { i } else { i + 1 }]
                },
                Lane::Audio => {
                    let (a, b) = (p.audio_tracks[track].clips, q.audio_tracks[track].clips);
                    &&& b.len() == a.len() - 1
                    &&& forall|i: int|
                        0 <= i < b.len() ==> sounds_alike(
                            #[trigger] b[i],
                            a[if i < clip { i } else { i + 1 }],
                        )
                    &&& !p.ripple ==> forall|i: int|
                        0 <= i < b.len() ==> #[trigger] b[i] == a[if i < clip { i } else { i + 1 }]
                },
                Lane::Text => {
                    let (a, b) = (p.text_tracks[track].clips, q.text_tracks[track].clips);
                    &&& b.len() == a.len() - 1
                    &&& forall|i: int|
                        0 <= i < b.len() ==> reads_alike(
                            #[trigger] b[i],
                            a[if i < clip { i } else { i + 1 }],
                        )
                    &&& !p.ripple ==> forall|i: int|
                        0 <= i < b.len() ==> #[trigger] b[i] == a[if i < clip { i } else { i + 1 }]
                },
            }
        }),
{
}

/// Pasting adds one clip to the first track of its kind, behind the others, at the time of the
/// paste, and changes nothing else.
pub proof fn law_pasting_adds_one_clip(p: ProjectView, item: ClipboardView, at: i64)
    requires
        can_paste(p, item, at),
    ensures
        ({
            let q = pasted(p, item, at);
            match item {
                ClipboardView::Video(c) => {
                    let (a, b) = (p.video_tracks[0].clips, q.video_tracks[0].clips);
                    &&& differs_on_track(p, q, Lane::Video, 0)
                    &&& b.len() == a.len() + 1 && b.drop_last() == a
                    &&& looks_alike(b.last(), c) && b.last().timeline_start == at
                    &&& b.last().source_in == c.source_in && b.last().source_out == c.source_out
                },
                ClipboardView::Audio(c) => {
                    let (a, b) = (p.audio_tracks[0].clips, q.audio_tracks[0].clips);
                    &&& differs_on_track(p, q, Lane::Audio, 0)
                    &&& b.len() == a.len() + 1 && b.drop_last() == a
                    &&& sounds_alike(b.last(), c) && b.last().timeline_start == at
                    &&& b.last().source_in == c.source_in && b.last().source_out == c.source_out
                },
                ClipboardView::Text(c) => {
                    let (a, b) = (p.text_tracks[0].clips, q.text_tracks[0].clips);
                    let len = c.timeline_end - c.timeline_start;
                    &&& differs_on_track(p, q, Lane::Text, 0)
                    &&& b.len() == a.len() + 1 && b.drop_last() == a
                    &&& reads_alike(b.last(), c) && b.last().timeline_start == at
                    &&& b.last().timeline_end - at == (if len > 0 {
                        len
                    } else {
                        3_000_000
                    })
                },
            }
        }),
{
    let q = pasted(p, item, at);
    match item {
        ClipboardView::Video(c) => {
            assert(q.video_tracks[0].clips.drop_last() =~= p.video_tracks[0].clips);
        },
        ClipboardView::Audio(c) => {
            assert(q.audio_tracks[0].clips.drop_last() =~= p.audio_tracks[0].clips);
        },
        ClipboardView::Text(c) => {
            assert(q.text_tracks[0].clips.drop_last() =~= p.text_tracks[0].clips);
        },
    }
}

/// An asset placed on a track becomes its last clip: it starts at the given time, from the
/// beginning of the asset, at normal speed and fully opaque, for as long as the asset is, at
/// least a second, or for three seconds of an image on a video track. A track that is not
/// there gives way to the last one.
pub proof fn law_placed_assets_show_from_the_start(
    p: ProjectView,
    id: AssetId,
    track: int,
    at: i64,
)
    requires
        p.assets.assets.contains_key(id.0),
        0 <= track,
        0 < p.video_tracks.len(),
        0 < p.audio_tracks.len(),
    ensures
        ({
            let a = p.assets.assets[id.0];
            let (v, s) = (
                with_asset_clip(p, id, Lane::Video, track, at),
                with_asset_clip(p, id, Lane::Audio, track, at),
            );
            let i = if track < p.video_tracks.len() {
                track
            } else {
                p.video_tracks.len() - 1
            };
            let j = if track < p.audio_tracks.len() {
                track
            } else {
                p.audio_tracks.len() - 1
            };
            let (x, y) = (v.video_tracks[i].clips, s.audio_tracks[j].clips);
            let length = if a.duration_us > 1_000_000 {
                a.duration_us
            } else {
                1_000_000
            };
            &&& differs_on_track(p, v, Lane::Video, i) && x.drop_last() == p.video_tracks[i].clips
            &&& x.last().asset == id && x.last().timeline_start == at && x.last().source_in == 0
            &&& x.last().source_out == (if a.kind == AssetKind::Image {
                3_000_000
            } else {
                length
            })
            &&& x.last().speed@ == of_integer(single(), 1)
            &&& x.last().opacity@ == of_integer(single(), 1)
            &&& differs_on_track(p, s, Lane::Audio, j) && y.drop_last() == p.audio_tracks[j].clips
            &&& y.last().asset == id && y.last().timeline_start == at && y.last().source_in == 0
            &&& y.last().source_out == length
            &&& y.last().speed@ == of_integer(single(), 1)
            &&& with_asset_clip(p, id, Lane::Text, track, at) == p
        }),
{
    lemma2_to64();
    lemma_one();
    law_integers_are_exact(single(), 1);
    let (v, s) = (
        with_asset_clip(p, id, Lane::Video, track, at),
        with_asset_clip(p, id, Lane::Audio, track, at),
    );
    let (i, j) = (
        nearest_track(track, p.video_tracks.len() as int),
        nearest_track(track, p.audio_tracks.len() as int),
    );
    assert(v.video_tracks[i].clips.drop_last() =~= p.video_tracks[i].clips);
    assert(s.audio_tracks[j].clips.drop_last() =~= p.audio_tracks[j].clips);
}

/// A new text is the last of its track and shows for three seconds from the given time on.
pub proof fn law_new_texts_show_for_three_seconds(p: ProjectView, track: int, text: Seq<char>, at: i64)
    requires
        0 <= track < p.text_tracks.len(),
        at + 3_000_000 <= i64::MAX,
    ensures
        ({
            let q = with_text(p, track, text, at as int);
            let c = q.text_tracks[track].clips;
            &&& differs_on_track(p, q, Lane::Text, track)
            &&& c.drop_last() == p.text_tracks[track].clips
            &&& c.last().text == text
            &&& c.last().timeline_start == at && c.last().timeline_end == at + 3_000_000
            &&& forall|t: int| #[trigger] c.last().active(t) <==> at <= t < at + 3_000_000
        }),
{
    let q = with_text(p, track, text, at as int);
    assert(q.text_tracks[track].clips.drop_last() =~= p.text_tracks[track].clips);
}

/// Imported subtitles get a track of their own behind the others, with one clip for each, in
/// their order, that shows its text in its time.
pub proof fn law_subtitles_show_in_their_time(p: ProjectView, subs: Seq<SubtitleView>)
    ensures
        ({
            let q = with_subtitles(p, subs);
            let track = q.text_tracks.last();
            &&& q.text_tracks.drop_last() == p.text_tracks
            &&& q.video_tracks == p.video_tracks && q.audio_tracks == p.audio_tracks
            &&& q.assets == p.assets && q.markers == p.markers
            &&& !track.muted && track.clips.len() == subs.len()
            &&& forall|i: int|
                0 <= i < subs.len() ==> {
                    let c = #[trigger] track.clips[i];
                    &&& c.text == subs[i].text
                    &&& c.timeline_start == subs[i].start_us
                    &&& c.timeline_end == subs[i].end_us
                }
        }),
{
    assert(with_subtitles(p, subs).text_tracks.drop_last() =~= p.text_tracks);
}

/// A new marker stands at its time among the others, which all stay; nothing else changes.
pub proof fn law_new_markers_stand_at_their_time(p: ProjectView, at: i64)
    ensures
        ({
            let (q, r) = (with_marker(p, at), with_numbered_marker(p, at as int));
            &&& markers_in_order(q.markers)
            &&& exists|m: MarkerView|
                m.time_us == at && q.markers.to_multiset() == #[trigger] p.markers.to_multiset().insert(m)
            &&& q.video_tracks == p.video_tracks && q.audio_tracks == p.audio_tracks
            &&& q.text_tracks == p.text_tracks && q.assets == p.assets
            &&& r.markers.drop_last() == p.markers
            &&& r.markers.last().time_us == (if at > 0 {
                at
            } else {
                0
            })
            &&& r.video_tracks == p.video_tracks && r.audio_tracks == p.audio_tracks
            &&& r.text_tracks == p.text_tracks && r.assets == p.assets
        }),
{
    broadcast use vstd::seq_lib::group_to_multiset_ensures;

    let m = MarkerView { time_us: at, name: ""@, color: marker_color() };
    law_markers_sorted(p.markers.push(m));
    assert(with_marker(p, at).markers.to_multiset() =~= p.markers.to_multiset().insert(m));
    assert(with_numbered_marker(p, at as int).markers.drop_last() =~= p.markers);
}

/// A loop region that is switched on begins at the playhead and lasts four seconds where the
/// project goes on that long, and otherwise ends with it; around the playhead it reaches a
/// second to either side. Switched off, it is gone. Nothing else changes.
pub proof fn law_loops_begin_at_the_playhead(p: ProjectView, playhead: i64)
    requires
        0 <= playhead,
        playhead + 1_000_000 <= i64::MAX,
        p.duration() <= i64::MAX,
    ensures
        ({
            let (q, r) = (loop_toggled(p, playhead as int), loop_around(p, playhead as int));
            let on = p.loop_start.is_some() && p.loop_end.is_some();
            let d = p.duration();
            &&& on ==> q.loop_start.is_none() && q.loop_end.is_none()
            &&& on ==> r.loop_start.is_none() && r.loop_end.is_none()
            &&& !on && playhead + 4_000_000 <= d ==> q.loop_start == Some(playhead) && q.loop_end
                == Some((playhead + 4_000_000) as i64)
            &&& !on && playhead + 1_000_000 <= d < playhead + 4_000_000 ==> q.loop_start == Some(
                playhead,
            ) && q.loop_end == Some(d as i64)
            &&& !on && d <= 0 ==> q == p
            &&& !on ==> r.loop_end == Some((playhead + 1_000_000) as i64) && r.loop_start == Some(
                (if playhead > 1_000_000 {
                    playhead - 1_000_000
                } else {
                    0
                }) as i64,
            )
            &&& q.video_tracks == p.video_tracks && r.video_tracks == p.video_tracks
            &&& q.audio_tracks == p.audio_tracks && r.audio_tracks == p.audio_tracks
            &&& q.text_tracks == p.text_tracks && r.text_tracks == p.text_tracks
        }),
{
}

/// A switch of a track changes that switch alone: mute that of a video or audio track, solo
/// that of an audio track, lock that of any.
pub proof fn law_switches_change_one_flag(p: ProjectView, lane: Lane, i: int)
    requires
        track_exists(p, lane, i),
    ensures
        ({
            let m = header_toggled(p, lane, i, HeaderButton::Mute);
            let s = header_toggled(p, lane, i, HeaderButton::Solo);
            let l = header_toggled(p, lane, i, HeaderButton::Lock);
            match lane {
                Lane::Video => {
                    &&& one_item_changes(p.video_tracks, m.video_tracks, i)
                    &&& one_item_changes(p.video_tracks, l.video_tracks, i)
                    &&& m.video_tracks[i].muted == !p.video_tracks[i].muted
                    &&& m.video_tracks[i].clips == p.video_tracks[i].clips
                    &&& m.video_tracks[i].locked == p.video_tracks[i].locked
                    &&& l.video_tracks[i].locked == !p.video_tracks[i].locked
                    &&& l.video_tracks[i].clips == p.video_tracks[i].clips
                    &&& l.video_tracks[i].muted == p.video_tracks[i].muted
                    &&& s == p
                    &&& m.audio_tracks == p.audio_tracks && l.audio_tracks == p.audio_tracks
                },
                Lane::Audio => {
                    &&& one_item_changes(p.audio_tracks, m.audio_tracks, i)
                    &&& one_item_changes(p.audio_tracks, s.audio_tracks, i)
                    &&& one_item_changes(p.audio_tracks, l.audio_tracks, i)
                    &&& m.audio_tracks[i].muted == !p.audio_tracks[i].muted
                    &&& m.audio_tracks[i].solo == p.audio_tracks[i].solo
                    &&& m.audio_tracks[i].clips == p.audio_tracks[i].clips
                    &&& s.audio_tracks[i].solo == !p.audio_tracks[i].solo
                    &&& s.audio_tracks[i].muted == p.audio_tracks[i].muted
                    &&& s.audio_tracks[i].clips == p.audio_tracks[i].clips
                    &&& l.audio_tracks[i].locked == !p.audio_tracks[i].locked
                    &&& l.audio_tracks[i].muted == p.audio_tracks[i].muted
                    &&& l.audio_tracks[i].solo == p.audio_tracks[i].solo
                    &&& l.audio_tracks[i].clips == p.audio_tracks[i].clips
                    &&& m.video_tracks == p.video_tracks && s.video_tracks == p.video_tracks
                },
                Lane::Text => {
                    &&& one_item_changes(p.text_tracks, l.text_tracks, i)
                    &&& l.text_tracks[i].locked == !p.text_tracks[i].locked
                    &&& l.text_tracks[i].clips == p.text_tracks[i].clips
                    &&& m == p && s == p
                    &&& l.video_tracks == p.video_tracks && l.audio_tracks == p.audio_tracks
                },
            }
        }),
{
}

/// A new track is empty, heard and seen, and comes behind the others, which stay.
pub proof fn law_new_tracks_are_empty(p: ProjectView)
    ensures
        ({
            let (v, a, t) = (with_track(p, Lane::Video), with_track(p, Lane::Audio), with_text_track(p));
            &&& v.video_tracks.drop_last() == p.video_tracks && v.audio_tracks == p.audio_tracks
            &&& v.text_tracks == p.text_tracks && v.video_tracks.len() == p.video_tracks.len() + 1
            &&& v.video_tracks.last().clips.len() == 0 && !v.video_tracks.last().muted
            &&& a.audio_tracks.drop_last() == p.audio_tracks && a.video_tracks == p.video_tracks
            &&& a.text_tracks == p.text_tracks && a.audio_tracks.len() == p.audio_tracks.len() + 1
            &&& a.audio_tracks.last().clips.len() == 0 && !a.audio_tracks.last().muted
            &&& !a.audio_tracks.last().solo
            &&& t.text_tracks.drop_last() == p.text_tracks && t.video_tracks == p.video_tracks
            &&& t.audio_tracks == p.audio_tracks && t.text_tracks.len() == p.text_tracks.len() + 1
            &&& t.text_tracks.last().clips.len() == 0
        }),
{
    assert(with_track(p, Lane::Video).video_tracks.drop_last() =~= p.video_tracks);
    assert(with_track(p, Lane::Audio).audio_tracks.drop_last() =~= p.audio_tracks);
    assert(with_text_track(p).text_tracks.drop_last() =~= p.text_tracks);
}

} // verus!
