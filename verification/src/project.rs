//! A whole editing project, and questions about what is where on its timeline.

use crate::float::{Float32, Float64};
use crate::timeline::{
    duplicate_all, empty_track, views, AssetStore, AssetStoreView, AudioClip, AudioClipView,
    Duplicate, Marker, MarkerView, TextClip, TextClipView, Timecode, Track, TrackView, VideoClip,
    VideoClipView, DEFAULT_FPS_BITS, DEFAULT_SAMPLE_RATE, ZERO_BITS,
};
use vstd::prelude::*;

verus! {

/// Where a clip lies on the timeline.
pub trait Placed: Sized {
    spec fn start(self) -> int;

    spec fn finish(self) -> int;

    /// The clip, as long as it was, from `start` on.
    spec fn moved_to(self, start: i64) -> Self;

    /// The clip's end fits into a time position.
    spec fn fits(self) -> bool;

    /// The clip's length fits into a time position.
    spec fn measurable(self) -> bool;

    /// The clip's end can be computed when it starts at `start`.
    spec fn fits_at(self, start: int) -> bool;
}

/// A value fits into a time position.
pub open spec fn is_time(t: int) -> bool {
    i64::MIN <= t <= i64::MAX
}

impl Placed for VideoClipView {
    open spec fn start(self) -> int {
        self.timeline_start as int
    }

    open spec fn finish(self) -> int {
        self.end()
    }

    open spec fn moved_to(self, start: i64) -> VideoClipView {
        VideoClipView { timeline_start: start, ..self }
    }

    open spec fn fits(self) -> bool {
        is_time(self.end())
    }

    open spec fn measurable(self) -> bool {
        true
    }

    open spec fn fits_at(self, start: int) -> bool {
        is_time(start)
    }
}

impl Placed for AudioClipView {
    open spec fn start(self) -> int {
        self.timeline_start as int
    }

    open spec fn finish(self) -> int {
        self.end()
    }

    open spec fn moved_to(self, start: i64) -> AudioClipView {
        AudioClipView { timeline_start: start, ..self }
    }

    open spec fn fits(self) -> bool {
        is_time(self.end())
    }

    open spec fn measurable(self) -> bool {
        true
    }

    open spec fn fits_at(self, start: int) -> bool {
        is_time(start)
    }
}

impl Placed for TextClipView {
    open spec fn start(self) -> int {
        self.timeline_start as int
    }

    open spec fn finish(self) -> int {
        self.timeline_end as int
    }

    open spec fn moved_to(self, start: i64) -> TextClipView {
        TextClipView {
            timeline_start: start,
            timeline_end: (start + (self.timeline_end - self.timeline_start)) as i64,
            ..self
        }
    }

    open spec fn fits(self) -> bool {
        true
    }

    open spec fn measurable(self) -> bool {
        is_time(self.timeline_end - self.timeline_start)
    }

    open spec fn fits_at(self, start: int) -> bool {
        &&& is_time(start)
        &&& is_time(self.timeline_end - self.timeline_start)
        &&& is_time(start + (self.timeline_end - self.timeline_start))
    }
}

/// A clip of a track.
pub trait Clip: Duplicate where Self::V: Placed {
    fn start_us(&self) -> (r: i64)
        ensures
            r == self@.start(),
    ;

    fn finish_us(&self) -> (r: i64)
        requires
            self@.fits(),
        ensures
            r == self@.finish(),
    ;

    fn length_us(&self) -> (r: i64)
        requires
            self@.measurable(),
        ensures
            r == self@.finish() - self@.start(),
    ;

    /// Whether the end of the clip can be computed.
    fn end_fits(&self) -> (r: bool)
        ensures
            r == self@.fits(),
    ;

    /// Whether the length of the clip can be computed.
    fn length_fits(&self) -> (r: bool)
        ensures
            r == self@.measurable(),
    ;

    /// Whether the clip can start at `start`.
    fn can_start_at(&self, start: i64) -> (r: bool)
        ensures
            r == self@.fits_at(start as int),
    ;

    /// Moves the clip so that it starts at `start`.
    fn move_to(&mut self, start: i64)
        requires
            old(self)@.fits_at(start as int),
        ensures
            final(self)@ == old(self)@.moved_to(start),
    ;
}

impl Clip for VideoClip {
    fn end_fits(&self) -> (r: bool) {
        self.timeline_start.checked_add(self.on_timeline_us()).is_some()
    }

    fn length_fits(&self) -> (r: bool) {
        true
    }

    fn can_start_at(&self, start: i64) -> (r: bool) {
        true
    }

    fn start_us(&self) -> (r: i64) {
        self.timeline_start
    }

    fn finish_us(&self) -> (r: i64) {
        self.timeline_start + self.on_timeline_us()
    }

    fn length_us(&self) -> (r: i64) {
        self.on_timeline_us()
    }

    fn move_to(&mut self, start: i64) {
        self.timeline_start = start;
    }
}

impl Clip for AudioClip {
    fn end_fits(&self) -> (r: bool) {
        self.timeline_start.checked_add(self.on_timeline_us()).is_some()
    }

    fn length_fits(&self) -> (r: bool) {
        true
    }

    fn can_start_at(&self, start: i64) -> (r: bool) {
        true
    }

    fn start_us(&self) -> (r: i64) {
        self.timeline_start
    }

    fn finish_us(&self) -> (r: i64) {
        self.timeline_start + self.on_timeline_us()
    }

    fn length_us(&self) -> (r: i64) {
        self.on_timeline_us()
    }

    fn move_to(&mut self, start: i64) {
        self.timeline_start = start;
    }
}

impl Clip for TextClip {
    fn end_fits(&self) -> (r: bool) {
        true
    }

    fn length_fits(&self) -> (r: bool) {
        self.timeline_end.checked_sub(self.timeline_start).is_some()
    }

    fn can_start_at(&self, start: i64) -> (r: bool) {
        match self.timeline_end.checked_sub(self.timeline_start) {
            Some(len) => start.checked_add(len).is_some(),
            None => false,
        }
    }

    fn start_us(&self) -> (r: i64) {
        self.timeline_start
    }

    fn finish_us(&self) -> (r: i64) {
        self.timeline_end
    }

    fn length_us(&self) -> (r: i64) {
        self.timeline_end - self.timeline_start
    }

    fn move_to(&mut self, start: i64) {
        let len: i64 = self.timeline_end - self.timeline_start;
        self.timeline_start = start;
        self.timeline_end = start + len;
    }
}

/// A whole editing project.
#[derive(Debug, Clone)]
pub struct Project {
    pub name: String,
    pub video_tracks: Vec<Track<VideoClip>>,
    pub audio_tracks: Vec<Track<AudioClip>>,
    pub text_tracks: Vec<Track<TextClip>>,
    pub assets: AssetStore,
    pub fps: Float64,
    pub sample_rate: u32,
    pub width: u32,
    pub height: u32,
    pub loop_start: Option<Timecode>,
    pub loop_end: Option<Timecode>,
    pub markers: Vec<Marker>,
    pub ripple: bool,
    pub master_gain: Float32,
}

/// A project with its tracks and markers as sequences.
pub struct ProjectView {
    pub name: Seq<char>,
    pub video_tracks: Seq<TrackView<VideoClipView>>,
    pub audio_tracks: Seq<TrackView<AudioClipView>>,
    pub text_tracks: Seq<TrackView<TextClipView>>,
    pub assets: AssetStoreView,
    pub fps: Float64,
    pub sample_rate: u32,
    pub width: u32,
    pub height: u32,
    pub loop_start: Option<Timecode>,
    pub loop_end: Option<Timecode>,
    pub markers: Seq<MarkerView>,
    pub ripple: bool,
    pub master_gain: Float32,
}

impl View for Project {
    type V = ProjectView;

    open spec fn view(&self) -> ProjectView {
        ProjectView {
            name: self.name@,
            video_tracks: views(self.video_tracks@),
            audio_tracks: views(self.audio_tracks@),
            text_tracks: views(self.text_tracks@),
            assets: self.assets@,
            fps: self.fps,
            sample_rate: self.sample_rate,
            width: self.width,
            height: self.height,
            loop_start: self.loop_start,
            loop_end: self.loop_end,
            markers: views(self.markers@),
            ripple: self.ripple,
            master_gain: self.master_gain,
        }
    }
}

impl Duplicate for Project {
    fn duplicate(&self) -> (r: Project) {
        Project {
            name: self.name.clone(),
            video_tracks: duplicate_all(&self.video_tracks),
            audio_tracks: duplicate_all(&self.audio_tracks),
            text_tracks: duplicate_all(&self.text_tracks),
            assets: self.assets.copy(),
            fps: self.fps,
            sample_rate: self.sample_rate,
            width: self.width,
            height: self.height,
            loop_start: self.loop_start,
            loop_end: self.loop_end,
            markers: duplicate_all(&self.markers),
            ripple: self.ripple,
            master_gain: self.master_gain,
        }
    }
}

/// A project with nothing in it, and with no rates or size set.
pub open spec fn blank_project() -> ProjectView {
    ProjectView {
        name: ""@,
        video_tracks: Seq::empty(),
        audio_tracks: Seq::empty(),
        text_tracks: Seq::empty(),
        assets: AssetStoreView { assets: Map::empty(), next_id: 1 },
        fps: Float64 { bits: 0 },
        sample_rate: 0,
        width: 0,
        height: 0,
        loop_start: None,
        loop_end: None,
        markers: Seq::empty(),
        ripple: false,
        master_gain: Float32 { bits: ZERO_BITS },
    }
}

/// A fresh project: one empty track of each kind, full HD at the default rates.
pub open spec fn new_project() -> ProjectView {
    let black = seq![0u8, 0u8, 0u8];
    ProjectView {
        video_tracks: seq![empty_track("V1"@, black)],
        audio_tracks: seq![empty_track("A1"@, black)],
        text_tracks: seq![empty_track("T1"@, black)],
        fps: Float64 { bits: DEFAULT_FPS_BITS },
        sample_rate: DEFAULT_SAMPLE_RATE,
        width: 1920,
        height: 1080,
        ..blank_project()
    }
}

impl Default for Project {
    fn default() -> (p: Project)
        ensures
            p@ == blank_project(),
    {
        let p: Project = Project {
            name: "".to_string(),
            video_tracks: Vec::new(),
            audio_tracks: Vec::new(),
            text_tracks: Vec::new(),
            assets: AssetStore::new(),
            fps: Float64 { bits: 0 },
            sample_rate: 0,
            width: 0,
            height: 0,
            loop_start: None,
            loop_end: None,
            markers: Vec::new(),
            ripple: false,
            master_gain: Float32 { bits: ZERO_BITS },
        };
        proof {
            assert(views(p.video_tracks@) =~= Seq::empty());
            assert(views(p.audio_tracks@) =~= Seq::empty());
            assert(views(p.text_tracks@) =~= Seq::empty());
            assert(views(p.markers@) =~= Seq::empty());
        }
        p
    }
}

/// Every clip of every track has an end that fits into a time position.
pub open spec fn all_fit<V: Placed>(tracks: Seq<TrackView<V>>) -> bool {
    forall|i: int, j: int|
        0 <= i < tracks.len() && 0 <= j < tracks[i].clips.len()
            ==> (#[trigger] tracks[i].clips[j]).fits()
}

/// The latest end of some clips; zero where none ends later.
pub open spec fn last_finish<V: Placed>(clips: Seq<V>) -> int
    decreases clips.len(),
{
    if clips.len() == 0 {
        0
    } else {
        let before = last_finish(clips.drop_last());
        let here = clips.last().finish();
        if here > before {
            here
        } else {
            before
        }
    }
}

/// The latest end of the clips of some tracks; zero where none ends later.
pub open spec fn last_track_finish<V: Placed>(tracks: Seq<TrackView<V>>) -> int
    decreases tracks.len(),
{
    if tracks.len() == 0 {
        0
    } else {
        let before = last_track_finish(tracks.drop_last());
        let here = last_finish(tracks.last().clips);
        if here > before {
            here
        } else {
            before
        }
    }
}

/// The places of the clips of a track, up to the `n`th, that show at time `t`.
pub open spec fn showing<V: Placed>(clips: Seq<V>, t: int, n: int) -> Seq<int>
    decreases n,
{
    if n <= 0 {
        Seq::empty()
    } else {
        let c = clips[n - 1];
        if c.start() <= t < c.finish() {
            showing(clips, t, n - 1).push(n - 1)
        } else {
            showing(clips, t, n - 1)
        }
    }
}

/// What keeps a track out of a listing of active clips.
#[derive(Clone, Copy)]
pub enum Hidden {
    Locked,
    Muted,
}

pub open spec fn hides<C>(by: Hidden, track: TrackView<C>) -> bool {
    match by {
        Hidden::Locked => track.locked,
        Hidden::Muted => track.muted,
    }
}

/// Track and place of the clips that show at time `t`, by track and then by
/// place, without the hidden tracks.
pub open spec fn active<V: Placed>(
    tracks: Seq<TrackView<V>>,
    by: Hidden,
    t: int,
    n: int,
) -> Seq<(int, int)>
    decreases n,
{
    if n <= 0 {
        Seq::empty()
    } else {
        let track = tracks[n - 1];
        let before = active(tracks, by, t, n - 1);
        if hides(by, track) {
            before
        } else {
            let here = showing(track.clips, t, track.clips.len() as int);
            before + Seq::new(here.len(), |k: int| (n - 1, here[k]))
        }
    }
}

/// The first clip of a track that shows at time `t`, from place `from` on.
pub open spec fn first_showing<V: Placed>(clips: Seq<V>, t: int, from: int) -> Option<int>
    decreases clips.len() - from,
{
    if from < 0 || from >= clips.len() {
        None
    } else if clips[from].start() <= t < clips[from].finish() {
        Some(from)
    } else {
        first_showing(clips, t, from + 1)
    }
}

/// Track and place of the clip that shows on the topmost of the lowest `n`
/// tracks.
pub open spec fn top_showing<V: Placed>(tracks: Seq<TrackView<V>>, t: int, n: int) -> Option<(int, int)>
    decreases n,
{
    if n <= 0 {
        None
    } else {
        match first_showing(tracks[n - 1].clips, t, 0) {
            Some(place) => Some((n - 1, place)),
            None => top_showing(tracks, t, n - 1),
        }
    }
}

fn latest_end<C: Clip>(tracks: &Vec<Track<C>>) -> (r: i64) where C::V: Placed
    requires
        all_fit(views(tracks@)),
    ensures
        r == last_track_finish(views(tracks@)),
        r >= 0,
{
    let ghost vs = views(tracks@);
    let mut end: i64 = 0;
    let mut i: usize = 0;
    while i < tracks.len()
        invariant
            i <= tracks.len(),
            vs == views(tracks@),
            all_fit(vs),
            end == last_track_finish(vs.take(i as int)),
            end >= 0,
        decreases tracks.len() - i,
    {
        let clips: &Vec<C> = &tracks[i].clips;
        let ghost cs = vs[i as int].clips;
        let mut here: i64 = 0;
        let mut j: usize = 0;
        while j < clips.len()
            invariant
                i < tracks.len(),
                j <= clips.len(),
                vs == views(tracks@),
                cs == vs[i as int].clips,
                cs == views(clips@),
                all_fit(vs),
                here == last_finish(cs.take(j as int)),
                here >= 0,
            decreases clips.len() - j,
        {
            assert(vs[i as int].clips[j as int].fits());
            let e: i64 = clips[j].finish_us();
            proof {
                assert(cs.take(j + 1).drop_last() =~= cs.take(j as int));
                assert(cs.take(j + 1).last() == cs[j as int]);
            }
            if e > here {
                here = e;
            }
            j = j + 1;
        }
        proof {
            assert(cs.take(clips.len() as int) =~= cs);
            assert(vs.take(i + 1).drop_last() =~= vs.take(i as int));
            assert(vs.take(i + 1).last() == vs[i as int]);
        }
        if here > end {
            end = here;
        }
        i = i + 1;
    }
    assert(vs.take(tracks.len() as int) =~= vs);
    end
}

fn active_clips<C: Clip>(tracks: &Vec<Track<C>>, by: Hidden, t: i64) -> (r: Vec<(usize, usize)>)
    where C::V: Placed
    requires
        all_fit(views(tracks@)),
    ensures
        r@.len() == active(views(tracks@), by, t as int, tracks.len() as int).len(),
        forall|k: int|
            0 <= k < r@.len() ==> {
                let p = active(views(tracks@), by, t as int, tracks.len() as int)[k];
                &&& (#[trigger] r@[k]).0 == p.0
                &&& r@[k].1 == p.1
                &&& r@[k].0 < tracks.len()
                &&& r@[k].1 < tracks@[r@[k].0 as int].clips.len()
            },
{
    let ghost vs = views(tracks@);
    let mut out: Vec<(usize, usize)> = Vec::new();
    let mut i: usize = 0;
    while i < tracks.len()
        invariant
            i <= tracks.len(),
            vs == views(tracks@),
            all_fit(vs),
            out@.len() == active(vs, by, t as int, i as int).len(),
            forall|k: int|
                0 <= k < out@.len() ==> {
                    let p = active(vs, by, t as int, i as int)[k];
                    &&& (#[trigger] out@[k]).0 == p.0
                    &&& out@[k].1 == p.1
                    &&& out@[k].0 < tracks.len()
                    &&& out@[k].1 < tracks@[out@[k].0 as int].clips.len()
                },
        decreases tracks.len() - i,
    {
        let hidden: bool = match by {
            Hidden::Locked => tracks[i].locked,
            Hidden::Muted => tracks[i].muted,
        };
        if !hidden {
            let clips: &Vec<C> = &tracks[i].clips;
            let ghost cs = vs[i as int].clips;
            let ghost before = active(vs, by, t as int, i as int);
            let mut j: usize = 0;
            while j < clips.len()
                invariant
                    i < tracks.len(),
                    j <= clips.len(),
                    vs == views(tracks@),
                    cs == vs[i as int].clips,
                    clips@ == tracks@[i as int].clips@,
                    cs == views(clips@),
                    all_fit(vs),
                    before == active(vs, by, t as int, i as int),
                    out@.len() == before.len() + showing(cs, t as int, j as int).len(),
                    forall|k: int|
                        0 <= k < out@.len() ==> {
                            let p = if k < before.len() {
                                before[k]
                            } else {
                                (i as int, showing(cs, t as int, j as int)[k - before.len()])
                            };
                            &&& (#[trigger] out@[k]).0 == p.0
                            &&& out@[k].1 == p.1
                            &&& out@[k].0 < tracks.len()
                            &&& out@[k].1 < tracks@[out@[k].0 as int].clips.len()
                        },
                decreases clips.len() - j,
            {
                assert(vs[i as int].clips[j as int].fits());
                if clips[j].start_us() <= t && t < clips[j].finish_us() {
                    out.push((i, j));
                }
                j = j + 1;
            }
        }
        i = i + 1;
    }
    out
}

/// Whether the ends of all clips of the tracks can be computed.
fn ends_fit<C: Clip>(tracks: &Vec<Track<C>>) -> (r: bool) where C::V: Placed
    ensures
        r == all_fit(views(tracks@)),
{
    let ghost vs = views(tracks@);
    let mut i: usize = 0;
    while i < tracks.len()
        invariant
            i <= tracks.len(),
            vs == views(tracks@),
            forall|k: int, l: int|
                0 <= k < i && 0 <= l < vs[k].clips.len() ==> (#[trigger] vs[k].clips[l]).fits(),
        decreases tracks.len() - i,
    {
        let clips: &Vec<C> = &tracks[i].clips;
        let mut j: usize = 0;
        while j < clips.len()
            invariant
                i < tracks.len(),
                j <= clips.len(),
                vs == views(tracks@),
                clips@ == tracks@[i as int].clips@,
                forall|l: int| 0 <= l < j ==> (#[trigger] vs[i as int].clips[l]).fits(),
            decreases clips.len() - j,
        {
            if !clips[j].end_fits() {
                assert(!vs[i as int].clips[j as int].fits());
                return false;
            }
            j = j + 1;
        }
        i = i + 1;
    }
    true
}

impl Project {
    pub fn new() -> (p: Project)
        ensures
            p@ == new_project(),
    {
        let mut p: Project = Project::default();
        p.fps = Float64 { bits: DEFAULT_FPS_BITS };
        p.sample_rate = DEFAULT_SAMPLE_RATE;
        p.width = 1920;
        p.height = 1080;
        let black: [u8; 3] = [0, 0, 0];
        p.video_tracks.push(Track::new("V1".to_string(), black));
        p.audio_tracks.push(Track::new("A1".to_string(), black));
        p.text_tracks.push(Track::new("T1".to_string(), black));
        proof {
            assert(black@ =~= seq![0u8, 0u8, 0u8]);
            let n = new_project();
            assert(p@.video_tracks =~= n.video_tracks);
            assert(p@.audio_tracks =~= n.audio_tracks);
            assert(p@.text_tracks =~= n.text_tracks);
        }
        p
    }

    /// Whether the ends of all clips fit into a time position.
    pub fn times_fit(&self) -> (r: bool)
        ensures
            r == self@.times_fit(),
    {
        ends_fit(&self.video_tracks) && ends_fit(&self.audio_tracks) && ends_fit(&self.text_tracks)
    }

    /// Video clips active at time `t`, sorted by track index (bottom first).
    pub fn active_video_clips(&self, t: Timecode) -> (r: Vec<(usize, &VideoClip)>)
        requires
            all_fit(self@.video_tracks),
        ensures
            lists(r@, self@.video_tracks, self@.active_video(t as int)),
    {
        let found: Vec<(usize, usize)> = active_clips(&self.video_tracks, Hidden::Locked, t);
        let mut out: Vec<(usize, &VideoClip)> = Vec::new();
        let mut k: usize = 0;
        while k < found.len()
            invariant
                k <= found.len(),
                out.len() == k,
                forall|l: int|
                    0 <= l < found@.len() ==> {
                        let p = self@.active_video(t as int)[l];
                        &&& (#[trigger] found@[l]).0 == p.0
                        &&& found@[l].1 == p.1
                        &&& found@[l].0 < self.video_tracks.len()
                        &&& found@[l].1 < self.video_tracks@[found@[l].0 as int].clips.len()
                    },
                forall|l: int|
                    0 <= l < k ==> {
                        let p = self@.active_video(t as int)[l];
                        &&& (#[trigger] out@[l]).0 == p.0
                        &&& out@[l].1@ == self@.video_tracks[p.0].clips[p.1]
                    },
            decreases found.len() - k,
        {
            let (i, j): (usize, usize) = found[k];
            out.push((i, &self.video_tracks[i].clips[j]));
            k = k + 1;
        }
        out
    }

    /// Audio clips active at time `t`, by track index, without muted tracks.
    pub fn active_audio_clips(&self, t: Timecode) -> (r: Vec<(usize, &AudioClip)>)
        requires
            all_fit(self@.audio_tracks),
        ensures
            lists(r@, self@.audio_tracks, self@.active_audio(t as int)),
    {
        let found: Vec<(usize, usize)> = active_clips(&self.audio_tracks, Hidden::Muted, t);
        let mut out: Vec<(usize, &AudioClip)> = Vec::new();
        let mut k: usize = 0;
        while k < found.len()
            invariant
                k <= found.len(),
                out.len() == k,
                forall|l: int|
                    0 <= l < found@.len() ==> {
                        let p = self@.active_audio(t as int)[l];
                        &&& (#[trigger] found@[l]).0 == p.0
                        &&& found@[l].1 == p.1
                        &&& found@[l].0 < self.audio_tracks.len()
                        &&& found@[l].1 < self.audio_tracks@[found@[l].0 as int].clips.len()
                    },
                forall|l: int|
                    0 <= l < k ==> {
                        let p = self@.active_audio(t as int)[l];
                        &&& (#[trigger] out@[l]).0 == p.0
                        &&& out@[l].1@ == self@.audio_tracks[p.0].clips[p.1]
                    },
            decreases found.len() - k,
        {
            let (i, j): (usize, usize) = found[k];
            out.push((i, &self.audio_tracks[i].clips[j]));
            k = k + 1;
        }
        out
    }

    /// Text clips active at time `t`, by track index, without locked tracks.
    pub fn active_text_clips(&self, t: Timecode) -> (r: Vec<&TextClip>)
        ensures
            r@.len() == self@.active_text(t as int).len(),
            forall|k: int|
                0 <= k < r@.len() ==> {
                    let p = self@.active_text(t as int)[k];
                    (#[trigger] r@[k])@ == self@.text_tracks[p.0].clips[p.1]
                },
    {
        let found: Vec<(usize, usize)> = active_clips(&self.text_tracks, Hidden::Locked, t);
        let mut out: Vec<&TextClip> = Vec::new();
        let mut k: usize = 0;
        while k < found.len()
            invariant
                k <= found.len(),
                out.len() == k,
                forall|l: int|
                    0 <= l < found@.len() ==> {
                        let p = self@.active_text(t as int)[l];
                        &&& (#[trigger] found@[l]).0 == p.0
                        &&& found@[l].1 == p.1
                        &&& found@[l].0 < self.text_tracks.len()
                        &&& found@[l].1 < self.text_tracks@[found@[l].0 as int].clips.len()
                    },
                forall|l: int|
                    0 <= l < k ==> {
                        let p = self@.active_text(t as int)[l];
                        (#[trigger] out@[l])@ == self@.text_tracks[p.0].clips[p.1]
                    },
            decreases found.len() - k,
        {
            let (i, j): (usize, usize) = found[k];
            out.push(&self.text_tracks[i].clips[j]);
            k = k + 1;
        }
        out
    }

    /// Source time of a clip at a timeline time; `None` where its asset is missing or
    /// the time lies past the end of the source range.
    pub fn clip_source_offset(&self, clip: &VideoClip, t: Timecode) -> (r: Option<Timecode>)
        requires
            is_time(t - clip.timeline_start),
            is_time(clip.source_in + (t - clip.timeline_start)),
        ensures
            ({
                let src = clip.source_in + (t - clip.timeline_start);
                if self@.assets.assets.contains_key(clip.asset.0) && src < clip.source_out {
                    r == Some(src as i64)
                } else {
                    r.is_none()
                }
            }),
    {
        let rel: i64 = t - clip.timeline_start;
        let src: i64 = clip.source_in + rel;
        if self.assets.get(clip.asset).is_some() && src < clip.source_out {
            Some(src)
        } else {
            None
        }
    }

    /// The end of the last clip.
    pub fn duration_us(&self) -> (r: Timecode)
        requires
            self@.times_fit(),
        ensures
            r == self@.duration(),
            r >= 0,
    {
        let v: i64 = latest_end(&self.video_tracks);
        let a: i64 = latest_end(&self.audio_tracks);
        let x: i64 = latest_end(&self.text_tracks);
        let va: i64 = if a > v {
            a
        } else {
            v
        };
        if x > va {
            x
        } else {
            va
        }
    }
}

/// A listing gives track and clip at each of the given positions.
pub open spec fn lists<T: View>(
    r: Seq<(usize, &T)>,
    tracks: Seq<TrackView<T::V>>,
    places: Seq<(int, int)>,
) -> bool {
    &&& r.len() == places.len()
    &&& forall|k: int|
        0 <= k < r.len() ==> (#[trigger] r[k]).0 == places[k].0 && r[k].1@
            == tracks[places[k].0].clips[places[k].1]
}

/// The clip that shows on the topmost track at time `t`, with its track index.
pub fn top_video_clip(p: &Project, t: Timecode) -> (r: Option<(usize, &VideoClip)>)
    requires
        all_fit(p@.video_tracks),
    ensures
        match top_showing(p@.video_tracks, t as int, p@.video_tracks.len() as int) {
            Some((track, place)) => {
                &&& r.is_some()
                &&& r.unwrap().0 == track
                &&& r.unwrap().1@ == p@.video_tracks[track].clips[place]
            },
            None => r.is_none(),
        },
{
    let ghost vs = p@.video_tracks;
    let mut i: usize = p.video_tracks.len();
    while i > 0
        invariant
            vs == p@.video_tracks,
            i <= p.video_tracks.len(),
            all_fit(vs),
            top_showing(vs, t as int, vs.len() as int) == top_showing(vs, t as int, i as int),
        decreases i,
    {
        let clips: &Vec<VideoClip> = &p.video_tracks[i - 1].clips;
        let ghost cs = vs[i - 1].clips;
        let mut j: usize = 0;
        while j < clips.len()
            invariant
                0 < i <= p.video_tracks.len(),
                j <= clips.len(),
                vs == p@.video_tracks,
                clips@ == p.video_tracks@[i - 1].clips@,
                cs == vs[i - 1].clips,
                all_fit(vs),
                first_showing(cs, t as int, 0) == first_showing(cs, t as int, j as int),
                top_showing(vs, t as int, vs.len() as int) == top_showing(vs, t as int, i as int),
            decreases clips.len() - j,
        {
            assert(vs[i - 1].clips[j as int].fits());
            if clips[j].start_us() <= t && t < clips[j].finish_us() {
                return Some((i - 1, &clips[j]));
            }
            j = j + 1;
        }
        i = i - 1;
    }
    None
}

proof fn lemma_last_finish<V: Placed>(clips: Seq<V>)
    ensures
        last_finish(clips) >= 0,
        forall|j: int| 0 <= j < clips.len() ==> (#[trigger] clips[j]).finish() <= last_finish(clips),
        last_finish(clips) == 0 || exists|j: int|
            0 <= j < clips.len() && (#[trigger] clips[j]).finish() == last_finish(clips),
    decreases clips.len(),
{
    if clips.len() > 0 {
        let init = clips.drop_last();
        lemma_last_finish(init);
        assert forall|j: int| 0 <= j < clips.len() implies (#[trigger] clips[j]).finish()
            <= last_finish(clips) by {
            if j < init.len() {
                assert(init[j] == clips[j]);
            }
        }
        if last_finish(clips) != 0 {
            if clips.last().finish() == last_finish(clips) {
                assert(clips[clips.len() - 1].finish() == last_finish(clips));
            } else {
                let j = choose|j: int|
                    0 <= j < init.len() && (#[trigger] init[j]).finish() == last_finish(init);
                assert(clips[j].finish() == last_finish(clips));
            }
        }
    }
}

proof fn lemma_last_track_finish<V: Placed>(tracks: Seq<TrackView<V>>)
    ensures
        last_track_finish(tracks) >= 0,
        forall|i: int, j: int|
            0 <= i < tracks.len() && 0 <= j < tracks[i].clips.len() ==> (
            #[trigger] tracks[i].clips[j]).finish() <= last_track_finish(tracks),
        last_track_finish(tracks) == 0 || exists|i: int, j: int|
            0 <= i < tracks.len() && 0 <= j < tracks[i].clips.len() && (
            #[trigger] tracks[i].clips[j]).finish() == last_track_finish(tracks),
    decreases tracks.len(),
{
    if tracks.len() > 0 {
        let init = tracks.drop_last();
        lemma_last_track_finish(init);
        lemma_last_finish(tracks.last().clips);
        assert forall|i: int, j: int|
            0 <= i < tracks.len() && 0 <= j < tracks[i].clips.len() implies (
        #[trigger] tracks[i].clips[j]).finish() <= last_track_finish(tracks) by {
            if i < init.len() {
                assert(init[i].clips[j] == tracks[i].clips[j]);
            }
        }
        if last_track_finish(tracks) != 0 {
            if last_finish(tracks.last().clips) == last_track_finish(tracks) {
                let cs = tracks.last().clips;
                let j = choose|j: int|
                    0 <= j < cs.len() && (#[trigger] cs[j]).finish() == last_finish(cs);
                assert(tracks[tracks.len() - 1].clips[j].finish() == last_track_finish(tracks));
            } else {
                let (i, j) = choose|i: int, j: int|
                    0 <= i < init.len() && 0 <= j < init[i].clips.len() && (
                    #[trigger] init[i].clips[j]).finish() == last_track_finish(init);
                assert(tracks[i].clips[j].finish() == last_track_finish(tracks));
            }
        }
    }
}

/// The duration of a project is the end of its last clip: no clip ends later, and
/// a duration above zero is the end of some clip.
pub proof fn law_duration_is_last_end(p: ProjectView)
    ensures
        p.duration() >= 0,
        forall|i: int, j: int|
            0 <= i < p.video_tracks.len() && 0 <= j < p.video_tracks[i].clips.len() ==> (
            #[trigger] p.video_tracks[i].clips[j]).finish() <= p.duration(),
        forall|i: int, j: int|
            0 <= i < p.audio_tracks.len() && 0 <= j < p.audio_tracks[i].clips.len() ==> (
            #[trigger] p.audio_tracks[i].clips[j]).finish() <= p.duration(),
        forall|i: int, j: int|
            0 <= i < p.text_tracks.len() && 0 <= j < p.text_tracks[i].clips.len() ==> (
            #[trigger] p.text_tracks[i].clips[j]).finish() <= p.duration(),
        p.duration() == 0 || (exists|i: int, j: int|
            0 <= i < p.video_tracks.len() && 0 <= j < p.video_tracks[i].clips.len() && (
            #[trigger] p.video_tracks[i].clips[j]).finish() == p.duration()) || (exists|
            i: int,
            j: int,
        |
            0 <= i < p.audio_tracks.len() && 0 <= j < p.audio_tracks[i].clips.len() && (
            #[trigger] p.audio_tracks[i].clips[j]).finish() == p.duration()) || (exists|
            i: int,
            j: int,
        |
            0 <= i < p.text_tracks.len() && 0 <= j < p.text_tracks[i].clips.len() && (
            #[trigger] p.text_tracks[i].clips[j]).finish() == p.duration()),
{
    lemma_last_track_finish(p.video_tracks);
    lemma_last_track_finish(p.audio_tracks);
    lemma_last_track_finish(p.text_tracks);
}

/// Past the end of a project no video clip shows.
pub proof fn law_nothing_shows_past_the_end(p: ProjectView, t: int)
    requires
        t >= p.duration(),
    ensures
        p.active_video(t) == Seq::<(int, int)>::empty(),
        p.active_audio(t) == Seq::<(int, int)>::empty(),
        p.active_text(t) == Seq::<(int, int)>::empty(),
{
    law_duration_is_last_end(p);
    lemma_none_active(p.video_tracks, Hidden::Locked, t, p.video_tracks.len() as int);
    lemma_none_active(p.audio_tracks, Hidden::Muted, t, p.audio_tracks.len() as int);
    lemma_none_active(p.text_tracks, Hidden::Locked, t, p.text_tracks.len() as int);
}

proof fn lemma_none_showing<V: Placed>(clips: Seq<V>, t: int, n: int)
    requires
        n <= clips.len(),
        forall|j: int| 0 <= j < clips.len() ==> (#[trigger] clips[j]).finish() <= t,
    ensures
        showing(clips, t, n) == Seq::<int>::empty(),
    decreases n,
{
    if n > 0 {
        lemma_none_showing(clips, t, n - 1);
        assert(clips[n - 1].finish() <= t);
    }
}

proof fn lemma_none_active<V: Placed>(tracks: Seq<TrackView<V>>, by: Hidden, t: int, n: int)
    requires
        n <= tracks.len(),
        forall|i: int, j: int|
            0 <= i < tracks.len() && 0 <= j < tracks[i].clips.len() ==> (
            #[trigger] tracks[i].clips[j]).finish() <= t,
    ensures
        active(tracks, by, t, n) == Seq::<(int, int)>::empty(),
    decreases n,
{
    if n > 0 {
        lemma_none_active(tracks, by, t, n - 1);
        let cs = tracks[n - 1].clips;
        assert forall|j: int| 0 <= j < cs.len() implies (#[trigger] cs[j]).finish() <= t by {
            assert(tracks[n - 1].clips[j].finish() <= t);
        }
        lemma_none_showing(cs, t, cs.len() as int);
        assert(active(tracks, by, t, n) =~= Seq::<(int, int)>::empty());
    }
}

proof fn lemma_showing<V: Placed>(clips: Seq<V>, t: int, n: int)
    requires
        n <= clips.len(),
    ensures
        forall|k: int|
            0 <= k < showing(clips, t, n).len() ==> {
                let j = #[trigger] showing(clips, t, n)[k];
                0 <= j < n && clips[j].start() <= t < clips[j].finish()
            },
        forall|j: int|
            0 <= j < n && clips[j].start() <= t < clips[j].finish()
                ==> #[trigger] showing(clips, t, n).contains(j),
        forall|k: int, l: int|
            0 <= k < l < showing(clips, t, n).len() ==> showing(clips, t, n)[k]
                < showing(clips, t, n)[l],
    decreases n,
{
    if n > 0 {
        lemma_showing(clips, t, n - 1);
        let before = showing(clips, t, n - 1);
        let here = showing(clips, t, n);
        assert forall|j: int|
            0 <= j < n && clips[j].start() <= t < clips[j].finish() implies #[trigger] here.contains(
            j,
        ) by {
            if j < n - 1 {
                assert(before.contains(j));
                let k = choose|k: int| 0 <= k < before.len() && before[k] == j;
                assert(here[k] == j);
            } else {
                assert(here[here.len() - 1] == j);
            }
        }
    }
}

/// A clip on a track that is not locked is listed at a time exactly where it
/// covers that time, start included and end not.
pub proof fn law_active_video_is_what_covers(p: ProjectView, t: int, track: int, place: int)
    requires
        0 <= track < p.video_tracks.len(),
        0 <= place < p.video_tracks[track].clips.len(),
    ensures
        p.active_video(t).contains((track, place)) <==> (!p.video_tracks[track].locked
            && p.video_tracks[track].clips[place].active(t)),
{
    lemma_active(p.video_tracks, Hidden::Locked, t, p.video_tracks.len() as int, track, place);
}

/// A clip on a track that is not muted sounds at a time exactly where it covers
/// that time.
pub proof fn law_active_audio_is_what_covers(p: ProjectView, t: int, track: int, place: int)
    requires
        0 <= track < p.audio_tracks.len(),
        0 <= place < p.audio_tracks[track].clips.len(),
    ensures
        p.active_audio(t).contains((track, place)) <==> (!p.audio_tracks[track].muted
            && p.audio_tracks[track].clips[place].active(t)),
{
    lemma_active(p.audio_tracks, Hidden::Muted, t, p.audio_tracks.len() as int, track, place);
}

/// A text on a track that is not locked is listed at a time exactly where it
/// covers that time.
pub proof fn law_active_text_is_what_covers(p: ProjectView, t: int, track: int, place: int)
    requires
        0 <= track < p.text_tracks.len(),
        0 <= place < p.text_tracks[track].clips.len(),
    ensures
        p.active_text(t).contains((track, place)) <==> (!p.text_tracks[track].locked
            && p.text_tracks[track].clips[place].active(t)),
{
    lemma_active(p.text_tracks, Hidden::Locked, t, p.text_tracks.len() as int, track, place);
}

proof fn lemma_active<V: Placed>(
    tracks: Seq<TrackView<V>>,
    by: Hidden,
    t: int,
    n: int,
    track: int,
    place: int,
)
    requires
        0 <= n <= tracks.len(),
        0 <= track < tracks.len(),
        0 <= place < tracks[track].clips.len(),
    ensures
        active(tracks, by, t, n).contains((track, place)) <==> (track < n && !hides(
            by,
            tracks[track],
        ) && tracks[track].clips[place].start() <= t < tracks[track].clips[place].finish()),
    decreases n,
{
    if n > 0 {
        lemma_active(tracks, by, t, n - 1, track, place);
        let before = active(tracks, by, t, n - 1);
        let all = active(tracks, by, t, n);
        let cs = tracks[n - 1].clips;
        let here = showing(cs, t, cs.len() as int);
        lemma_showing(cs, t, cs.len() as int);
        if hides(by, tracks[n - 1]) {
        } else {
            let tail = Seq::new(here.len(), |k: int| (n - 1, here[k]));
            assert(all == before + tail);
            if before.contains((track, place)) {
                let k = choose|k: int| 0 <= k < before.len() && before[k] == (track, place);
                assert(all[k] == (track, place));
            }
            if track == n - 1 && here.contains(place) {
                let k = choose|k: int| 0 <= k < here.len() && here[k] == place;
                assert(all[before.len() + k] == (track, place));
            }
            if all.contains((track, place)) {
                let k = choose|k: int| 0 <= k < all.len() && all[k] == (track, place);
                if k < before.len() {
                    assert(before[k] == (track, place));
                } else {
                    assert(tail[k - before.len()] == (track, place));
                }
            }
        }
    }
}

impl ProjectView {
    pub open spec fn active_video(self, t: int) -> Seq<(int, int)> {
        active(self.video_tracks, Hidden::Locked, t, self.video_tracks.len() as int)
    }

    pub open spec fn active_audio(self, t: int) -> Seq<(int, int)> {
        active(self.audio_tracks, Hidden::Muted, t, self.audio_tracks.len() as int)
    }

    pub open spec fn active_text(self, t: int) -> Seq<(int, int)> {
        active(self.text_tracks, Hidden::Locked, t, self.text_tracks.len() as int)
    }

    /// The ends of all clips fit into a time position.
    pub open spec fn times_fit(self) -> bool {
        all_fit(self.video_tracks) && all_fit(self.audio_tracks) && all_fit(self.text_tracks)
    }

    pub open spec fn duration(self) -> int {
        let v = last_track_finish(self.video_tracks);
        let a = last_track_finish(self.audio_tracks);
        let x = last_track_finish(self.text_tracks);
        let va = if a > v {
            a
        } else {
            v
        };
        if x > va {
            x
        } else {
            va
        }
    }
}

} // verus!
