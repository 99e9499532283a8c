//! The state of the editor and what its commands do to it.
//!
//! Sound and files are outside: `mix_stale` says that the audio mix has to be built
//! anew, and `seek_audio` that playback has to be moved to the playhead.

use crate::edit::{
    can_delete, can_nudge, can_paste, can_split, clip_exists, clipboard_view, copied, deleted,
    frame_length, frame_us, has_clip, law_frames_fill_a_second, loop_toggled, nudge_length, nudge_us, nudged, pasted,
    split_at, split_fits, track_exists, with_marker, with_text, with_track, ClipboardItem, Lane,
};
use crate::history::History;
use crate::prefs::{BindField, Keybinds, Settings};
use crate::project::{is_time, Project, ProjectView};
use crate::float::{double, of_integer, Float32, Float64};
use crate::timeline::{views, AssetId, Timecode, SECOND_US};
use vstd::prelude::*;

verus! {

/// The clip that commands work on.
#[derive(Debug, Clone, Copy, PartialEq, Eq, Structural)]
pub enum Selection {
    Nothing,
    Video { track: usize, clip: usize },
    Audio { track: usize, clip: usize },
    Text { track: usize, clip: usize },
}

impl Default for Selection {
    fn default() -> (s: Selection)
        ensures
            s == Selection::Nothing,
    {
        Selection::Nothing
    }
}

/// The track and place of a selected clip.
pub open spec fn selected_clip(s: Selection) -> Option<(Lane, int, int)> {
    match s {
        Selection::Nothing => None,
        Selection::Video { track, clip } => Some((Lane::Video, track as int, clip as int)),
        Selection::Audio { track, clip } => Some((Lane::Audio, track as int, clip as int)),
        Selection::Text { track, clip } => Some((Lane::Text, track as int, clip as int)),
    }
}

impl Selection {
    /// The track and place of the clip.
    pub fn place(self) -> (r: Option<(Lane, usize, usize)>)
        ensures
            match selected_clip(self) {
                Some((lane, track, clip)) => r.is_some() && r.unwrap().0 == lane && r.unwrap().1
                    == track && r.unwrap().2 == clip,
                None => r.is_none(),
            },
    {
        match self {
            Selection::Nothing => None,
            Selection::Video { track, clip } => Some((Lane::Video, track, clip)),
            Selection::Audio { track, clip } => Some((Lane::Audio, track, clip)),
            Selection::Text { track, clip } => Some((Lane::Text, track, clip)),
        }
    }

    /// The selection of a clip.
    pub fn of(lane: Lane, track: usize, clip: usize) -> (r: Selection)
        ensures
            selected_clip(r) == Some((lane, track as int, clip as int)),
    {
        match lane {
            Lane::Video => Selection::Video { track, clip },
            Lane::Audio => Selection::Audio { track, clip },
            Lane::Text => Selection::Text { track, clip },
        }
    }
}

/// Whether two selections are of the same clip.
pub fn selection_equals(a: Selection, b: Selection) -> (r: bool)
    ensures
        r == (a == b),
{
    a == b
}

/// What a drag on the timeline does.
#[derive(Debug, Clone, Copy, PartialEq, Eq, Structural)]
pub enum TimelineDrag {
    Move { lane: Lane, track: usize, clip: usize, grab_us: i64 },
    TrimL { lane: Lane, track: usize, clip: usize },
    TrimR { lane: Lane, track: usize, clip: usize },
}

/// Which windows are open.
#[derive(Debug, Clone, Copy, PartialEq, Eq, Structural)]
pub struct Windows {
    pub export_open: bool,
    pub settings_open: bool,
    pub mixer_open: bool,
    pub palette_open: bool,
    pub relink_open: bool,
    pub fullscreen_preview: bool,
}

/// The state of the editor.
#[derive(Debug, Clone)]
pub struct RsEditApp {
    pub project: Project,
    pub playhead_us: Timecode,
    pub playing: bool,
    pub last_request: Option<(u64, i64)>,
    pub selected: Selection,
    pub multi_selection: Vec<Selection>,
    pub clipboard: Option<ClipboardItem>,
    pub drag_source: Option<AssetId>,
    pub drag_timeline_us: Option<i64>,
    pub capturing: Option<BindField>,
    pub keybinds: Keybinds,
    pub settings: Settings,
    pub timeline_scroll_us: Timecode,
    pub timeline_zoom: Float32,
    pub timeline_drag: Option<TimelineDrag>,
    pub windows: Windows,
    pub palette_filter: String,
    pub palette_sel: usize,
    /// Source frame rate awaiting confirmation to become that of the project.
    pub pending_fps: Option<Float64>,
    /// Messages to be shown.
    pub toasts: Vec<String>,
    pub recent_files: Vec<String>,
    /// Where the project was last saved.
    pub current_project_path: Option<String>,
    pub history: History,
    pub dirty: bool,
    /// The audio mix has to be built anew.
    pub mix_stale: bool,
    /// Playback has to be moved to the playhead.
    pub seek_audio: bool,
}

/// The time that the playhead can go up to.
pub open spec fn last_time(p: ProjectView) -> int {
    if p.duration() > SECOND_US {
        p.duration()
    } else {
        SECOND_US as int
    }
}

/// The playhead `delta` frames on, within the project.
pub open spec fn stepped(p: ProjectView, playhead: int, delta: int) -> int {
    let to = playhead + delta * frame_length(p.fps);
    let low = if to > 0 {
        to
    } else {
        0
    };
    if low < last_time(p) {
        low
    } else {
        last_time(p)
    }
}

impl RsEditApp {
    /// The state before an edit is on the history, and nothing else changed but that
    /// there is something to save.
    pub open spec fn recorded(self, to: RsEditApp) -> bool {
        &&& to == (RsEditApp { history: to.history, dirty: true, ..self })
        &&& to.history@ == self.history@.recorded(self.project@)
    }

    /// Keeps the project for undo.
    pub fn push_undo(&mut self)
        ensures
            old(self).recorded(*final(self)),
    {
        self.history.record(&self.project);
        self.dirty = true;
    }

    /// Goes back one edit.
    pub fn undo(&mut self)
        ensures
            final(self).project@ == old(self).history@.previous(old(self).project@),
            final(self).history@ == old(self).history@.undone(old(self).project@),
            old(self).history@.can_undo() ==> *final(self) == (RsEditApp {
                project: final(self).project,
                history: final(self).history,
                mix_stale: true,
                last_request: None,
                ..*old(self)
            }),
            !old(self).history@.can_undo() ==> *final(self) == *old(self),
    {
        if self.history.undo(&mut self.project) {
            self.mix_stale = true;
            self.last_request = None;
        }
    }

    /// Goes forward one edit.
    pub fn redo(&mut self)
        ensures
            final(self).project@ == old(self).history@.next(old(self).project@),
            final(self).history@ == old(self).history@.redone(old(self).project@),
            old(self).history@.can_redo() ==> *final(self) == (RsEditApp {
                project: final(self).project,
                history: final(self).history,
                mix_stale: true,
                last_request: None,
                ..*old(self)
            }),
            !old(self).history@.can_redo() ==> *final(self) == *old(self),
    {
        if self.history.redo(&mut self.project) {
            self.mix_stale = true;
            self.last_request = None;
        }
    }

    /// Moves playback to the playhead.
    pub fn seek_marker(&mut self)
        ensures
            *final(self) == (RsEditApp { seek_audio: true, last_request: None, ..*old(self) }),
    {
        self.seek_audio = true;
        self.last_request = None;
    }

    /// The end of the project, at least a second.
    pub fn end_us(&self) -> (r: i64)
        requires
            self.project@.times_fit(),
        ensures
            r == last_time(self.project@),
    {
        let d: i64 = self.project.duration_us();
        if d > SECOND_US {
            d
        } else {
            SECOND_US
        }
    }

    /// The time of the frame to preview: the playhead, no later than the end.
    pub fn preview_us(&self) -> (r: i64)
        requires
            self.project@.times_fit(),
        ensures
            r == (if self.playhead_us < last_time(self.project@) {
                self.playhead_us as int
            } else {
                last_time(self.project@)
            }),
    {
        let end: i64 = self.end_us();
        if self.playhead_us < end {
            self.playhead_us
        } else {
            end
        }
    }

    /// Moves the playhead by some frames, within the project.
    pub fn step_frame(&mut self, delta: i64)
        requires
            old(self).project@.times_fit(),
        ensures
            *final(self) == (RsEditApp {
                playhead_us: stepped(
                    old(self).project@,
                    old(self).playhead_us as int,
                    delta as int,
                ) as i64,
                seek_audio: true,
                last_request: None,
                ..*old(self)
            }),
            0 <= final(self).playhead_us <= last_time(old(self).project@),
    {
        let per: i64 = frame_us(self.project.fps);
        let end: i64 = self.end_us();
        assert(-0x8000_0000_0000_0000 * 0x8000_0000_0000_0000 <= delta as int * per as int
            <= 0x8000_0000_0000_0000 * 0x8000_0000_0000_0000) by (nonlinear_arith)
            requires
                -0x8000_0000_0000_0000 <= delta <= 0x7fff_ffff_ffff_ffff,
                -0x8000_0000_0000_0000 <= per <= 0x7fff_ffff_ffff_ffff,
        ;
        let to: i128 = self.playhead_us as i128 + delta as i128 * per as i128;
        self.playhead_us = if to <= 0 {
            0
        } else if to < end as i128 {
            to as i64
        } else {
            end
        };
        self.seek_marker();
    }

    pub fn jump_start(&mut self)
        ensures
            *final(self) == (RsEditApp {
                playhead_us: 0,
                seek_audio: true,
                last_request: None,
                ..*old(self)
            }),
    {
        self.playhead_us = 0;
        self.seek_marker();
    }

    pub fn jump_end(&mut self)
        requires
            old(self).project@.times_fit(),
        ensures
            *final(self) == (RsEditApp {
                playhead_us: last_time(old(self).project@) as i64,
                seek_audio: true,
                last_request: None,
                ..*old(self)
            }),
    {
        self.playhead_us = self.end_us();
        self.seek_marker();
    }

    /// Starts or stops playback at the playhead.
    pub fn toggle_play(&mut self)
        ensures
            *final(self) == (RsEditApp {
                playing: !old(self).playing,
                seek_audio: true,
                ..*old(self)
            }),
    {
        self.playing = !self.playing;
        self.seek_audio = true;
    }

    /// The selected clip can be removed, where there is one.
    pub open spec fn can_delete_selected(self) -> bool {
        match selected_clip(self.selected) {
            Some((lane, track, clip)) => clip_exists(self.project@, lane, track, clip)
                ==> can_delete(self.project@, lane, track, clip),
            None => true,
        }
    }

    /// The state after the removal of the selected clip.
    pub open spec fn selected_deleted(self, to: RsEditApp) -> bool {
        match selected_clip(self.selected) {
            Some((lane, track, clip)) => if clip_exists(self.project@, lane, track, clip) {
                &&& to == (RsEditApp {
                    project: to.project,
                    history: to.history,
                    dirty: true,
                    selected: Selection::Nothing,
                    mix_stale: true,
                    last_request: None,
                    ..self
                })
                &&& to.project@ == deleted(self.project@, lane, track, clip)
                &&& to.history@ == self.history@.recorded(self.project@)
            } else {
                to == (RsEditApp { mix_stale: true, last_request: None, ..self })
            },
            None => to == self,
        }
    }

    /// Whether the selected clip can be removed.
    pub fn may_delete_selected(&self) -> (r: bool)
        ensures
            r == self.can_delete_selected(),
    {
        match self.selected.place() {
            Some((lane, track, clip)) => !self.project.has_clip(lane, track, clip)
                || self.project.can_delete_clip(lane, track, clip),
            None => true,
        }
    }

    /// Removes the selected clip.
    pub fn delete_selected(&mut self)
        requires
            old(self).can_delete_selected(),
        ensures
            old(self).selected_deleted(*final(self)),
    {
        match self.selected.place() {
            Some((lane, track, clip)) => {
                if self.project.has_clip(lane, track, clip) {
                    self.push_undo();
                    self.project.delete_clip(lane, track, clip);
                    self.selected = Selection::Nothing;
                }
                self.mix_stale = true;
                self.last_request = None;
            },
            None => {},
        }
    }

    /// Adds a video or audio track.
    pub fn add_track(&mut self, lane: Lane)
        ensures
            *final(self) == (RsEditApp {
                project: final(self).project,
                history: final(self).history,
                dirty: true,
                last_request: None,
                ..*old(self)
            }),
            final(self).project@ == with_track(old(self).project@, lane),
            final(self).history@ == old(self).history@.recorded(old(self).project@),
    {
        self.push_undo();
        self.project.add_track(lane);
        self.last_request = None;
    }

    /// There is a track for the selection.
    pub open spec fn selected_track_exists(self) -> bool {
        match selected_clip(self.selected) {
            Some((lane, track, clip)) => track_exists(self.project@, lane, track),
            None => true,
        }
    }

    /// Whether there is a track for the selection.
    pub fn has_selected_track(&self) -> (r: bool)
        ensures
            r == self.selected_track_exists(),
    {
        match self.selected.place() {
            Some((lane, track, _)) => self.project.has_track(lane, track),
            None => true,
        }
    }

    /// The state after a copy of the selected clip.
    pub open spec fn selected_copied(self, to: RsEditApp) -> bool {
        match selected_clip(self.selected) {
            Some((lane, track, clip)) => if clip_exists(self.project@, lane, track, clip) {
                &&& to == (RsEditApp { clipboard: to.clipboard, toasts: to.toasts, ..self })
                &&& clipboard_view(to.clipboard) == Some(copied(self.project@, lane, track, clip))
                &&& views(to.toasts@) == views(self.toasts@).push("Copied clip"@)
            } else {
                to == self
            },
            None => to == self,
        }
    }

    /// Shows a message.
    pub fn toast(&mut self, text: &str)
        ensures
            *final(self) == (RsEditApp { toasts: final(self).toasts, ..*old(self) }),
            views(final(self).toasts@) == views(old(self).toasts@).push(text@),
    {
        let ghost before = views(self.toasts@);
        self.toasts.push(text.to_string());
        assert(views(self.toasts@) =~= before.push(text@));
    }

    /// Copies the selected clip.
    pub fn copy_selected(&mut self)
        requires
            old(self).selected_track_exists(),
        ensures
            old(self).selected_copied(*final(self)),
    {
        match self.selected.place() {
            Some((lane, track, clip)) => {
                if self.project.has_clip(lane, track, clip) {
                    self.clipboard = Some(self.project.copy_clip(lane, track, clip));
                    self.toast("Copied clip");
                }
            },
            None => {},
        }
    }

    /// Copies the selected clip, then removes it.
    pub fn cut_selected(&mut self)
        requires
            old(self).selected_track_exists(),
            old(self).can_delete_selected(),
        ensures
            exists|mid: RsEditApp| #[trigger]
                old(self).selected_copied(mid) && mid.selected_deleted(*final(self)),
    {
        self.copy_selected();
        let ghost mid = *self;
        self.delete_selected();
        assert(old(self).selected_copied(mid) && mid.selected_deleted(*self));
    }

    /// The copied clip can be pasted at the playhead, where there is one.
    pub open spec fn can_paste_clip(self) -> bool {
        match clipboard_view(self.clipboard) {
            Some(item) => can_paste(self.project@, item, self.playhead_us),
            None => true,
        }
    }

    /// Whether the copied clip can be pasted.
    pub fn may_paste_clip(&self) -> (r: bool)
        ensures
            r == self.can_paste_clip(),
    {
        match &self.clipboard {
            Some(item) => self.project.can_paste_at(item, self.playhead_us),
            None => true,
        }
    }

    /// Pastes the copied clip at the playhead.
    pub fn paste_clip(&mut self)
        requires
            old(self).can_paste_clip(),
        ensures
            match clipboard_view(old(self).clipboard) {
                Some(item) => {
                    &&& *final(self) == (RsEditApp {
                        project: final(self).project,
                        history: final(self).history,
                        toasts: final(self).toasts,
                        dirty: true,
                        mix_stale: true,
                        last_request: None,
                        ..*old(self)
                    })
                    &&& final(self).project@ == pasted(
                        old(self).project@,
                        item,
                        old(self).playhead_us,
                    )
                    &&& final(self).history@ == old(self).history@.recorded(old(self).project@)
                    &&& views(final(self).toasts@) == views(old(self).toasts@).push(
                        "Pasted clip at playhead"@,
                    )
                },
                None => *final(self) == *old(self),
            },
    {
        if self.clipboard.is_none() {
            return;
        }
        self.push_undo();
        if let Some(item) = &self.clipboard {
            self.project.paste(item, self.playhead_us);
        }
        self.mix_stale = true;
        self.last_request = None;
        self.toast("Pasted clip at playhead");
    }

    /// The selected clip can be moved by `dir` frames, where there is one.
    pub open spec fn can_nudge_selected(self, dir: int) -> bool {
        let delta = dir * nudge_length(self.project@.fps);
        match selected_clip(self.selected) {
            Some((lane, track, clip)) => {
                &&& track_exists(self.project@, lane, track)
                &&& is_time(delta)
                &&& clip_exists(self.project@, lane, track, clip) ==> can_nudge(
                    self.project@,
                    lane,
                    track,
                    clip,
                    delta,
                )
            },
            None => true,
        }
    }

    /// Whether the selected clip can be moved by `dir` frames.
    pub fn may_nudge_selected(&self, dir: i64) -> (r: bool)
        ensures
            r == self.can_nudge_selected(dir as int),
    {
        match self.selected.place() {
            Some((lane, track, clip)) => {
                if !self.project.has_track(lane, track) {
                    return false;
                }
                match dir.checked_mul(nudge_us(self.project.fps)) {
                    Some(delta) => !self.project.has_clip(lane, track, clip)
                        || self.project.can_nudge_clip(lane, track, clip, delta),
                    None => false,
                }
            },
            None => true,
        }
    }

    /// Moves the selected clip by `dir` frames, not past zero; a clip that is there is kept
    /// for undo with its project.
    pub fn nudge_selected(&mut self, dir: i64)
        requires
            old(self).can_nudge_selected(dir as int),
        ensures
            match selected_clip(old(self).selected) {
                Some((lane, track, clip)) => {
                    &&& *final(self) == (RsEditApp {
                        project: final(self).project,
                        history: final(self).history,
                        dirty: true,
                        mix_stale: true,
                        ..*old(self)
                    })
                    &&& final(self).history@ == (if clip_exists(
                        old(self).project@,
                        lane,
                        track,
                        clip,
                    ) {
                        old(self).history@.recorded(old(self).project@)
                    } else {
                        old(self).history@
                    })
                    &&& final(self).project@ == (if clip_exists(
                        old(self).project@,
                        lane,
                        track,
                        clip,
                    ) {
                        nudged(
                            old(self).project@,
                            lane,
                            track,
                            clip,
                            dir * nudge_length(old(self).project@.fps),
                        )
                    } else {
                        old(self).project@
                    })
                },
                None => *final(self) == *old(self),
            },
    {
        match self.selected.place() {
            Some((lane, track, clip)) => {
                let per: i64 = nudge_us(self.project.fps);
                let delta: i64 = dir * per;
                if self.project.has_clip(lane, track, clip) {
                    self.push_undo();
                    self.project.nudge_clip(lane, track, clip, delta);
                }
                self.dirty = true;
                self.mix_stale = true;
            },
            None => {},
        }
    }

    /// The selected clip can be split, where there is one.
    pub open spec fn can_split_selected(self) -> bool {
        match selected_clip(self.selected) {
            Some((lane, track, clip)) => {
                &&& lane != Lane::Text ==> track_exists(self.project@, lane, track)
                &&& split_fits(self.project@, lane, track, clip)
            },
            None => true,
        }
    }

    /// The state after a split of the selected clip at the playhead.
    pub open spec fn selected_split(self, to: RsEditApp) -> bool {
        match selected_clip(self.selected) {
            Some((lane, track, clip)) => if can_split(
                self.project@,
                lane,
                track,
                clip,
                self.playhead_us as int,
            ) {
                &&& to == (RsEditApp {
                    project: to.project,
                    history: to.history,
                    dirty: true,
                    mix_stale: self.mix_stale || lane == Lane::Audio,
                    ..self
                })
                &&& to.project@ == split_at(self.project@, lane, track, clip, self.playhead_us)
                &&& to.history@ == self.history@.recorded(self.project@)
            } else {
                to == self
            },
            None => to == self,
        }
    }

    /// Whether the selected clip can be split.
    pub fn may_split_selected(&self) -> (r: bool)
        ensures
            r == self.can_split_selected(),
    {
        match self.selected.place() {
            Some((lane, track, clip)) => (lane == Lane::Text || self.project.has_track(lane, track))
                && self.project.can_split_clip(lane, track, clip),
            None => true,
        }
    }

    /// Splits the selected clip at the playhead, where that lies inside it.
    pub fn split_selected(&mut self)
        requires
            old(self).can_split_selected(),
        ensures
            old(self).selected_split(*final(self)),
    {
        match self.selected.place() {
            Some((lane, track, clip)) => {
                let at: i64 = self.playhead_us;
                if self.project.splits_at(lane, track, clip, at) {
                    self.push_undo();
                    self.project.split_clip(lane, track, clip, at);
                    if lane == Lane::Audio {
                        self.mix_stale = true;
                    }
                }
            },
            None => {},
        }
    }

    /// Adds a title at the playhead.
    pub fn add_text_clip(&mut self)
        requires
            old(self).project.text_tracks.len() > 0,
            old(self).playhead_us + 3 * SECOND_US <= i64::MAX,
        ensures
            *final(self) == (RsEditApp {
                project: final(self).project,
                history: final(self).history,
                dirty: true,
                ..*old(self)
            }),
            final(self).project@ == with_text(
                old(self).project@,
                0,
                "New title"@,
                old(self).playhead_us as int,
            ),
            final(self).history@ == old(self).history@.recorded(old(self).project@),
    {
        self.push_undo();
        self.project.add_title(self.playhead_us);
    }

    /// Places a marker at the playhead.
    pub fn add_marker(&mut self)
        ensures
            *final(self) == (RsEditApp {
                project: final(self).project,
                history: final(self).history,
                dirty: true,
                ..*old(self)
            }),
            final(self).project@ == with_marker(old(self).project@, old(self).playhead_us),
            final(self).history@ == old(self).history@.recorded(old(self).project@),
    {
        self.push_undo();
        self.project.add_marker(self.playhead_us);
    }

    /// Switches ripple mode.
    pub fn toggle_ripple(&mut self)
        ensures
            *final(self) == (RsEditApp {
                project: final(self).project,
                history: final(self).history,
                dirty: true,
                ..*old(self)
            }),
            final(self).project@ == (ProjectView {
                ripple: !old(self).project@.ripple,
                ..old(self).project@
            }),
            final(self).history@ == old(self).history@.recorded(old(self).project@),
    {
        self.push_undo();
        self.project.ripple = !self.project.ripple;
    }

    /// Switches the loop region off, or on at the playhead; an edit only where it
    /// changes something.
    pub fn toggle_loop(&mut self)
        requires
            old(self).project@.times_fit(),
        ensures
            final(self).project@ == loop_toggled(old(self).project@, old(self).playhead_us as int),
            if crate::edit::looping(old(self).project@) || old(self).project@.duration() > 0 {
                &&& *final(self) == (RsEditApp {
                    project: final(self).project,
                    history: final(self).history,
                    dirty: true,
                    ..*old(self)
                })
                &&& final(self).history@ == old(self).history@.recorded(old(self).project@)
            } else {
                *final(self) == *old(self)
            },
    {
        if self.project.is_looping() || self.project.duration_us() > 0 {
            self.push_undo();
            self.project.toggle_loop(self.playhead_us);
        }
    }
}

/// A step moves the playhead by whole frames, of which as many as there are in a second fill
/// it but for less than a microsecond each, and keeps it within the project; a step back
/// undoes a step on that stayed within it.
pub proof fn law_steps_move_by_frames(p: ProjectView, playhead: int, delta: int, n: int)
    requires
        p.fps@ == of_integer(double(), n),
        1 <= n <= 1_000_000,
        0 <= playhead,
    ensures
        ({
            let frame = frame_length(p.fps);
            let to = stepped(p, playhead, delta);
            let end = if p.duration() > 1_000_000 {
                p.duration()
            } else {
                1_000_000
            };
            &&& n * frame <= 1_000_000 < n * (frame + 1)
            &&& 0 <= to <= end
            &&& 0 <= playhead + delta * frame <= end ==> to == playhead + delta * frame
            &&& playhead + delta * frame < 0 ==> to == 0
            &&& playhead + delta * frame > end ==> to == end
            &&& 0 <= playhead + delta * frame <= end && playhead <= end ==> stepped(p, to, -delta)
                == playhead
        }),
{
    law_frames_fill_a_second(p.fps, n);
    let frame = frame_length(p.fps);
    assert((-delta) * frame == -(delta * frame)) by (nonlinear_arith);
}

} // verus!
