//! Commands: keyboard shortcuts, clicks and drags on the timeline, the command
//! palette.

use crate::app::{last_time, selected_clip, stepped, RsEditApp, Selection, TimelineDrag, Windows};
use crate::edit::{
    can_move, can_trim_left, can_trim_right, clip_time, clip_time_start, dragged_start,
    header_toggled, moved_clip, nearest_track, not_below_zero, track_exists, trimmed_left,
    trimmed_right, with_asset_clip, with_text, with_track, HeaderButton, Lane,
};
use crate::prefs::{
    bind_label, label_of, shortcut_label, shortcut_text, BindField, Settings, Shortcut,
    ShortcutView,
};
use crate::project::{is_time, ProjectView};
use crate::snap::{distance, snapped};
use crate::strings::contains;
use crate::timeline::{views, AssetId, SECOND_US};
use vstd::prelude::*;
use vstd::string::*;

verus! {

/// The shortcuts in the order in which they are tried: those with more modifiers
/// before those that they contain.
pub open spec fn bind_order() -> Seq<BindField> {
    seq![
        BindField::Redo,
        BindField::Undo,
        BindField::DeleteClip,
        BindField::SplitClip,
        BindField::PlayPause,
        BindField::StepFwd,
        BindField::StepBack,
        BindField::JumpStart,
        BindField::JumpEnd,
        BindField::ExportRender,
        BindField::AddText,
        BindField::TogglePeaks,
        BindField::AddVideoTrack,
        BindField::AddAudioTrack,
        BindField::CloseWindow,
    ]
}

/// The shortcuts in the order in which they are tried.
pub fn shortcut_order() -> (r: Vec<BindField>)
    ensures
        r@ == bind_order(),
{
    let r: Vec<BindField> = vec![
        BindField::Redo,
        BindField::Undo,
        BindField::DeleteClip,
        BindField::SplitClip,
        BindField::PlayPause,
        BindField::StepFwd,
        BindField::StepBack,
        BindField::JumpStart,
        BindField::JumpEnd,
        BindField::ExportRender,
        BindField::AddText,
        BindField::TogglePeaks,
        BindField::AddVideoTrack,
        BindField::AddAudioTrack,
        BindField::CloseWindow,
    ];
    assert(r@ =~= bind_order());
    r
}

/// Every shortcut is tried, and each once.
pub proof fn law_every_shortcut_is_tried()
    ensures
        forall|f: BindField| #[trigger] bind_order().contains(f),
        bind_order().no_duplicates(),
{
    let order = bind_order();
    assert forall|f: BindField| #[trigger] order.contains(f) by {
        let i: int = match f {
            BindField::Redo => 0,
            BindField::Undo => 1,
            BindField::DeleteClip => 2,
            BindField::SplitClip => 3,
            BindField::PlayPause => 4,
            BindField::StepFwd => 5,
            BindField::StepBack => 6,
            BindField::JumpStart => 7,
            BindField::JumpEnd => 8,
            BindField::ExportRender => 9,
            BindField::AddText => 10,
            BindField::TogglePeaks => 11,
            BindField::AddVideoTrack => 12,
            BindField::AddAudioTrack => 13,
            BindField::CloseWindow => 14,
        };
        assert(order[i] == f);
    }
}

/// The shortcuts that cannot be rebound.
#[derive(Debug, Clone, Copy, PartialEq, Eq, Structural)]
pub enum FixedCommand {
    Copy,
    Cut,
    Paste,
    Palette,
    Mixer,
    NudgeLeft,
    NudgeRight,
}

/// Which of the keys with a fixed meaning are pressed.
#[derive(Debug, Clone, Copy)]
pub struct FixedKeys {
    pub ctrl: bool,
    pub shift: bool,
    pub c: bool,
    pub x: bool,
    pub v: bool,
    pub k: bool,
    pub m: bool,
    pub left: bool,
    pub right: bool,
}

/// What the keys with a fixed meaning ask for: letters with control, arrows with
/// shift, nothing with both or neither.
pub open spec fn fixed_command_of(keys: FixedKeys) -> Option<FixedCommand> {
    if keys.ctrl && !keys.shift {
        if keys.c {
            Some(FixedCommand::Copy)
        } else if keys.x {
            Some(FixedCommand::Cut)
        } else if keys.v {
            Some(FixedCommand::Paste)
        } else if keys.k {
            Some(FixedCommand::Palette)
        } else if keys.m {
            Some(FixedCommand::Mixer)
        } else {
            None
        }
    } else if keys.shift && !keys.ctrl {
        if keys.left {
            Some(FixedCommand::NudgeLeft)
        } else if keys.right {
            Some(FixedCommand::NudgeRight)
        } else {
            None
        }
    } else {
        None
    }
}

/// What the keys with a fixed meaning ask for.
pub fn fixed_command(keys: FixedKeys) -> (r: Option<FixedCommand>)
    ensures
        r == fixed_command_of(keys),
{
    if keys.ctrl && !keys.shift {
        if keys.c {
            Some(FixedCommand::Copy)
        } else if keys.x {
            Some(FixedCommand::Cut)
        } else if keys.v {
            Some(FixedCommand::Paste)
        } else if keys.k {
            Some(FixedCommand::Palette)
        } else if keys.m {
            Some(FixedCommand::Mixer)
        } else {
            None
        }
    } else if keys.shift && !keys.ctrl {
        if keys.left {
            Some(FixedCommand::NudgeLeft)
        } else if keys.right {
            Some(FixedCommand::NudgeRight)
        } else {
            None
        }
    } else {
        None
    }
}

/// The message on a new bind.
pub open spec fn bound_message(f: BindField, sc: ShortcutView) -> Seq<char> {
    "Bound "@ + label_of(f) + " to "@ + shortcut_text(sc)
}

/// The selections without one of them.
pub open spec fn selections_without(s: Seq<Selection>, sel: Selection) -> Seq<Selection>
    decreases s.len(),
{
    if s.len() == 0 {
        Seq::empty()
    } else {
        let before = selections_without(s.drop_last(), sel);
        if s.last() == sel {
            before
        } else {
            before.push(s.last())
        }
    }
}

/// The selections after a click on a clip with control: one more, or one less
/// where it was among them.
pub open spec fn selections_toggled(s: Seq<Selection>, sel: Selection) -> Seq<Selection> {
    if s.contains(sel) {
        selections_without(s, sel)
    } else {
        s.push(sel)
    }
}

proof fn lemma_selections_without(s: Seq<Selection>, sel: Selection)
    ensures
        forall|x: Selection| #[trigger]
            selections_without(s, sel).contains(x) <==> x != sel && s.contains(x),
    decreases s.len(),
{
    let r = selections_without(s, sel);
    if s.len() > 0 {
        let init = s.drop_last();
        lemma_selections_without(init, sel);
        let before = selections_without(init, sel);
        assert forall|x: Selection| #[trigger] r.contains(x) <==> x != sel && s.contains(x) by {
            if r.contains(x) {
                let k = choose|k: int| 0 <= k < r.len() && r[k] == x;
                if k < before.len() {
                    assert(before[k] == x);
                    assert(before.contains(x));
                    let l = choose|l: int| 0 <= l < init.len() && init[l] == x;
                    assert(s[l] == x);
                } else {
                    assert(s[s.len() - 1] == x);
                }
            }
            if x != sel && s.contains(x) {
                let l = choose|l: int| 0 <= l < s.len() && s[l] == x;
                if l < init.len() {
                    assert(init[l] == x);
                    assert(init.contains(x));
                    assert(before.contains(x));
                    let k = choose|k: int| 0 <= k < before.len() && before[k] == x;
                    assert(r[k] == x);
                } else {
                    assert(r[r.len() - 1] == x);
                }
            }
        }
    }
}

/// A click with control takes a clip into the selection or out of it and leaves the
/// others there.
pub proof fn law_control_click_toggles(s: Seq<Selection>, sel: Selection, other: Selection)
    requires
        other != sel,
    ensures
        selections_toggled(s, sel).contains(sel) <==> !s.contains(sel),
        selections_toggled(s, sel).contains(other) <==> s.contains(other),
{
    lemma_selections_without(s, sel);
    let p = s.push(sel);
    assert(p[p.len() - 1] == sel);
    if s.contains(other) {
        let k = choose|k: int| 0 <= k < s.len() && s[k] == other;
        assert(p[k] == other);
    }
    if p.contains(other) {
        let k = choose|k: int| 0 <= k < p.len() && p[k] == other;
        assert(s[k] == other);
    }
}

/// A selection names a track and the number of a clip there.
pub open spec fn names_place(s: Selection, track: int, clip: int) -> bool {
    selected_clip(s) matches Some((_, t, c)) && t == track && c == clip
}

fn at_place(s: Selection, track: usize, clip: usize) -> (r: bool)
    ensures
        r == names_place(s, track as int, clip as int),
{
    match s.place() {
        Some((_, t, c)) => t == track && c == clip,
        None => false,
    }
}

impl RsEditApp {
    /// Takes a new bind for the field that waits for one, or gives up waiting.
    pub fn capture(&mut self, combo: Option<Shortcut>, cancel: bool)
        ensures
            match (old(self).capturing, combo) {
                (Some(f), Some(sc)) => {
                    &&& *final(self) == (RsEditApp {
                        keybinds: final(self).keybinds,
                        capturing: None,
                        toasts: final(self).toasts,
                        ..*old(self)
                    })
                    &&& forall|g: BindField| #[trigger]
                        final(self).keybinds.at(g) == (if g == f {
                            sc@
                        } else {
                            old(self).keybinds.at(g)
                        })
                    &&& views(final(self).toasts@) == views(old(self).toasts@).push(
                        bound_message(f, sc@),
                    )
                },
                (Some(f), None) => *final(self) == (RsEditApp {
                    capturing: if cancel {
                        None
                    } else {
                        Some(f)
                    },
                    ..*old(self)
                }),
                (None, _) => *final(self) == *old(self),
            },
    {
        let f: BindField = match self.capturing {
            Some(f) => f,
            None => {
                return;
            },
        };
        match combo {
            Some(sc) => {
                let mut message: String = "Bound ".to_string();
                message.append(bind_label(f));
                message.append(" to ");
                message.append(shortcut_label(&sc).as_str());
                self.keybinds.set(f, sc);
                self.capturing = None;
                self.toast(message.as_str());
            },
            None => {
                if cancel {
                    self.capturing = None;
                }
            },
        }
    }

    /// Selects the clip that was clicked; with control, more than one.
    pub fn click_clip(&mut self, sel: Selection, ctrl: bool)
        ensures
            *final(self) == (RsEditApp {
                selected: sel,
                multi_selection: final(self).multi_selection,
                ..*old(self)
            }),
            final(self).multi_selection@ == (if ctrl {
                selections_toggled(old(self).multi_selection@, sel)
            } else {
                Seq::empty()
            }),
    {
        if ctrl {
            let ghost all = self.multi_selection@;
            let mut rest: Vec<Selection> = Vec::new();
            let mut found: bool = false;
            let mut i: usize = 0;
            while i < self.multi_selection.len()
                invariant
                    i <= self.multi_selection.len(),
                    all == self.multi_selection@,
                    rest@ == selections_without(all.take(i as int), sel),
                    found == all.take(i as int).contains(sel),
                decreases self.multi_selection.len() - i,
            {
                let s: Selection = self.multi_selection[i];
                proof {
                    let upto = all.take(i as int);
                    let next = all.take(i + 1);
                    assert(next.drop_last() =~= upto);
                    assert(next.last() == s);
                    if s == sel {
                        assert(next[i as int] == sel);
                    }
                    if upto.contains(sel) {
                        let k = choose|k: int| 0 <= k < upto.len() && upto[k] == sel;
                        assert(next[k] == sel);
                    }
                    if next.contains(sel) && s != sel {
                        let k = choose|k: int| 0 <= k < next.len() && next[k] == sel;
                        assert(upto[k] == sel);
                    }
                }
                if s == sel {
                    found = true;
                } else {
                    rest.push(s);
                }
                i = i + 1;
            }
            proof {
                assert(all.take(all.len() as int) =~= all);
            }
            if found {
                self.multi_selection = rest;
            } else {
                self.multi_selection.push(sel);
            }
        } else {
            self.multi_selection = Vec::new();
            proof {
                assert(self.multi_selection@ =~= Seq::empty());
            }
        }
        self.selected = sel;
    }

    /// Clears the selection after a click beside the clips; in the ruler the
    /// playhead goes to the time that was clicked, within the project.
    pub fn click_empty(&mut self, ruler_us: Option<i64>)
        requires
            old(self).project@.times_fit(),
        ensures
            final(self).multi_selection@ == Seq::<Selection>::empty(),
            match ruler_us {
                Some(t) => *final(self) == (RsEditApp {
                    selected: Selection::Nothing,
                    multi_selection: final(self).multi_selection,
                    playhead_us: crate::edit::clamped_time(
                        t as int,
                        0,
                        last_time(old(self).project@),
                    ) as i64,
                    seek_audio: true,
                    last_request: None,
                    ..*old(self)
                }),
                None => *final(self) == (RsEditApp {
                    selected: Selection::Nothing,
                    multi_selection: final(self).multi_selection,
                    ..*old(self)
                }),
            },
    {
        self.multi_selection = Vec::new();
        self.selected = Selection::Nothing;
        proof {
            assert(self.multi_selection@ =~= Seq::empty());
        }
        if let Some(t) = ruler_us {
            let end: i64 = self.end_us();
            self.playhead_us = if t < 0 {
                0
            } else if t > end {
                end
            } else {
                t
            };
            self.seek_marker();
        }
    }

    /// Begins to drag a clip: the project is kept for undo.
    pub fn begin_drag(&mut self, drag: TimelineDrag)
        ensures
            *final(self) == (RsEditApp {
                history: final(self).history,
                dirty: true,
                timeline_drag: Some(drag),
                ..*old(self)
            }),
            final(self).history@ == old(self).history@.recorded(old(self).project@),
    {
        self.push_undo();
        self.timeline_drag = Some(drag);
    }

    /// The drag that moves a clip grabbed at time `t`.
    pub fn grab(&self, lane: Lane, track: usize, clip: usize, t: i64) -> (d: TimelineDrag)
        requires
            is_time(t - clip_time(self.project@, lane, track as int, clip as int)),
        ensures
            d == (TimelineDrag::Move {
                lane,
                track,
                clip,
                grab_us: not_below_zero(
                    t - clip_time(self.project@, lane, track as int, clip as int),
                ) as i64,
            }),
    {
        let into: i64 = t - clip_time_start(&self.project, lane, track, clip);
        TimelineDrag::Move {
            lane,
            track,
            clip,
            grab_us: if into > 0 {
                into
            } else {
                0
            },
        }
    }

    /// Where a clip proposed at `t` goes, with snapping on or off.
    pub open spec fn snap_target(self, t: int) -> int {
        if self.settings.snap_to_playhead {
            snapped(self.project@, self.playhead_us as int, self.timeline_zoom, t)
        } else {
            t
        }
    }

    /// Snaps a proposed start, where snapping is on.
    pub fn snapped_time(&self, t: i64) -> (r: i64)
        requires
            self.project@.times_fit(),
        ensures
            r == self.snap_target(t as int),
    {
        if !self.settings.snap_to_playhead {
            return t;
        }
        self.project.snap(self.playhead_us, self.timeline_zoom, t)
    }

    /// The drag under way can go to pointer time `t`.
    pub open spec fn can_drag_to(self, t: int) -> bool {
        match self.timeline_drag {
            Some(TimelineDrag::Move { lane, track, clip, grab_us }) => {
                &&& grab_us >= 0
                &&& can_move(
                    self.project@,
                    lane,
                    track as int,
                    clip as int,
                    self.snap_target(dragged_start(not_below_zero(t), grab_us as int)),
                )
            },
            Some(TimelineDrag::TrimL { lane, track, clip }) => can_trim_left(
                self.project@,
                lane,
                track as int,
                clip as int,
                not_below_zero(t),
            ),
            Some(TimelineDrag::TrimR { lane, track, clip }) => can_trim_right(
                self.project@,
                lane,
                track as int,
                clip as int,
                not_below_zero(t),
            ),
            None => true,
        }
    }

    /// The project with the drag under way at pointer time `t`.
    pub open spec fn dragged(self, t: int) -> ProjectView {
        match self.timeline_drag {
            Some(TimelineDrag::Move { lane, track, clip, grab_us }) => moved_clip(
                self.project@,
                lane,
                track as int,
                clip as int,
                self.snap_target(dragged_start(not_below_zero(t), grab_us as int)) as i64,
            ),
            Some(TimelineDrag::TrimL { lane, track, clip }) => trimmed_left(
                self.project@,
                lane,
                track as int,
                clip as int,
                not_below_zero(t),
            ),
            Some(TimelineDrag::TrimR { lane, track, clip }) => trimmed_right(
                self.project@,
                lane,
                track as int,
                clip as int,
                not_below_zero(t),
            ),
            None => self.project@,
        }
    }

    fn drag_clip(&mut self, lane: Lane, track: usize, clip: usize, start: i64) -> (done: bool)
        requires
            old(self).project@.times_fit(),
        ensures
            done == can_move(
                old(self).project@,
                lane,
                track as int,
                clip as int,
                old(self).snap_target(start as int),
            ),
            done ==> final(self).project@ == moved_clip(
                old(self).project@,
                lane,
                track as int,
                clip as int,
                old(self).snap_target(start as int) as i64,
            ) && *final(self) == (RsEditApp {
                project: final(self).project,
                dirty: true,
                ..*old(self)
            }),
            !done ==> *final(self) == *old(self),
    {
        let to: i64 = self.snapped_time(start);
        if !self.project.can_move_clip(lane, track, clip, to) {
            return false;
        }
        self.project.move_clip_to(lane, track, clip, to);
        self.dirty = true;
        true
    }

    fn drag_left_edge(&mut self, lane: Lane, track: usize, clip: usize, t: i64) -> (done: bool)
        ensures
            done == can_trim_left(old(self).project@, lane, track as int, clip as int, t as int),
            done ==> final(self).project@ == trimmed_left(
                old(self).project@,
                lane,
                track as int,
                clip as int,
                t as int,
            ) && *final(self) == (RsEditApp {
                project: final(self).project,
                dirty: true,
                ..*old(self)
            }),
            !done ==> *final(self) == *old(self),
    {
        let done: bool = self.project.trim_left(lane, track, clip, t);
        if done {
            self.dirty = true;
        }
        done
    }

    fn drag_right_edge(&mut self, lane: Lane, track: usize, clip: usize, t: i64) -> (done: bool)
        ensures
            done == can_trim_right(old(self).project@, lane, track as int, clip as int, t as int),
            done ==> final(self).project@ == trimmed_right(
                old(self).project@,
                lane,
                track as int,
                clip as int,
                t as int,
            ) && *final(self) == (RsEditApp {
                project: final(self).project,
                dirty: true,
                ..*old(self)
            }),
            !done ==> *final(self) == *old(self),
    {
        let done: bool = self.project.trim_right(lane, track, clip, t);
        if done {
            self.dirty = true;
        }
        done
    }

    /// Goes on with a drag at pointer time `t`; `false`, with nothing done, where the
    /// clip or its edge cannot be placed there.
    pub fn drag_to(&mut self, t: i64) -> (done: bool)
        requires
            old(self).project@.times_fit(),
        ensures
            done == old(self).can_drag_to(t as int),
            done ==> final(self).project@ == old(self).dragged(t as int) && *final(self) == (
            RsEditApp {
                project: final(self).project,
                dirty: old(self).dirty || old(self).timeline_drag.is_some(),
                ..*old(self)
            }),
            !done ==> *final(self) == *old(self),
    {
        let at: i64 = if t > 0 {
            t
        } else {
            0
        };
        match self.timeline_drag {
            Some(TimelineDrag::Move { lane, track, clip, grab_us }) => {
                if grab_us < 0 {
                    return false;
                }
                let start: i64 = if at > grab_us {
                    at - grab_us
                } else {
                    0
                };
                assert(start == dragged_start(not_below_zero(t as int), grab_us as int));
                self.drag_clip(lane, track, clip, start)
            },
            Some(TimelineDrag::TrimL { lane, track, clip }) => self.drag_left_edge(
                lane,
                track,
                clip,
                at,
            ),
            Some(TimelineDrag::TrimR { lane, track, clip }) => self.drag_right_edge(
                lane,
                track,
                clip,
                at,
            ),
            None => true,
        }
    }

    /// Ends a drag.
    pub fn end_drag(&mut self)
        ensures
            *final(self) == (RsEditApp {
                timeline_drag: None,
                mix_stale: true,
                last_request: None,
                ..*old(self)
            }),
    {
        self.timeline_drag = None;
        self.mix_stale = true;
        self.last_request = None;
    }

    /// Throws a switch in the header of a track.
    pub fn click_header(&mut self, lane: Lane, track: usize, button: HeaderButton)
        requires
            track_exists(old(self).project@, lane, track as int),
        ensures
            *final(self) == (RsEditApp {
                project: final(self).project,
                history: final(self).history,
                dirty: true,
                mix_stale: old(self).mix_stale || (lane == Lane::Audio && button
                    != HeaderButton::Lock),
                ..*old(self)
            }),
            final(self).project@ == header_toggled(
                old(self).project@,
                lane,
                track as int,
                button,
            ),
            final(self).history@ == old(self).history@.recorded(old(self).project@),
    {
        self.push_undo();
        self.project.toggle_header(lane, track, button);
        if lane == Lane::Audio && button != HeaderButton::Lock {
            self.mix_stale = true;
        }
    }

    /// The time at which a dropped asset starts: where it was last dragged over, else
    /// the end of the project; the playhead where that is near and snapping is on.
    pub open spec fn drop_time(self) -> int {
        let at = match self.drag_timeline_us {
            Some(t) => t as int,
            None => self.project@.duration(),
        };
        if self.settings.snap_to_playhead && distance(at, self.playhead_us as int) < 150_000 {
            self.playhead_us as int
        } else {
            at
        }
    }

    /// There is a place for an asset that is dropped on such a track.
    pub open spec fn can_drop(self, target: Option<(Lane, usize)>) -> bool {
        match target {
            Some((Lane::Video, _)) => self.project@.video_tracks.len() > 0,
            Some((Lane::Audio, _)) => self.project@.audio_tracks.len() > 0,
            Some((Lane::Text, _)) => {
                &&& self.project@.text_tracks.len() > 0
                &&& not_below_zero(self.drop_time()) + 3 * SECOND_US <= i64::MAX
            },
            None => true,
        }
    }

    /// The project with an asset dropped on a track: a clip of it, or a new text on a
    /// text track.
    pub open spec fn dropped(self, id: AssetId, lane: Lane, track: int) -> ProjectView {
        match lane {
            Lane::Text => with_text(
                self.project@,
                nearest_track(track, self.project@.text_tracks.len() as int),
                "New text"@,
                not_below_zero(self.drop_time()),
            ),
            _ => with_asset_clip(self.project@, id, lane, track, self.drop_time() as i64),
        }
    }

    /// Whether there is a place for a dropped asset.
    pub fn may_drop(&self, target: Option<(Lane, usize)>) -> (r: bool)
        requires
            self.project@.times_fit(),
        ensures
            r == self.can_drop(target),
    {
        match target {
            Some((Lane::Video, _)) => self.project.video_tracks.len() > 0,
            Some((Lane::Audio, _)) => self.project.audio_tracks.len() > 0,
            Some((Lane::Text, _)) => self.project.text_tracks.len() > 0 && self.drop_us() <= i64::MAX
                - 3 * SECOND_US,
            None => true,
        }
    }

    fn drop_us(&self) -> (r: i64)
        requires
            self.project@.times_fit(),
        ensures
            r == self.drop_time(),
    {
        let at: i64 = match self.drag_timeline_us {
            Some(t) => t,
            None => self.project.duration_us(),
        };
        let d: i128 = if at < self.playhead_us {
            self.playhead_us as i128 - at as i128
        } else {
            at as i128 - self.playhead_us as i128
        };
        if self.settings.snap_to_playhead && d < 150_000 {
            self.playhead_us
        } else {
            at
        }
    }

    /// Drops the asset that is dragged from the media panel on a track, or nowhere.
    pub fn drop_asset(&mut self, target: Option<(Lane, usize)>)
        requires
            old(self).project@.times_fit(),
            old(self).can_drop(target),
        ensures
            match (old(self).drag_source, target) {
                (Some(id), Some((lane, track))) => {
                    &&& *final(self) == (RsEditApp {
                        project: final(self).project,
                        history: final(self).history,
                        dirty: true,
                        drag_source: None,
                        drag_timeline_us: None,
                        last_request: if lane == Lane::Text || !old(self).project@.assets.assets.contains_key(id.0) {
                            old(self).last_request
                        } else {
                            None
                        },
                        ..*old(self)
                    })
                    &&& final(self).project@ == old(self).dropped(id, lane, track as int)
                    &&& final(self).history@ == old(self).history@.recorded(old(self).project@)
                },
                (Some(_), None) => *final(self) == (RsEditApp {
                    drag_source: None,
                    drag_timeline_us: None,
                    ..*old(self)
                }),
                (None, _) => *final(self) == *old(self),
            },
    {
        let id: AssetId = match self.drag_source {
            Some(id) => id,
            None => {
                return;
            },
        };
        let at: i64 = self.drop_us();
        if let Some((lane, track)) = target {
            self.push_undo();
            if lane == Lane::Text {
                self.project.add_text_clip_at(track, at);
            } else {
                let known: bool = self.project.assets.get(id).is_some();
                self.project.add_clip_at(id, lane, track, at);
                if known {
                    self.last_request = None;
                }
            }
        }
        self.drag_source = None;
        self.drag_timeline_us = None;
    }

    /// A clip is shown as selected where the selection, or one of several, names its track
    /// and its number there, on whichever kind of lane.
    pub open spec fn marks(self, track: int, clip: int) -> bool {
        names_place(self.selected, track, clip) || exists|i: int|
            0 <= i < self.multi_selection@.len() && names_place(
                #[trigger] self.multi_selection@[i],
                track,
                clip,
            )
    }

    /// Whether a clip is shown as selected.
    pub fn is_marked(&self, track: usize, clip: usize) -> (r: bool)
        ensures
            r == self.marks(track as int, clip as int),
    {
        if at_place(self.selected, track, clip) {
            return true;
        }
        let mut i: usize = 0;
        while i < self.multi_selection.len()
            invariant
                i <= self.multi_selection.len(),
                !names_place(self.selected, track as int, clip as int),
                forall|k: int|
                    0 <= k < i ==> !names_place(
                        #[trigger] self.multi_selection@[k],
                        track as int,
                        clip as int,
                    ),
            decreases self.multi_selection.len() - i,
        {
            if at_place(self.multi_selection[i], track, clip) {
                return true;
            }
            i = i + 1;
        }
        false
    }

    /// Opens or closes the command palette; it opens at its first command.
    pub fn toggle_palette(&mut self)
        ensures
            *final(self) == (RsEditApp {
                windows: Windows {
                    palette_open: !old(self).windows.palette_open,
                    ..old(self).windows
                },
                palette_sel: if old(self).windows.palette_open {
                    old(self).palette_sel
                } else {
                    0
                },
                ..*old(self)
            }),
    {
        self.windows.palette_open = !self.windows.palette_open;
        if self.windows.palette_open {
            self.palette_sel = 0;
        }
    }
}

impl RsEditApp {
    /// What a shortcut needs.
    pub open spec fn can_run_bind(self, f: BindField) -> bool {
        match f {
            BindField::DeleteClip => self.can_delete_selected(),
            BindField::SplitClip => self.can_split_selected(),
            BindField::StepFwd | BindField::StepBack | BindField::JumpEnd => {
                self.project@.times_fit()
            },
            BindField::AddText => {
                &&& self.project.text_tracks.len() > 0
                &&& self.playhead_us + 3 * SECOND_US <= i64::MAX
            },
            _ => true,
        }
    }

    /// Whether a shortcut can run.
    pub fn may_run_bind(&self, f: BindField) -> (r: bool)
        ensures
            r == self.can_run_bind(f),
    {
        match f {
            BindField::DeleteClip => self.may_delete_selected(),
            BindField::SplitClip => self.may_split_selected(),
            BindField::StepFwd | BindField::StepBack | BindField::JumpEnd => {
                self.project.times_fit()
            },
            BindField::AddText => self.project.text_tracks.len() > 0 && self.playhead_us <= i64::MAX
                - 3 * SECOND_US,
            _ => true,
        }
    }

    /// The state that a shortcut for the playhead leaves.
    pub open spec fn transported(self, f: BindField) -> RsEditApp {
        match f {
            BindField::PlayPause => RsEditApp { playing: !self.playing, seek_audio: true, ..self },
            BindField::StepFwd => RsEditApp {
                playhead_us: stepped(self.project@, self.playhead_us as int, 1) as i64,
                seek_audio: true,
                last_request: None,
                ..self
            },
            BindField::StepBack => RsEditApp {
                playhead_us: stepped(self.project@, self.playhead_us as int, -1) as i64,
                seek_audio: true,
                last_request: None,
                ..self
            },
            BindField::JumpStart => RsEditApp {
                playhead_us: 0,
                seek_audio: true,
                last_request: None,
                ..self
            },
            BindField::JumpEnd => RsEditApp {
                playhead_us: last_time(self.project@) as i64,
                seek_audio: true,
                last_request: None,
                ..self
            },
            _ => self,
        }
    }

    /// The state that a shortcut for a window or a setting leaves.
    pub open spec fn switched_by(self, f: BindField) -> RsEditApp {
        match f {
            BindField::ExportRender => RsEditApp {
                windows: Windows { export_open: !self.windows.export_open, ..self.windows },
                ..self
            },
            BindField::TogglePeaks => RsEditApp {
                settings: Settings { show_peaks: !self.settings.show_peaks, ..self.settings },
                ..self
            },
            BindField::CloseWindow => RsEditApp {
                windows: Windows { export_open: false, settings_open: false, ..self.windows },
                ..self
            },
            _ => self,
        }
    }

    /// The state that a shortcut leaves.
    pub open spec fn bind_ran(self, f: BindField, to: RsEditApp) -> bool {
        match f {
            BindField::Redo => {
                &&& to.project@ == self.history@.next(self.project@)
                &&& to.history@ == self.history@.redone(self.project@)
                &&& self.history@.can_redo() ==> to == (RsEditApp {
                    project: to.project,
                    history: to.history,
                    mix_stale: true,
                    last_request: None,
                    ..self
                })
                &&& !self.history@.can_redo() ==> to == self
            },
            BindField::Undo => {
                &&& to.project@ == self.history@.previous(self.project@)
                &&& to.history@ == self.history@.undone(self.project@)
                &&& self.history@.can_undo() ==> to == (RsEditApp {
                    project: to.project,
                    history: to.history,
                    mix_stale: true,
                    last_request: None,
                    ..self
                })
                &&& !self.history@.can_undo() ==> to == self
            },
            BindField::DeleteClip => self.selected_deleted(to),
            BindField::SplitClip => self.selected_split(to),
            BindField::AddText => {
                &&& to == (RsEditApp {
                    project: to.project,
                    history: to.history,
                    dirty: true,
                    ..self
                })
                &&& to.project@ == with_text(
                    self.project@,
                    0,
                    "New title"@,
                    self.playhead_us as int,
                )
                &&& to.history@ == self.history@.recorded(self.project@)
            },
            BindField::AddVideoTrack => {
                &&& to == (RsEditApp {
                    project: to.project,
                    history: to.history,
                    dirty: true,
                    last_request: None,
                    ..self
                })
                &&& to.project@ == with_track(self.project@, Lane::Video)
                &&& to.history@ == self.history@.recorded(self.project@)
            },
            BindField::AddAudioTrack => {
                &&& to == (RsEditApp {
                    project: to.project,
                    history: to.history,
                    dirty: true,
                    last_request: None,
                    ..self
                })
                &&& to.project@ == with_track(self.project@, Lane::Audio)
                &&& to.history@ == self.history@.recorded(self.project@)
            },
            BindField::ExportRender | BindField::TogglePeaks | BindField::CloseWindow => to
                == self.switched_by(f),
            _ => to == self.transported(f),
        }
    }

    fn run_transport(&mut self, f: BindField)
        requires
            old(self).can_run_bind(f),
        ensures
            *final(self) == old(self).transported(f),
    {
        match f {
            BindField::PlayPause => self.toggle_play(),
            BindField::StepFwd => self.step_frame(1),
            BindField::StepBack => self.step_frame(-1),
            BindField::JumpStart => self.jump_start(),
            BindField::JumpEnd => self.jump_end(),
            _ => {},
        }
    }

    fn run_switch_bind(&mut self, f: BindField)
        ensures
            *final(self) == old(self).switched_by(f),
    {
        match f {
            BindField::ExportRender => {
                self.windows.export_open = !self.windows.export_open;
            },
            BindField::TogglePeaks => {
                self.settings.show_peaks = !self.settings.show_peaks;
            },
            BindField::CloseWindow => {
                self.windows.export_open = false;
                self.windows.settings_open = false;
            },
            _ => {},
        }
    }

    fn run_edit_bind(&mut self, f: BindField)
        requires
            old(self).can_run_bind(f),
            f == BindField::DeleteClip || f == BindField::SplitClip || f == BindField::AddText || f
                == BindField::AddVideoTrack || f == BindField::AddAudioTrack,
        ensures
            old(self).bind_ran(f, *final(self)),
    {
        match f {
            BindField::DeleteClip => self.delete_selected(),
            BindField::SplitClip => self.split_selected(),
            BindField::AddText => self.add_text_clip(),
            BindField::AddVideoTrack => self.add_track(Lane::Video),
            _ => self.add_track(Lane::Audio),
        }
    }

    /// Runs a shortcut.
    pub fn run_bind(&mut self, f: BindField)
        requires
            old(self).can_run_bind(f),
        ensures
            old(self).bind_ran(f, *final(self)),
    {
        match f {
            BindField::Redo => self.redo(),
            BindField::Undo => self.undo(),
            BindField::DeleteClip
            | BindField::SplitClip
            | BindField::AddText
            | BindField::AddVideoTrack
            | BindField::AddAudioTrack => self.run_edit_bind(f),
            BindField::ExportRender | BindField::TogglePeaks | BindField::CloseWindow => {
                self.run_switch_bind(f)
            },
            _ => self.run_transport(f),
        }
    }
}

} // verus!
