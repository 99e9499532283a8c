//! A session: starting up, project files, imports, the playback clock and which
//! frame to ask for.

use crate::app::{last_time, RsEditApp, Selection, Windows};
use crate::edit::{asset_removed, in_use, with_asset_clip, with_subtitles, Lane};
use crate::exact::{law_integers_are_exact, law_integers_come_back, lemma_integers_in_order};
use crate::float::{
    difference, double, less, negated, of_integer, positive, to_integer, Float32, Float64, Number,
    Toward,
};
use crate::framecache::FrameRequest;
use crate::history::{History, HistoryView};
use crate::prefs::{
    copy_texts, default_shortcut, restored_at, row_views, BindField, Keybinds, PreferencesFile,
    Settings,
};
use crate::project::{all_fit, new_project, top_showing, top_video_clip, Project, ProjectView};
use crate::strings::{chars_of, ends_with, finishes_with, same_text};
use crate::text::{parse_subtitles, subtitles, Subtitle};
use crate::timeline::{views, AssetId, AssetKind, ONE_BITS, SECOND_US};
use vstd::arithmetic::power2::lemma2_to64_rest;
use vstd::prelude::*;
use vstd::string::*;

verus! {

/// How many recent files are kept.
pub const RECENT_LIMIT: usize = 8;

/// The texts without one of them.
pub open spec fn texts_without(s: Seq<Seq<char>>, t: Seq<char>) -> Seq<Seq<char>>
    decreases s.len(),
{
    if s.len() == 0 {
        Seq::empty()
    } else {
        let before = texts_without(s.drop_last(), t);
        if s.last() == t {
            before
        } else {
            before.push(s.last())
        }
    }
}

/// The recent files with a path in front; it stands there once, and no more than
/// eight are kept.
pub open spec fn recent_added(recent: Seq<Seq<char>>, path: Seq<char>) -> Seq<Seq<char>> {
    let all = seq![path] + texts_without(recent, path);
    if all.len() > RECENT_LIMIT {
        all.take(RECENT_LIMIT as int)
    } else {
        all
    }
}

proof fn lemma_texts_without(s: Seq<Seq<char>>, t: Seq<char>)
    ensures
        !texts_without(s, t).contains(t),
        s.no_duplicates() ==> texts_without(s, t).no_duplicates(),
        forall|k: int|
            0 <= k < texts_without(s, t).len() ==> s.contains(#[trigger] texts_without(s, t)[k]),
    decreases s.len(),
{
    if s.len() > 0 {
        let init = s.drop_last();
        lemma_texts_without(init, t);
        let before = texts_without(init, t);
        let r = texts_without(s, t);
        assert forall|k: int| 0 <= k < r.len() implies s.contains(#[trigger] r[k]) by {
            if k < before.len() {
                assert(init.contains(before[k]));
                let l = choose|l: int| 0 <= l < init.len() && init[l] == before[k];
                assert(s[l] == r[k]);
            } else {
                assert(s[s.len() - 1] == r[k]);
            }
        }
        if r.contains(t) {
            let k = choose|k: int| 0 <= k < r.len() && r[k] == t;
            if k < before.len() {
                assert(before.contains(t));
            }
        }
        if s.no_duplicates() {
            assert(init.no_duplicates());
            assert forall|i: int, j: int| 0 <= i < r.len() && 0 <= j < r.len() && i != j implies r[i]
                != r[j] by {
                if i < before.len() && j < before.len() {
                } else {
                    let k = if i < before.len() {
                        i
                    } else {
                        j
                    };
                    assert(init.contains(before[k]));
                    let l = choose|l: int| 0 <= l < init.len() && init[l] == before[k];
                    assert(s[l] != s[s.len() - 1]);
                }
            }
        }
    }
}

/// The recent files start with the one last used, hold none twice, and are no more
/// than eight.
pub proof fn law_recent_files(recent: Seq<Seq<char>>, path: Seq<char>)
    ensures
        recent_added(recent, path)[0] == path,
        1 <= recent_added(recent, path).len() <= RECENT_LIMIT,
        recent.no_duplicates() ==> recent_added(recent, path).no_duplicates(),
{
    lemma_texts_without(recent, path);
    let rest = texts_without(recent, path);
    let all = seq![path] + rest;
    if recent.no_duplicates() {
        assert forall|i: int, j: int| 0 <= i < all.len() && 0 <= j < all.len() && i != j implies all[i]
            != all[j] by {
            if i > 0 {
                assert(all[i] == rest[i - 1]);
            }
            if j > 0 {
                assert(all[j] == rest[j - 1]);
            }
            if i == 0 {
                assert(rest.contains(all[j]));
            }
            if j == 0 {
                assert(rest.contains(all[i]));
            }
        }
    }
}

/// The position of playback, the playhead and whether playback goes on.
pub struct Clock {
    pub playhead: int,
    pub playing: bool,
    pub seek: bool,
}

/// The clock after sound has got to `pos`: the playhead follows it, a loop region
/// sends it back to its start, and past the end of the project playback stops at
/// zero.
pub open spec fn clock_after(p: ProjectView, playhead: int, pos: Number) -> Clock {
    let at = if less(of_integer(double(), playhead), pos) {
        to_integer(double(), Toward::Zero, pos, i64::MIN as int, i64::MAX as int)
    } else {
        playhead
    };
    let wraps = match (p.loop_start, p.loop_end) {
        (Some(ls), Some(le)) => ls < le && le <= at < p.duration(),
        _ => false,
    };
    let there = if wraps {
        to_integer(
            double(),
            Toward::Zero,
            of_integer(double(), p.loop_start.unwrap() as int),
            i64::MIN as int,
            i64::MAX as int,
        )
    } else {
        at
    };
    if there > last_time(p) {
        Clock { playhead: 0, playing: false, seek: true }
    } else {
        Clock { playhead: there, playing: true, seek: wraps }
    }
}

/// What there is to ask the decoder for: the frame of the topmost clip at a time,
/// unless it shows an image.
pub open spec fn wanted_asset(p: ProjectView, t: int) -> Option<u64> {
    match top_showing(p.video_tracks, t, p.video_tracks.len() as int) {
        Some((track, place)) => {
            let id = p.video_tracks[track].clips[place].asset.0;
            if p.assets.assets.contains_key(id) && p.assets.assets[id].kind != AssetKind::Image {
                Some(id)
            } else {
                None
            }
        },
        None => None,
    }
}

/// There is a track for a clip of the asset, where there is such an asset.
pub open spec fn has_lane_for(p: ProjectView, id: AssetId) -> bool {
    p.assets.assets.contains_key(id.0) ==> if p.assets.assets[id.0].kind == AssetKind::Audio {
        p.audio_tracks.len() > 0
    } else {
        p.video_tracks.len() > 0
    }
}

/// Whether there is a track for a clip of an asset.
pub fn lane_for(p: &Project, id: AssetId) -> (r: bool)
    ensures
        r == has_lane_for(p@, id),
{
    match p.assets.get(id) {
        Some(a) => if a.kind == AssetKind::Audio {
            p.audio_tracks.len() > 0
        } else {
            p.video_tracks.len() > 0
        },
        None => true,
    }
}

/// Where a project is to be saved.
#[derive(Debug, Clone)]
pub enum SaveRequest {
    /// In this file.
    To(String),
    /// Where the user says; the file name to propose.
    Ask(String),
}

/// The file name to propose for a project: where it was saved before, with the
/// extension of projects.
pub open spec fn proposed_name(current: Option<Seq<char>>) -> Seq<char> {
    let name = match current {
        Some(p) => p,
        None => "project.rsedit"@,
    };
    if ends_with(name, ".rsedit"@) {
        name
    } else {
        name + ".rsedit"@
    }
}

pub open spec fn path_view(s: Option<String>) -> Option<Seq<char>> {
    match s {
        Some(t) => Some(t@),
        None => None,
    }
}

fn joined_text(a: &str, b: &str) -> (r: String)
    ensures
        r@ == a@ + b@,
{
    let mut s: String = a.to_string();
    s.append(b);
    s
}

/// The playhead, whether playback goes on, and whether the sound has to be moved,
/// once the sound has got to `pos`.
fn clock(p: &Project, playhead: i64, pos: Float64) -> (r: (i64, bool, bool))
    requires
        p@.times_fit(),
    ensures
        ({
            let c = clock_after(p@, playhead as int, pos@);
            r.0 == c.playhead && r.1 == c.playing && r.2 == c.seek
        }),
{
    let duration: i64 = p.duration_us();
    let last: i64 = if duration > SECOND_US {
        duration
    } else {
        SECOND_US
    };
    let at: i64 = if Float64::from_i64(playhead).less_than(pos) {
        pos.to_i64(Toward::Zero)
    } else {
        playhead
    };
    let (there, wraps): (i64, bool) = match (p.loop_start, p.loop_end) {
        (Some(ls), Some(le)) => if ls < le && at >= le && at < duration {
            (Float64::from_i64(ls).to_i64(Toward::Zero), true)
        } else {
            (at, false)
        },
        _ => (at, false),
    };
    if there > last {
        (0, false, true)
    } else {
        (there, true, wraps)
    }
}

impl RsEditApp {
    /// A session with the preferences that were kept and the project that was saved
    /// automatically, where there are any.
    pub fn new(prefs: Option<&PreferencesFile>, autosaved: Option<Project>) -> (s: RsEditApp)
        ensures
            match autosaved {
                Some(p) => s.project == p && views(s.toasts@) == seq!["Recovered autosaved project"@],
                None => s.project@ == new_project() && s.toasts@.len() == 0,
            },
            s.mix_stale,
            s.playhead_us == 0,
            !s.playing,
            s.last_request.is_none(),
            s.selected == Selection::Nothing,
            s.multi_selection@.len() == 0,
            s.clipboard.is_none(),
            s.drag_source.is_none() && s.drag_timeline_us.is_none() && s.timeline_drag.is_none(),
            s.capturing.is_none(),
            s.timeline_scroll_us == 0,
            s.timeline_zoom.bits == ONE_BITS,
            s.windows == (Windows {
                export_open: false,
                settings_open: false,
                mixer_open: false,
                palette_open: false,
                relink_open: false,
                fullscreen_preview: false,
            }),
            s.palette_filter@.len() == 0 && s.palette_sel == 0,
            s.pending_fps.is_none(),
            s.current_project_path.is_none(),
            s.history@ == (HistoryView { undo: Seq::empty(), redo: Seq::empty() }),
            !s.dirty,
            !s.seek_audio,
            match prefs {
                Some(p) => {
                    &&& s.settings == p.settings
                    &&& views(s.recent_files@) == views(p.recent@)
                    &&& forall|f: BindField| #[trigger]
                        s.keybinds.at(f) == restored_at(
                            row_views(p.keybinds@),
                            p.keybinds.len() as int,
                            f,
                        )
                },
                None => {
                    &&& s.recent_files@.len() == 0
                    &&& forall|f: BindField| #[trigger] s.keybinds.at(f) == default_shortcut(f)
                    &&& s.settings.accent@ == seq![240u8, 120u8, 64u8]
                    &&& s.settings == (Settings {
                        show_peaks: true,
                        dark_mode: true,
                        snap_to_playhead: true,
                        preview_width: 1280,
                        preview_height: 720,
                        safe_margins: false,
                        accent: s.settings.accent,
                        autosave: true,
                    })
                },
            },
    {
        let (settings, keybinds, recent_files): (Settings, Keybinds, Vec<String>) = match prefs {
            Some(p) => (p.settings, Keybinds::restored(&p.keybinds), copy_texts(&p.recent)),
            None => (Settings::default(), Keybinds::default(), Vec::new()),
        };
        let recovered: bool = autosaved.is_some();
        let project: Project = match autosaved {
            Some(p) => p,
            None => Project::new(),
        };
        let mut s: RsEditApp = RsEditApp {
            project,
            playhead_us: 0,
            playing: false,
            last_request: None,
            selected: Selection::Nothing,
            multi_selection: Vec::new(),
            clipboard: None,
            drag_source: None,
            drag_timeline_us: None,
            capturing: None,
            keybinds,
            settings,
            timeline_scroll_us: 0,
            timeline_zoom: Float32 { bits: ONE_BITS },
            timeline_drag: None,
            windows: Windows {
                export_open: false,
                settings_open: false,
                mixer_open: false,
                palette_open: false,
                relink_open: false,
                fullscreen_preview: false,
            },
            palette_filter: String::new(),
            palette_sel: 0,
            pending_fps: None,
            toasts: Vec::new(),
            recent_files,
            current_project_path: None,
            history: History::new(),
            dirty: false,
            mix_stale: true,
            seek_audio: false,
        };
        if recovered {
            s.toast("Recovered autosaved project");
            proof {
                assert(views(s.toasts@) =~= seq!["Recovered autosaved project"@]);
            }
        }
        s
    }

    /// The state with a fresh project in place of the old one, which can be undone.
    pub open spec fn started_over(self, to: RsEditApp) -> bool {
        &&& to == (RsEditApp {
            project: to.project,
            history: to.history,
            selected: Selection::Nothing,
            multi_selection: to.multi_selection,
            clipboard: None,
            last_request: None,
            playhead_us: 0,
            mix_stale: true,
            current_project_path: None,
            dirty: false,
            toasts: to.toasts,
            ..self
        })
        &&& to.project@ == new_project()
        &&& to.history@ == self.history@.recorded(self.project@)
        &&& to.multi_selection@ == Seq::<Selection>::empty()
        &&& views(to.toasts@) == views(self.toasts@).push("New project"@)
    }

    /// Starts over with a fresh project.
    pub fn new_project(&mut self)
        ensures
            old(self).started_over(*final(self)),
    {
        self.push_undo();
        self.project = Project::new();
        self.selected = Selection::Nothing;
        self.multi_selection = Vec::new();
        proof {
            assert(self.multi_selection@ =~= Seq::empty());
        }
        self.clipboard = None;
        self.last_request = None;
        self.playhead_us = 0;
        self.mix_stale = true;
        self.current_project_path = None;
        self.dirty = false;
        self.toast("New project");
    }

    /// Puts a path in front of the recent files.
    pub fn add_recent(&mut self, path: &str)
        ensures
            *final(self) == (RsEditApp { recent_files: final(self).recent_files, ..*old(self) }),
            views(final(self).recent_files@) == recent_added(views(old(self).recent_files@), path@),
    {
        let ghost all = views(self.recent_files@);
        let mut list: Vec<String> = vec![path.to_string()];
        let mut i: usize = 0;
        proof {
            assert(views(list@) =~= seq![path@] + texts_without(all.take(0), path@));
        }
        while i < self.recent_files.len()
            invariant
                i <= self.recent_files.len(),
                all == views(self.recent_files@),
                views(list@) == seq![path@] + texts_without(all.take(i as int), path@),
            decreases self.recent_files.len() - i,
        {
            proof {
                assert(all.take(i + 1).drop_last() =~= all.take(i as int));
                assert(all.take(i + 1).last() == self.recent_files@[i as int]@);
            }
            let ghost before = views(list@);
            if !same_text(self.recent_files[i].as_str(), path) {
                list.push(self.recent_files[i].clone());
                proof {
                    assert(views(list@) =~= before.push(self.recent_files@[i as int]@));
                    assert(views(list@) =~= seq![path@] + texts_without(all.take(i + 1), path@));
                }
            }
            i = i + 1;
        }
        proof {
            assert(all.take(all.len() as int) =~= all);
        }
        let ghost full = views(list@);
        list.truncate(RECENT_LIMIT);
        proof {
            assert(views(list@) =~= recent_added(all, path@));
        }
        self.recent_files = list;
    }

    /// Goes on with the project of a file, which can be undone, or says why it could
    /// not be read.
    pub fn load_project_file(&mut self, path: &str, read: Result<Project, String>)
        ensures
            match read {
                Ok(p) => {
                    &&& *final(self) == (RsEditApp {
                        project: p,
                        history: final(self).history,
                        selected: Selection::Nothing,
                        multi_selection: final(self).multi_selection,
                        last_request: None,
                        playhead_us: 0,
                        mix_stale: true,
                        current_project_path: final(self).current_project_path,
                        dirty: false,
                        recent_files: final(self).recent_files,
                        toasts: final(self).toasts,
                        ..*old(self)
                    })
                    &&& final(self).history@ == old(self).history@.recorded(old(self).project@)
                    &&& final(self).multi_selection@ == Seq::<Selection>::empty()
                    &&& path_view(final(self).current_project_path) == Some(path@)
                    &&& views(final(self).recent_files@) == recent_added(
                        views(old(self).recent_files@),
                        path@,
                    )
                    &&& views(final(self).toasts@) == views(old(self).toasts@).push(
                        "Opened "@ + path@,
                    )
                },
                Err(e) => {
                    &&& *final(self) == (RsEditApp { toasts: final(self).toasts, ..*old(self) })
                    &&& views(final(self).toasts@) == views(old(self).toasts@).push(
                        "Open failed: "@ + e@,
                    )
                },
            },
    {
        match read {
            Ok(p) => {
                self.push_undo();
                self.project = p;
                self.selected = Selection::Nothing;
                self.multi_selection = Vec::new();
                proof {
                    assert(self.multi_selection@ =~= Seq::empty());
                }
                self.last_request = None;
                self.playhead_us = 0;
                self.mix_stale = true;
                self.current_project_path = Some(path.to_string());
                self.dirty = false;
                self.add_recent(path);
                let message: String = joined_text("Opened ", path);
                self.toast(message.as_str());
            },
            Err(e) => {
                let message: String = joined_text("Open failed: ", e.as_str());
                self.toast(message.as_str());
            },
        }
    }

    /// Where a plain save goes: to the file of the project, or where the user says.
    pub fn save_project(&self) -> (r: SaveRequest)
        ensures
            match path_view(self.current_project_path) {
                Some(p) => r matches SaveRequest::To(t) && t@ == p,
                None => r matches SaveRequest::Ask(t) && t@ == proposed_name(None),
            },
    {
        match &self.current_project_path {
            Some(p) => SaveRequest::To(p.clone()),
            None => self.save_project_as(),
        }
    }

    /// Asks where to save, whatever the file of the project.
    pub fn save_project_as(&self) -> (r: SaveRequest)
        ensures
            r matches SaveRequest::Ask(t) && t@ == proposed_name(
                path_view(self.current_project_path),
            ),
    {
        let mut name: String = match &self.current_project_path {
            Some(p) => p.clone(),
            None => "project.rsedit".to_string(),
        };
        if !finishes_with(&chars_of(name.as_str()), &chars_of(".rsedit")) {
            name.append(".rsedit");
        }
        SaveRequest::Ask(name)
    }

    /// Takes note of a save: nothing is left to save, and a file that the user chose
    /// is the one of the project from then on.
    pub fn saved(&mut self, path: &str, chosen: bool, written: Result<(), String>)
        ensures
            match written {
                Ok(()) => {
                    &&& *final(self) == (RsEditApp {
                        dirty: false,
                        recent_files: final(self).recent_files,
                        toasts: final(self).toasts,
                        current_project_path: final(self).current_project_path,
                        ..*old(self)
                    })
                    &&& if chosen {
                        path_view(final(self).current_project_path) == Some(path@)
                    } else {
                        final(self).current_project_path == old(self).current_project_path
                    }
                    &&& views(final(self).recent_files@) == recent_added(
                        views(old(self).recent_files@),
                        path@,
                    )
                    &&& views(final(self).toasts@) == views(old(self).toasts@).push(
                        if chosen {
                            "Saved as "@ + path@
                        } else {
                            "Project saved"@
                        },
                    )
                },
                Err(e) => {
                    &&& *final(self) == (RsEditApp { toasts: final(self).toasts, ..*old(self) })
                    &&& views(final(self).toasts@) == views(old(self).toasts@).push(
                        "Save failed: "@ + e@,
                    )
                },
            },
    {
        match written {
            Ok(()) => {
                if chosen {
                    self.current_project_path = Some(path.to_string());
                }
                self.dirty = false;
                self.add_recent(path);
                if chosen {
                    let message: String = joined_text("Saved as ", path);
                    self.toast(message.as_str());
                } else {
                    self.toast("Project saved");
                }
            },
            Err(e) => {
                let message: String = joined_text("Save failed: ", e.as_str());
                self.toast(message.as_str());
            },
        }
    }

    /// Adds the subtitles of a file as text clips on a track of their own; `false`
    /// where the file could not be read or holds none.
    pub fn import_subtitles(&mut self, data: Option<&str>) -> (done: bool)
        ensures
            done == (data.is_some() && subtitles(data.unwrap()@).len() > 0),
            done ==> {
                &&& *final(self) == (RsEditApp {
                    project: final(self).project,
                    history: final(self).history,
                    dirty: true,
                    selected: Selection::Nothing,
                    ..*old(self)
                })
                &&& final(self).project@ == with_subtitles(
                    old(self).project@,
                    subtitles(data.unwrap()@),
                )
                &&& final(self).history@ == old(self).history@.recorded(old(self).project@)
            },
            !done ==> *final(self) == *old(self),
    {
        let text: &str = match data {
            Some(d) => d,
            None => {
                return false;
            },
        };
        let subs: Vec<Subtitle> = parse_subtitles(text);
        assert(subs@.len() == subtitles(text@).len());
        if subs.len() == 0 {
            return false;
        }
        self.push_undo();
        self.project.add_subtitles(&subs);
        self.selected = Selection::Nothing;
        true
    }

    /// Takes an asset out of the project; one in use stays, with a message. Both are
    /// edits that can be undone.
    pub fn remove_asset(&mut self, id: AssetId)
        ensures
            final(self).project@ == asset_removed(old(self).project@, id),
            final(self).history@ == old(self).history@.recorded(old(self).project@),
            if in_use(old(self).project@, id) {
                &&& *final(self) == (RsEditApp {
                    history: final(self).history,
                    dirty: true,
                    toasts: final(self).toasts,
                    ..*old(self)
                })
                &&& views(final(self).toasts@) == views(old(self).toasts@).push(
                    "Remove clips first"@,
                )
            } else {
                *final(self) == (RsEditApp {
                    project: final(self).project,
                    history: final(self).history,
                    dirty: true,
                    mix_stale: true,
                    ..*old(self)
                })
            },
    {
        self.push_undo();
        if self.project.remove_asset(id) {
            self.mix_stale = true;
        } else {
            self.toast("Remove clips first");
        }
    }

    /// Adds a clip of an asset at the end of the project, which can be undone.
    pub fn add_clip_from_media(&mut self, id: AssetId)
        requires
            old(self).project@.times_fit(),
            has_lane_for(old(self).project@, id),
        ensures
            final(self).history@ == old(self).history@.recorded(old(self).project@),
            if old(self).project@.assets.assets.contains_key(id.0) {
                let kind = old(self).project@.assets.assets[id.0].kind;
                &&& *final(self) == (RsEditApp {
                    project: final(self).project,
                    history: final(self).history,
                    dirty: true,
                    mix_stale: old(self).mix_stale || kind != AssetKind::Image,
                    last_request: None,
                    ..*old(self)
                })
                &&& final(self).project@ == with_asset_clip(
                    old(self).project@,
                    id,
                    if kind == AssetKind::Audio {
                        Lane::Audio
                    } else {
                        Lane::Video
                    },
                    0,
                    old(self).project@.duration() as i64,
                )
            } else {
                *final(self) == (RsEditApp {
                    history: final(self).history,
                    dirty: true,
                    ..*old(self)
                })
            },
    {
        self.push_undo();
        let kind: AssetKind = match self.project.assets.get(id) {
            Some(a) => a.kind,
            None => {
                return;
            },
        };
        let start: i64 = self.project.duration_us();
        let lane: Lane = if kind == AssetKind::Audio {
            Lane::Audio
        } else {
            Lane::Video
        };
        self.project.add_clip_at(id, lane, 0, start);
        if kind != AssetKind::Image {
            self.mix_stale = true;
        }
        self.last_request = None;
    }

    /// Follows playback: `pos` is the position of the sound.
    pub fn tick(&mut self, pos: Float64)
        requires
            old(self).project@.times_fit(),
        ensures
            if old(self).playing {
                let c = clock_after(old(self).project@, old(self).playhead_us as int, pos@);
                *final(self) == (RsEditApp {
                    playhead_us: c.playhead as i64,
                    playing: c.playing,
                    seek_audio: old(self).seek_audio || c.seek,
                    ..*old(self)
                })
            } else {
                *final(self) == *old(self)
            },
    {
        if !self.playing {
            return;
        }
        let (playhead, playing, seek): (i64, bool, bool) = clock(&self.project, self.playhead_us, pos);
        self.playhead_us = playhead;
        self.playing = playing;
        if seek {
            self.seek_audio = true;
        }
    }

    /// The frame to ask the decoder for, unless it was asked for last.
    pub fn request_frame(&mut self) -> (r: Option<FrameRequest>)
        requires
            all_fit(old(self).project@.video_tracks),
        ensures
            match wanted_asset(old(self).project@, old(self).playhead_us as int) {
                Some(id) => if old(self).last_request == Some(
                    (old(self).project@.assets.assets[id].id.0, old(self).playhead_us),
                ) {
                    r.is_none() && *final(self) == *old(self)
                } else {
                    let a = old(self).project@.assets.assets[id];
                    &&& r.is_some()
                    &&& r.unwrap().asset == a.id.0
                    &&& r.unwrap().path@ == a.path@
                    &&& r.unwrap().w == old(self).settings.preview_width
                    &&& r.unwrap().h == old(self).settings.preview_height
                    &&& r.unwrap().pts_us == old(self).playhead_us
                    &&& *final(self) == (RsEditApp {
                        last_request: Some((a.id.0, old(self).playhead_us)),
                        ..*old(self)
                    })
                },
                None => r.is_none() && *final(self) == *old(self),
            },
    {
        let pts: i64 = self.playhead_us;
        let id: AssetId = match top_video_clip(&self.project, pts) {
            Some((_, clip)) => clip.asset,
            None => {
                return None;
            },
        };
        let (number, path): (u64, String) = match self.project.assets.get(id) {
            Some(a) => {
                if a.kind == AssetKind::Image {
                    return None;
                }
                (a.id.0, a.path.clone())
            },
            None => {
                return None;
            },
        };
        let repeated: bool = match self.last_request {
            Some((n, p)) => n == number && p == pts,
            None => false,
        };
        if repeated {
            return None;
        }
        self.last_request = Some((number, pts));
        Some(
            FrameRequest {
                asset: number,
                path,
                w: self.settings.preview_width,
                h: self.settings.preview_height,
                pts_us: pts,
            },
        )
    }

    /// Whether it is time to save automatically.
    pub fn autosave_due(&self, seconds: u64) -> (r: bool)
        ensures
            r == (self.settings.autosave && self.dirty && seconds >= 10),
    {
        self.settings.autosave && self.dirty && seconds >= 10
    }

    /// The frame rate differs from that of the project by more than a thousandth.
    pub open spec fn rate_differs(self, rate: Float64) -> bool {
        let d = difference(double(), rate@, self.project@.fps@);
        less((Float64 { bits: 0x3f50_624d_d2f1_a9fc })@, d) || less(
            (Float64 { bits: 0x3f50_624d_d2f1_a9fc })@,
            negated(d),
        )
    }

    /// Takes note of an imported asset: a video with another frame rate than the
    /// project raises the question which to use. `rate` is its frame rate on a label.
    pub fn imported(&mut self, id: AssetId, rate: &str)
        ensures
            ({
                let known = old(self).project@.assets.assets.contains_key(id.0);
                let a = old(self).project@.assets.assets[id.0];
                let timed = known && a.kind == AssetKind::Video && positive(a.frame_rate@);
                let name = if known {
                    a.name@
                } else {
                    ""@
                };
                &&& *final(self) == (RsEditApp {
                    pending_fps: if timed && old(self).rate_differs(a.frame_rate) {
                        Some(a.frame_rate)
                    } else {
                        old(self).pending_fps
                    },
                    mix_stale: true,
                    toasts: final(self).toasts,
                    ..*old(self)
                })
                &&& views(final(self).toasts@) == views(old(self).toasts@).push(
                    "Imported "@ + name + (if timed {
                        " at "@ + rate@ + " fps"@
                    } else {
                        Seq::empty()
                    }),
                )
            }),
    {
        let mut message: String = "Imported ".to_string();
        let mut tag: String = String::new();
        let mut adopt: Option<Float64> = None;
        if let Some(a) = self.project.assets.get(id) {
            message.append(a.name.as_str());
            if a.kind == AssetKind::Video && a.frame_rate.is_positive() {
                let d: Float64 = a.frame_rate.minus(self.project.fps);
                let limit: Float64 = Float64 { bits: 0x3f50_624d_d2f1_a9fc };
                if limit.less_than(d) || limit.less_than(d.negate()) {
                    adopt = Some(a.frame_rate);
                }
                tag.append(" at ");
                tag.append(rate);
                tag.append(" fps");
                proof {
                    assert(tag@ =~= " at "@ + rate@ + " fps"@);
                }
            }
        } else {
            message.append("");
        }
        if adopt.is_some() {
            self.pending_fps = adopt;
        }
        message.append(tag.as_str());
        self.mix_stale = true;
        self.toast(message.as_str());
    }

    /// Answers the question which frame rate to use: that of the import, that of the
    /// project, or, without a message, that of the project. `rate` is the one of the
    /// import on a label.
    pub fn answer_fps(&mut self, answer: FpsAnswer, rate: &str)
        ensures
            match old(self).pending_fps {
                Some(fps) => {
                    &&& *final(self) == (RsEditApp {
                        project: final(self).project,
                        toasts: final(self).toasts,
                        pending_fps: None,
                        ..*old(self)
                    })
                    &&& final(self).project@ == (if answer == FpsAnswer::Adopt {
                        ProjectView { fps, ..old(self).project@ }
                    } else {
                        old(self).project@
                    })
                    &&& views(final(self).toasts@) == (match answer {
                        FpsAnswer::Adopt => views(old(self).toasts@).push(
                            "Project frame rate set to "@ + rate@ + " fps"@,
                        ),
                        FpsAnswer::Keep => views(old(self).toasts@).push(
                            "Kept current project frame rate"@,
                        ),
                        FpsAnswer::Dismiss => views(old(self).toasts@),
                    })
                },
                None => *final(self) == *old(self),
            },
    {
        if let Some(fps) = self.pending_fps {
            match answer {
                FpsAnswer::Adopt => {
                    self.project.fps = fps;
                    let mut message: String = joined_text("Project frame rate set to ", rate);
                    message.append(" fps");
                    self.toast(message.as_str());
                },
                FpsAnswer::Keep => {
                    self.toast("Kept current project frame rate");
                },
                FpsAnswer::Dismiss => {},
            }
            self.pending_fps = None;
        }
    }
}

/// The answers to the question which frame rate to use.
#[derive(Debug, Clone, Copy, PartialEq, Eq, Structural)]
pub enum FpsAnswer {
    Adopt,
    Keep,
    Dismiss,
}

/// The playhead follows the sound to the microsecond and never goes back by itself; at the end
/// of a loop region it returns to its start, and past the end of the project playback stops
/// at zero.
pub proof fn law_the_playhead_follows_the_sound(p: ProjectView, playhead: int, at: int)
    requires
        0 <= playhead < 0x20_0000_0000_0000,
        0 <= at < 0x20_0000_0000_0000,
        p.loop_start.is_some() ==> 0 <= p.loop_start.unwrap() < 0x20_0000_0000_0000,
    ensures
        ({
            let c = clock_after(p, playhead, of_integer(double(), at));
            let now = if playhead < at {
                at
            } else {
                playhead
            };
            let end = if p.duration() > 1_000_000 {
                p.duration()
            } else {
                1_000_000
            };
            let looped = p.loop_start.is_some() && p.loop_end.is_some() && p.loop_start.unwrap()
                < p.loop_end.unwrap() && p.loop_end.unwrap() <= now < p.duration();
            &&& looped && p.loop_start.unwrap() <= end ==> c.playing && c.seek && c.playhead
                == p.loop_start.unwrap()
            &&& !looped && now <= end ==> c.playing && !c.seek && c.playhead == now
            &&& !looped && now > end ==> !c.playing && c.seek && c.playhead == 0
        }),
{
    let d = double();
    lemma2_to64_rest();
    law_integers_are_exact(d, playhead);
    law_integers_are_exact(d, at);
    lemma_integers_in_order(d, playhead, at);
    law_integers_come_back(d, Toward::Zero, at, i64::MIN as int, i64::MAX as int);
    if p.loop_start.is_some() {
        let ls = p.loop_start.unwrap() as int;
        law_integers_are_exact(d, ls);
        law_integers_come_back(d, Toward::Zero, ls, i64::MIN as int, i64::MAX as int);
    }
}

} // verus!
