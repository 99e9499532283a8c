//! The media panel, labels, waveforms and the theme.

use crate::app::{RsEditApp, Selection};
use crate::edit::{clip_exists, Lane};
use crate::float::{larger, product, quotient, single, smaller, to_integer, Float32, Number, Toward};
use crate::palette::name_matches;
use crate::pixel::num;
use crate::prefs::{default_shortcut, BindField, Settings};
use crate::project::{Project, ProjectView};
use crate::strings::{chars_of, contains, lowercase, string_of, trim, trimmed};
use crate::timeline::{views, Asset, AssetId, AssetKind, AssetStoreView, TrackView};
use vstd::prelude::*;

verus! {

/// The tabs of the media panel.
#[derive(Debug, Clone, Copy, PartialEq, Eq, Structural)]
pub enum MediaTab {
    All,
    Video,
    Audio,
}

/// The kind of an asset belongs to a tab; images go with video.
pub open spec fn tab_holds(tab: MediaTab, kind: AssetKind) -> bool {
    match tab {
        MediaTab::All => true,
        MediaTab::Video => kind != AssetKind::Audio,
        MediaTab::Audio => kind == AssetKind::Audio,
    }
}

/// An asset is listed: its tab is open, and its name holds what is searched for,
/// whatever the case and the white space round it.
pub open spec fn is_listed(tab: MediaTab, filter: Seq<char>, kind: AssetKind, name: Seq<char>) -> bool {
    let q = lowercase(trimmed(filter));
    tab_holds(tab, kind) && (q.len() == 0 || contains(lowercase(name), q))
}

/// Whether an asset is listed.
pub fn listed(tab: MediaTab, filter: &str, kind: AssetKind, name: &str) -> (r: bool)
    ensures
        r == is_listed(tab, filter@, kind, name@),
{
    let held: bool = match tab {
        MediaTab::All => true,
        MediaTab::Video => kind != AssetKind::Audio,
        MediaTab::Audio => kind == AssetKind::Audio,
    };
    if !held {
        return false;
    }
    let query: String = string_of(&trim(&chars_of(filter))).to_lowercase();
    let lower: String = name.to_lowercase();
    name_matches(query.as_str(), lower.as_str())
}

/// How many peaks go into a column of a waveform of some width.
pub open spec fn peaks_per_column(n: int, width: Number) -> int {
    let c = to_integer(
        single(),
        Toward::Above,
        quotient(single(), num(n), width),
        0,
        u64::MAX as int,
    );
    if c > 1 {
        c
    } else {
        1
    }
}

/// How many peaks go into a column.
pub fn column_step(n: usize, width: Float32) -> (r: u64)
    ensures
        r == peaks_per_column(n as int, width@),
        r >= 1,
{
    let c: u64 = Float32::from_u64(n as u64).over(width).to_u64(Toward::Above);
    if c > 1 {
        c
    } else {
        1
    }
}

/// The lowest and highest of the peaks `from..to`, with zero among them.
pub open spec fn column_of(peaks: Seq<(Float32, Float32)>, from: int, to: int) -> (Number, Number)
    decreases to - from,
{
    if from >= to {
        (num(0), num(0))
    } else {
        let (min, max) = column_of(peaks, from, to - 1);
        if to - 1 < peaks.len() {
            (smaller(min, peaks[to - 1].0@), larger(max, peaks[to - 1].1@))
        } else {
            (min, max)
        }
    }
}

/// The lowest and highest peak of a column of a waveform, which begins with the
/// peak `from`.
pub fn wave_column(peaks: &Vec<(Float32, Float32)>, from: usize, step: u64) -> (r: (
    Float32,
    Float32,
))
    ensures
        (r.0@, r.1@) == column_of(peaks@, from as int, from + step),
{
    let mut min: Float32 = Float32::from_i64(0);
    let mut max: Float32 = Float32::from_i64(0);
    let n: usize = peaks.len();
    let mut i: usize = from;
    let mut left: u64 = step;
    while left > 0 && i < n
        invariant
            n == peaks.len(),
            left <= step,
            i == from + (step - left),
            (min@, max@) == column_of(peaks@, from as int, i as int),
        decreases left,
    {
        min = min.minimum(peaks[i].0);
        max = max.maximum(peaks[i].1);
        i = i + 1;
        left = left - 1;
    }
    proof {
        lemma_column_past(peaks@, from as int, i as int, from + step);
    }
    (min, max)
}

proof fn lemma_column_past(peaks: Seq<(Float32, Float32)>, from: int, i: int, to: int)
    requires
        from <= i <= to,
        i == to || i >= peaks.len(),
    ensures
        column_of(peaks, from, to) == column_of(peaks, from, i),
    decreases to - i,
{
    if i < to {
        lemma_column_past(peaks, from, i, to - 1);
    }
}

/// The peak of an asset to draw at a source time.
pub open spec fn peak_place(source_us: int, duration: int, n: int) -> int {
    let d = if duration > 1 {
        duration
    } else {
        1
    };
    let i = to_integer(
        single(),
        Toward::Zero,
        product(single(), quotient(single(), num(source_us), num(d)), num(n)),
        0,
        u64::MAX as int,
    );
    if i < n - 1 {
        i
    } else {
        n - 1
    }
}

/// The peak of an asset to draw at a source time.
pub fn peak_index(source_us: i64, duration_us: i64, n: usize) -> (r: usize)
    requires
        n > 0,
    ensures
        r == peak_place(source_us as int, duration_us as int, n as int),
        r < n,
{
    let d: i64 = if duration_us > 1 {
        duration_us
    } else {
        1
    };
    let i: u64 = Float32::from_i64(source_us).over(Float32::from_i64(d)).times(
        Float32::from_u64(n as u64),
    ).to_u64(Toward::Zero);
    if i < (n - 1) as u64 {
        i as usize
    } else {
        n - 1
    }
}

/// The label of a text clip: its text on one line.
pub open spec fn one_line(text: Seq<char>) -> Seq<char> {
    trimmed(
        Seq::new(
            text.len(),
            |i: int|
                if text[i] == '\n' {
                    ' '
                } else {
                    text[i]
                },
        ),
    )
}

/// The label of a text clip.
pub fn text_label(text: &str) -> (r: String)
    ensures
        r@ == one_line(text@),
{
    let cs: Vec<char> = chars_of(text);
    let mut flat: Vec<char> = Vec::new();
    let mut i: usize = 0;
    while i < cs.len()
        invariant
            i <= cs.len(),
            flat.len() == i,
            forall|k: int|
                0 <= k < i ==> #[trigger] flat@[k] == (if cs@[k] == '\n' {
                    ' '
                } else {
                    cs@[k]
                }),
        decreases cs.len() - i,
    {
        flat.push(
            if cs[i] == '\n' {
                ' '
            } else {
                cs[i]
            },
        );
        i = i + 1;
    }
    proof {
        assert(flat@ =~= Seq::new(
            text@.len(),
            |i: int|
                if text@[i] == '\n' {
                    ' '
                } else {
                    text@[i]
                },
        ));
    }
    string_of(&trim(&flat))
}

/// Whether a message is still shown: for three seconds.
pub fn toast_alive(shown_ms: u64) -> (r: bool)
    ensures
        r == (shown_ms < 3000),
{
    shown_ms < 3000
}

/// The name of an asset; a question mark where there is none.
pub fn c_name(p: &Project, id: AssetId) -> (r: String)
    ensures
        r@ == (if p@.assets.assets.contains_key(id.0) {
            p@.assets.assets[id.0].name@
        } else {
            "?"@
        }),
{
    match p.assets.get(id) {
        Some(a) => a.name.clone(),
        None => "?".to_string(),
    }
}

/// One channel of the fill of a selection: the accent, darkened or lightened.
pub open spec fn selection_channel(dark: bool, c: u8) -> u8 {
    if dark {
        (c * 45 / 100 + 10) as u8
    } else {
        (c / 2 + 127) as u8
    }
}

/// The fill of selections in a theme.
pub fn selection_fill(dark: bool, accent: &[u8; 3]) -> (r: [u8; 3])
    ensures
        r@ == seq![
            selection_channel(dark, accent@[0]),
            selection_channel(dark, accent@[1]),
            selection_channel(dark, accent@[2]),
        ],
{
    let r: [u8; 3] = if dark {
        [
            (accent[0] as u32 * 45 / 100 + 10) as u8,
            (accent[1] as u32 * 45 / 100 + 10) as u8,
            (accent[2] as u32 * 45 / 100 + 10) as u8,
        ]
    } else {
        [
            (accent[0] as u16 / 2 + 127) as u8,
            (accent[1] as u16 / 2 + 127) as u8,
            (accent[2] as u16 / 2 + 127) as u8,
        ]
    };
    proof {
        assert(r@ =~= seq![
            selection_channel(dark, accent@[0]),
            selection_channel(dark, accent@[1]),
            selection_channel(dark, accent@[2]),
        ]);
    }
    r
}

/// An asset with another file in place of its own: what was decoded of the old one is
/// given up.
pub open spec fn is_relinked(a: Asset, b: Asset, path: Seq<char>, name: Option<Seq<char>>) -> bool {
    &&& b == (Asset {
        path: b.path,
        name: b.name,
        peaks: b.peaks,
        pcm: None,
        filmstrip: if a.kind == AssetKind::Video {
            None
        } else {
            a.filmstrip
        },
        ..a
    })
    &&& b.path@ == path
    &&& b.name@ == (match name {
        Some(n) => n,
        None => a.name@,
    })
    &&& b.peaks@.len() == 0
}

impl RsEditApp {
    /// Puts another file in the place of that of an asset. `name` is the name of the
    /// file, where it has one.
    pub fn relink(&mut self, id: AssetId, path: &str, name: Option<&str>)
        ensures
            views(final(self).toasts@) == views(old(self).toasts@).push("Asset relinked"@),
            *final(self) == (RsEditApp {
                project: final(self).project,
                toasts: final(self).toasts,
                dirty: true,
                ..*old(self)
            }),
            if old(self).project@.assets.assets.contains_key(id.0) {
                exists|b: Asset| #[trigger]
                    is_relinked(
                        old(self).project@.assets.assets[id.0],
                        b,
                        path@,
                        crate::prefs::text_view(name),
                    ) && final(self).project@ == (ProjectView {
                        assets: AssetStoreView {
                            assets: old(self).project@.assets.assets.insert(id.0, b),
                            ..old(self).project@.assets
                        },
                        ..old(self).project@
                    })
            } else {
                final(self).project@ == old(self).project@
            },
    {
        self.project.assets.relink(id, path, name);
        self.dirty = true;
        self.toast("Asset relinked");
    }

    /// Binds every field as it was at first, and stops waiting for a new bind.
    pub fn reset_keybinds(&mut self)
        ensures
            *final(self) == (RsEditApp {
                keybinds: final(self).keybinds,
                capturing: None,
                toasts: final(self).toasts,
                ..*old(self)
            }),
            forall|f: BindField| #[trigger] final(self).keybinds.at(f) == default_shortcut(f),
            views(final(self).toasts@) == views(old(self).toasts@).push(
                "Keybinds reset to defaults"@,
            ),
    {
        self.keybinds.reset();
        self.capturing = None;
        self.toast("Keybinds reset to defaults");
    }

    /// Takes settings from the preferences; `true` where the theme changed, which is
    /// said in a message.
    pub fn change_settings(&mut self, settings: Settings) -> (themed: bool)
        ensures
            themed == (old(self).settings.dark_mode != settings.dark_mode
                || old(self).settings.accent@ != settings.accent@),
            *final(self) == (RsEditApp { settings, toasts: final(self).toasts, ..*old(self) }),
            views(final(self).toasts@) == (if themed {
                views(old(self).toasts@).push(
                    if settings.dark_mode {
                        "Dark mode enabled"@
                    } else {
                        "Light mode enabled"@
                    },
                )
            } else {
                views(old(self).toasts@)
            }),
    {
        let before: Settings = self.settings;
        let same_accent: bool = before.accent[0] == settings.accent[0] && before.accent[1]
            == settings.accent[1] && before.accent[2] == settings.accent[2];
        proof {
            if same_accent {
                assert(before.accent@ =~= settings.accent@);
            }
        }
        self.settings = settings;
        let themed: bool = before.dark_mode != settings.dark_mode || !same_accent;
        if themed {
            if settings.dark_mode {
                self.toast("Dark mode enabled");
            } else {
                self.toast("Light mode enabled");
            }
        }
        themed
    }

    /// Removes the clip that the inspector shows, without closing the gap.
    pub fn inspector_delete(&mut self, lane: Lane, track: usize, clip: usize)
        requires
            clip_exists(old(self).project@, lane, track as int, clip as int),
        ensures
            *final(self) == (RsEditApp {
                project: final(self).project,
                history: final(self).history,
                dirty: true,
                selected: Selection::Nothing,
                mix_stale: old(self).mix_stale || lane != Lane::Text,
                ..*old(self)
            }),
            final(self).project@ == plainly_deleted(
                old(self).project@,
                lane,
                track as int,
                clip as int,
            ),
            final(self).history@ == old(self).history@.recorded(old(self).project@),
    {
        self.push_undo();
        self.project.take_clip(lane, track, clip);
        self.selected = Selection::Nothing;
        if lane != Lane::Text {
            self.mix_stale = true;
        }
    }
}

/// The tracks without one clip, the others where they were.
pub open spec fn taken_out<V>(tracks: Seq<TrackView<V>>, track: int, clip: int) -> Seq<TrackView<V>> {
    tracks.update(
        track,
        TrackView { clips: tracks[track].clips.remove(clip), ..tracks[track] },
    )
}

/// The project without one clip, the others where they were.
pub open spec fn plainly_deleted(p: ProjectView, lane: Lane, track: int, clip: int) -> ProjectView {
    match lane {
        Lane::Video => ProjectView { video_tracks: taken_out(p.video_tracks, track, clip), ..p },
        Lane::Audio => ProjectView { audio_tracks: taken_out(p.audio_tracks, track, clip), ..p },
        Lane::Text => ProjectView { text_tracks: taken_out(p.text_tracks, track, clip), ..p },
    }
}

impl Project {
    /// Takes out a clip and leaves the others where they are.
    pub fn take_clip(&mut self, lane: Lane, track: usize, clip: usize)
        requires
            clip_exists(old(self)@, lane, track as int, clip as int),
        ensures
            final(self)@ == plainly_deleted(old(self)@, lane, track as int, clip as int),
    {
        let ghost before = self@;
        let ghost want = plainly_deleted(before, lane, track as int, clip as int);
        match lane {
            Lane::Video => {
                let _ = self.video_tracks[track].clips.remove(clip);
                proof {
                    assert(self@.video_tracks[track as int].clips
                        =~= want.video_tracks[track as int].clips);
                    assert(self@.video_tracks =~= want.video_tracks);
                }
            },
            Lane::Audio => {
                let _ = self.audio_tracks[track].clips.remove(clip);
                proof {
                    assert(self@.audio_tracks[track as int].clips
                        =~= want.audio_tracks[track as int].clips);
                    assert(self@.audio_tracks =~= want.audio_tracks);
                }
            },
            Lane::Text => {
                let _ = self.text_tracks[track].clips.remove(clip);
                proof {
                    assert(self@.text_tracks[track as int].clips
                        =~= want.text_tracks[track as int].clips);
                    assert(self@.text_tracks =~= want.text_tracks);
                }
            },
        }
    }
}

} // verus!
