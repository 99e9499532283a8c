//! Preferences: keyboard shortcuts, global settings, recent files, and where they
//! are kept.

use crate::strings::{chars_of, extend, same_text, string_of};
use crate::timeline::views;
use vstd::prelude::*;

verus! {

/// What a rebindable shortcut does.
#[derive(Clone, Copy, PartialEq, Eq, Debug, Structural)]
pub enum BindField {
    PlayPause,
    StepBack,
    StepFwd,
    JumpStart,
    JumpEnd,
    SplitClip,
    DeleteClip,
    Undo,
    Redo,
    ExportRender,
    AddText,
    TogglePeaks,
    AddVideoTrack,
    AddAudioTrack,
    CloseWindow,
}

/// The label under which a shortcut is listed and saved.
pub open spec fn label_of(f: BindField) -> Seq<char> {
    match f {
        BindField::PlayPause => "Play / Pause"@,
        BindField::StepBack => "Step one frame back"@,
        BindField::StepFwd => "Step one frame forward"@,
        BindField::JumpStart => "Jump to start"@,
        BindField::JumpEnd => "Jump to end"@,
        BindField::SplitClip => "Split clip at playhead"@,
        BindField::DeleteClip => "Delete selected clip"@,
        BindField::Undo => "Undo"@,
        BindField::Redo => "Redo"@,
        BindField::ExportRender => "Open / close export"@,
        BindField::AddText => "Add text clip"@,
        BindField::TogglePeaks => "Toggle audio peaks"@,
        BindField::AddVideoTrack => "Add video track"@,
        BindField::AddAudioTrack => "Add audio track"@,
        BindField::CloseWindow => "Close dialogs"@,
    }
}

/// The shortcuts in the order of their listing.
pub open spec fn field_at(i: int) -> BindField {
    if i == 0 {
        BindField::PlayPause
    } else if i == 1 {
        BindField::StepBack
    } else if i == 2 {
        BindField::StepFwd
    } else if i == 3 {
        BindField::JumpStart
    } else if i == 4 {
        BindField::JumpEnd
    } else if i == 5 {
        BindField::SplitClip
    } else if i == 6 {
        BindField::DeleteClip
    } else if i == 7 {
        BindField::Undo
    } else if i == 8 {
        BindField::Redo
    } else if i == 9 {
        BindField::ExportRender
    } else if i == 10 {
        BindField::AddText
    } else if i == 11 {
        BindField::TogglePeaks
    } else if i == 12 {
        BindField::AddVideoTrack
    } else if i == 13 {
        BindField::AddAudioTrack
    } else {
        BindField::CloseWindow
    }
}

/// The place of a shortcut in the listing.
pub open spec fn place_of(f: BindField) -> int {
    match f {
        BindField::PlayPause => 0,
        BindField::StepBack => 1,
        BindField::StepFwd => 2,
        BindField::JumpStart => 3,
        BindField::JumpEnd => 4,
        BindField::SplitClip => 5,
        BindField::DeleteClip => 6,
        BindField::Undo => 7,
        BindField::Redo => 8,
        BindField::ExportRender => 9,
        BindField::AddText => 10,
        BindField::TogglePeaks => 11,
        BindField::AddVideoTrack => 12,
        BindField::AddAudioTrack => 13,
        BindField::CloseWindow => 14,
    }
}

/// A key with its modifiers; the key goes by its name.
#[derive(Clone, Debug)]
pub struct Shortcut {
    pub ctrl: bool,
    pub shift: bool,
    pub alt: bool,
    pub key: String,
}

/// A shortcut with the name of its key as a sequence of characters.
pub struct ShortcutView {
    pub ctrl: bool,
    pub shift: bool,
    pub alt: bool,
    pub key: Seq<char>,
}

impl View for Shortcut {
    type V = ShortcutView;

    open spec fn view(&self) -> ShortcutView {
        ShortcutView { ctrl: self.ctrl, shift: self.shift, alt: self.alt, key: self.key@ }
    }
}

impl Shortcut {
    pub fn new(ctrl: bool, shift: bool, alt: bool, key: &str) -> (s: Shortcut)
        ensures
            s@ == (ShortcutView { ctrl, shift, alt, key: key@ }),
    {
        Shortcut { ctrl, shift, alt, key: key.to_string() }
    }

    pub fn copy(&self) -> (s: Shortcut)
        ensures
            s@ == self@,
    {
        Shortcut { ctrl: self.ctrl, shift: self.shift, alt: self.alt, key: self.key.clone() }
    }
}

/// The rebindable shortcuts.
#[derive(Clone, Debug)]
pub struct Keybinds {
    pub play_pause: Shortcut,
    pub step_back: Shortcut,
    pub step_fwd: Shortcut,
    pub jump_start: Shortcut,
    pub jump_end: Shortcut,
    pub split_clip: Shortcut,
    pub delete_clip: Shortcut,
    pub undo: Shortcut,
    pub redo: Shortcut,
    pub export_render: Shortcut,
    pub add_text: Shortcut,
    pub toggle_peaks: Shortcut,
    pub add_video_track: Shortcut,
    pub add_audio_track: Shortcut,
    pub close_window: Shortcut,
}

impl Keybinds {
    /// The shortcut bound to a field.
    pub open spec fn at(self, f: BindField) -> ShortcutView {
        match f {
            BindField::PlayPause => self.play_pause@,
            BindField::StepBack => self.step_back@,
            BindField::StepFwd => self.step_fwd@,
            BindField::JumpStart => self.jump_start@,
            BindField::JumpEnd => self.jump_end@,
            BindField::SplitClip => self.split_clip@,
            BindField::DeleteClip => self.delete_clip@,
            BindField::Undo => self.undo@,
            BindField::Redo => self.redo@,
            BindField::ExportRender => self.export_render@,
            BindField::AddText => self.add_text@,
            BindField::TogglePeaks => self.toggle_peaks@,
            BindField::AddVideoTrack => self.add_video_track@,
            BindField::AddAudioTrack => self.add_audio_track@,
            BindField::CloseWindow => self.close_window@,
        }
    }
}

/// The shortcut that a field has unless it was rebound.
pub open spec fn default_shortcut(f: BindField) -> ShortcutView {
    match f {
        BindField::PlayPause => ShortcutView {
            ctrl: false,
            shift: false,
            alt: false,
            key: "Space"@,
        },
        BindField::StepBack => ShortcutView {
            ctrl: false,
            shift: false,
            alt: false,
            key: "ArrowLeft"@,
        },
        BindField::StepFwd => ShortcutView {
            ctrl: false,
            shift: false,
            alt: false,
            key: "ArrowRight"@,
        },
        BindField::JumpStart => ShortcutView {
            ctrl: false,
            shift: false,
            alt: false,
            key: "Home"@,
        },
        BindField::JumpEnd => ShortcutView {
            ctrl: false,
            shift: false,
            alt: false,
            key: "End"@,
        },
        BindField::SplitClip => ShortcutView {
            ctrl: true,
            shift: false,
            alt: false,
            key: "S"@,
        },
        BindField::DeleteClip => ShortcutView {
            ctrl: false,
            shift: false,
            alt: false,
            key: "Delete"@,
        },
        BindField::Undo => ShortcutView {
            ctrl: true,
            shift: false,
            alt: false,
            key: "Z"@,
        },
        BindField::Redo => ShortcutView {
            ctrl: true,
            shift: true,
            alt: false,
            key: "Z"@,
        },
        BindField::ExportRender => ShortcutView {
            ctrl: true,
            shift: false,
            alt: false,
            key: "E"@,
        },
        BindField::AddText => ShortcutView {
            ctrl: true,
            shift: false,
            alt: false,
            key: "T"@,
        },
        BindField::TogglePeaks => ShortcutView {
            ctrl: false,
            shift: false,
            alt: false,
            key: "P"@,
        },
        BindField::AddVideoTrack => ShortcutView {
            ctrl: true,
            shift: true,
            alt: false,
            key: "V"@,
        },
        BindField::AddAudioTrack => ShortcutView {
            ctrl: true,
            shift: true,
            alt: false,
            key: "A"@,
        },
        BindField::CloseWindow => ShortcutView {
            ctrl: false,
            shift: false,
            alt: false,
            key: "Escape"@,
        },
    }
}

impl Default for Keybinds {
    fn default() -> (k: Keybinds)
        ensures
            forall|f: BindField| #[trigger] k.at(f) == default_shortcut(f),
    {
        Keybinds {
            play_pause: Shortcut::new(false, false, false, "Space"),
            step_back: Shortcut::new(false, false, false, "ArrowLeft"),
            step_fwd: Shortcut::new(false, false, false, "ArrowRight"),
            jump_start: Shortcut::new(false, false, false, "Home"),
            jump_end: Shortcut::new(false, false, false, "End"),
            split_clip: Shortcut::new(true, false, false, "S"),
            delete_clip: Shortcut::new(false, false, false, "Delete"),
            undo: Shortcut::new(true, false, false, "Z"),
            redo: Shortcut::new(true, true, false, "Z"),
            export_render: Shortcut::new(true, false, false, "E"),
            add_text: Shortcut::new(true, false, false, "T"),
            toggle_peaks: Shortcut::new(false, false, false, "P"),
            add_video_track: Shortcut::new(true, true, false, "V"),
            add_audio_track: Shortcut::new(true, true, false, "A"),
            close_window: Shortcut::new(false, false, false, "Escape"),
        }
    }
}

impl Keybinds {
    pub fn get(&self, f: BindField) -> (r: &Shortcut)
        ensures
            r@ == self.at(f),
    {
        match f {
            BindField::PlayPause => &self.play_pause,
            BindField::StepBack => &self.step_back,
            BindField::StepFwd => &self.step_fwd,
            BindField::JumpStart => &self.jump_start,
            BindField::JumpEnd => &self.jump_end,
            BindField::SplitClip => &self.split_clip,
            BindField::DeleteClip => &self.delete_clip,
            BindField::Undo => &self.undo,
            BindField::Redo => &self.redo,
            BindField::ExportRender => &self.export_render,
            BindField::AddText => &self.add_text,
            BindField::TogglePeaks => &self.toggle_peaks,
            BindField::AddVideoTrack => &self.add_video_track,
            BindField::AddAudioTrack => &self.add_audio_track,
            BindField::CloseWindow => &self.close_window,
        }
    }

    /// Binds a field; the others stay as they are.
    pub fn set(&mut self, f: BindField, sc: Shortcut)
        ensures
            forall|g: BindField| #[trigger]
                final(self).at(g) == (if g == f {
                    sc@
                } else {
                    old(self).at(g)
                }),
    {
        match f {
            BindField::PlayPause => {
                self.play_pause = sc;
            },
            BindField::StepBack => {
                self.step_back = sc;
            },
            BindField::StepFwd => {
                self.step_fwd = sc;
            },
            BindField::JumpStart => {
                self.jump_start = sc;
            },
            BindField::JumpEnd => {
                self.jump_end = sc;
            },
            BindField::SplitClip => {
                self.split_clip = sc;
            },
            BindField::DeleteClip => {
                self.delete_clip = sc;
            },
            BindField::Undo => {
                self.undo = sc;
            },
            BindField::Redo => {
                self.redo = sc;
            },
            BindField::ExportRender => {
                self.export_render = sc;
            },
            BindField::AddText => {
                self.add_text = sc;
            },
            BindField::TogglePeaks => {
                self.toggle_peaks = sc;
            },
            BindField::AddVideoTrack => {
                self.add_video_track = sc;
            },
            BindField::AddAudioTrack => {
                self.add_audio_track = sc;
            },
            BindField::CloseWindow => {
                self.close_window = sc;
            },
        }
    }

    /// Binds every field as it was at first.
    pub fn reset(&mut self)
        ensures
            forall|f: BindField| #[trigger] final(self).at(f) == default_shortcut(f),
    {
        *self = Keybinds::default();
    }

    /// All binds as (label, ctrl, shift, alt, key name), in the order of the
    /// listing.
    pub fn binds(&self) -> (r: Vec<(String, bool, bool, bool, String)>)
        ensures
            r.len() == 15,
            forall|i: int| 0 <= i < 15 ==> row_view(#[trigger] r@[i]) == saved_row(*self, field_at(i)),
    {
        let rows: Vec<(&'static str, BindField)> = bind_rows();
        let mut r: Vec<(String, bool, bool, bool, String)> = Vec::new();
        let mut i: usize = 0;
        while i < rows.len()
            invariant
                i <= rows.len(),
                rows.len() == 15,
                r.len() == i,
                forall|k: int|
                    0 <= k < 15 ==> (#[trigger] rows@[k]).0@ == label_of(field_at(k)) && rows@[k].1
                        == field_at(k),
                forall|k: int|
                    0 <= k < i ==> row_view(#[trigger] r@[k]) == saved_row(*self, field_at(k)),
            decreases rows.len() - i,
        {
            let (label, f): (&'static str, BindField) = rows[i];
            let sc: &Shortcut = self.get(f);
            r.push((label.to_string(), sc.ctrl, sc.shift, sc.alt, sc.key.clone()));
            i = i + 1;
        }
        r
    }

    /// The default binds with those of some saved rows in their place. A row with
    /// an unknown label or key is passed over; of two rows for one field the later
    /// one holds.
    pub fn restored(rows: &Vec<(String, bool, bool, bool, String)>) -> (k: Keybinds)
        ensures
            forall|f: BindField| #[trigger]
                k.at(f) == restored_at(row_views(rows@), rows.len() as int, f),
    {
        let mut k: Keybinds = Keybinds::default();
        let mut i: usize = 0;
        while i < rows.len()
            invariant
                i <= rows.len(),
                forall|f: BindField| #[trigger]
                    k.at(f) == restored_at(row_views(rows@), i as int, f),
            decreases rows.len() - i,
        {
            let ghost before = k;
            let row: &(String, bool, bool, bool, String) = &rows[i];
            let known: Option<BindField> = keybind_field(row.0.as_str());
            let key: Option<String> = key_from_str(row.4.as_str());
            proof {
                assert(row_views(rows@)[i as int] == row_view(rows@[i as int]));
                lemma_labels_differ();
            }
            if let Some(f) = known {
                if let Some(name) = key {
                    k.set(f, Shortcut { ctrl: row.1, shift: row.2, alt: row.3, key: name });
                }
            }
            i = i + 1;
        }
        k
    }
}

/// A saved row: label, shortcut.
pub open spec fn row_view(row: (String, bool, bool, bool, String)) -> (Seq<char>, ShortcutView) {
    (row.0@, ShortcutView { ctrl: row.1, shift: row.2, alt: row.3, key: row.4@ })
}

pub open spec fn row_views(rows: Seq<(String, bool, bool, bool, String)>) -> Seq<
    (Seq<char>, ShortcutView),
> {
    Seq::new(rows.len(), |i: int| row_view(rows[i]))
}

pub open spec fn saved_row(k: Keybinds, f: BindField) -> (Seq<char>, ShortcutView) {
    (label_of(f), k.at(f))
}

/// What a field is bound to after the first `n` saved rows.
pub open spec fn restored_at(rows: Seq<(Seq<char>, ShortcutView)>, n: int, f: BindField) -> ShortcutView
    decreases n,
{
    if n <= 0 {
        default_shortcut(f)
    } else if rows[n - 1].0 == label_of(f) && known_key(rows[n - 1].1.key) {
        rows[n - 1].1
    } else {
        restored_at(rows, n - 1, f)
    }
}

/// The shortcuts with their labels, in the order of the listing.
pub fn bind_rows() -> (r: Vec<(&'static str, BindField)>)
    ensures
        r.len() == 15,
        forall|i: int|
            0 <= i < 15 ==> (#[trigger] r@[i]).0@ == label_of(field_at(i)) && r@[i].1 == field_at(i),
{
    vec![
        ("Play / Pause", BindField::PlayPause),
        ("Step one frame back", BindField::StepBack),
        ("Step one frame forward", BindField::StepFwd),
        ("Jump to start", BindField::JumpStart),
        ("Jump to end", BindField::JumpEnd),
        ("Split clip at playhead", BindField::SplitClip),
        ("Delete selected clip", BindField::DeleteClip),
        ("Undo", BindField::Undo),
        ("Redo", BindField::Redo),
        ("Open / close export", BindField::ExportRender),
        ("Add text clip", BindField::AddText),
        ("Toggle audio peaks", BindField::TogglePeaks),
        ("Add video track", BindField::AddVideoTrack),
        ("Add audio track", BindField::AddAudioTrack),
        ("Close dialogs", BindField::CloseWindow),
    ]
}

/// The label of a shortcut.
pub fn bind_label(f: BindField) -> (r: &'static str)
    ensures
        r@ == label_of(f),
{
    let rows: Vec<(&'static str, BindField)> = bind_rows();
    let mut i: usize = 0;
    while i < rows.len()
        invariant
            i <= rows.len(),
            rows.len() == 15,
            i <= place_of(f),
            forall|k: int|
                0 <= k < 15 ==> (#[trigger] rows@[k]).0@ == label_of(field_at(k)) && rows@[k].1
                    == field_at(k),
        decreases rows.len() - i,
    {
        assert(field_at(place_of(f)) == f);
        if rows[i].1 == f {
            return rows[i].0;
        }
        i = i + 1;
    }
    "?"
}

/// The labels of two different fields differ.
pub proof fn lemma_labels_differ()
    ensures
        forall|f: BindField, g: BindField| #[trigger] label_of(f) == #[trigger] label_of(g) ==> f == g,
{
    reveal_strlit("Play / Pause");
    reveal_strlit("Step one frame back");
    reveal_strlit("Step one frame forward");
    reveal_strlit("Jump to start");
    reveal_strlit("Jump to end");
    reveal_strlit("Split clip at playhead");
    reveal_strlit("Delete selected clip");
    reveal_strlit("Undo");
    reveal_strlit("Redo");
    reveal_strlit("Open / close export");
    reveal_strlit("Add text clip");
    reveal_strlit("Toggle audio peaks");
    reveal_strlit("Add video track");
    reveal_strlit("Add audio track");
    reveal_strlit("Close dialogs");
    assert forall|f: BindField, g: BindField| #[trigger] label_of(f) == #[trigger] label_of(g) implies f
        == g by {
        let a = label_of(f);
        let b = label_of(g);
        assert(a.len() == b.len());
        assert(a[0] == b[0]);
        assert(a[a.len() - 1] == b[b.len() - 1]);
        assert(a.len() > 6 ==> a[5] == b[5] && a[4] == b[4]);
    }
}

/// The field with a saved label.
pub fn keybind_field(name: &str) -> (r: Option<BindField>)
    ensures
        match r {
            Some(f) => name@ == label_of(f),
            None => forall|f: BindField| name@ != #[trigger] label_of(f),
        },
{
    let rows: Vec<(&'static str, BindField)> = bind_rows();
    let mut i: usize = 0;
    while i < rows.len()
        invariant
            i <= rows.len(),
            rows.len() == 15,
            forall|k: int|
                0 <= k < 15 ==> (#[trigger] rows@[k]).0@ == label_of(field_at(k)) && rows@[k].1
                    == field_at(k),
            forall|k: int| 0 <= k < i ==> name@ != label_of(#[trigger] field_at(k)),
        decreases rows.len() - i,
    {
        if same_text(name, rows[i].0) {
            return Some(rows[i].1);
        }
        i = i + 1;
    }
    proof {
        assert forall|f: BindField| name@ != #[trigger] label_of(f) by {
            assert(field_at(place_of(f)) == f);
        }
    }
    None
}

/// The names of the keys that a saved bind can have.
pub open spec fn known_key(s: Seq<char>) -> bool {
    ||| s == "Space"@
    ||| s == "ArrowLeft"@
    ||| s == "ArrowRight"@
    ||| s == "ArrowUp"@
    ||| s == "ArrowDown"@
    ||| s == "Home"@
    ||| s == "End"@
    ||| s == "S"@
    ||| s == "Z"@
    ||| s == "Delete"@
    ||| s == "X"@
    ||| s == "C"@
    ||| s == "V"@
    ||| s == "E"@
    ||| s == "T"@
    ||| s == "P"@
    ||| s == "A"@
    ||| s == "K"@
    ||| s == "F"@
    ||| s == "Escape"@
    ||| s == "Enter"@
}

/// The key with a saved name, where a saved bind can have it.
pub fn key_from_str(s: &str) -> (r: Option<String>)
    ensures
        match r {
            Some(key) => known_key(s@) && key@ == s@,
            None => !known_key(s@),
        },
{
    if same_text(s, "Space")
        || same_text(s, "ArrowLeft")
        || same_text(s, "ArrowRight")
        || same_text(s, "ArrowUp")
        || same_text(s, "ArrowDown")
        || same_text(s, "Home")
        || same_text(s, "End")
        || same_text(s, "S")
        || same_text(s, "Z")
        || same_text(s, "Delete")
        || same_text(s, "X")
        || same_text(s, "C")
        || same_text(s, "V")
        || same_text(s, "E")
        || same_text(s, "T")
        || same_text(s, "P")
        || same_text(s, "A")
        || same_text(s, "K")
        || same_text(s, "F")
        || same_text(s, "Escape")
        || same_text(s, "Enter") {
        Some(s.to_string())
    } else {
        None
    }
}

/// The name of a key on a label.
pub open spec fn key_label(key: Seq<char>) -> Seq<char> {
    if key == "ArrowLeft"@ {
        "Left"@
    } else if key == "ArrowRight"@ {
        "Right"@
    } else if key == "Escape"@ {
        "Esc"@
    } else {
        key
    }
}

/// A shortcut on a label: its modifiers and its key, joined by `+`.
pub open spec fn shortcut_text(sc: ShortcutView) -> Seq<char> {
    let ctrl = if sc.ctrl {
        "Ctrl+"@
    } else {
        Seq::empty()
    };
    let shift = if sc.shift {
        "Shift+"@
    } else {
        Seq::empty()
    };
    let alt = if sc.alt {
        "Alt+"@
    } else {
        Seq::empty()
    };
    ctrl + shift + alt + key_label(sc.key)
}

pub fn shortcut_label(sc: &Shortcut) -> (r: String)
    ensures
        r@ == shortcut_text(sc@),
{
    let mut cs: Vec<char> = Vec::new();
    if sc.ctrl {
        extend(&mut cs, &chars_of("Ctrl+"));
    }
    assert(cs@ =~= if sc.ctrl { "Ctrl+"@ } else { Seq::empty() });
    if sc.shift {
        extend(&mut cs, &chars_of("Shift+"));
    }
    if sc.alt {
        extend(&mut cs, &chars_of("Alt+"));
    }
    let key: &str = sc.key.as_str();
    let name: &str = if same_text(key, "ArrowLeft") {
        "Left"
    } else if same_text(key, "ArrowRight") {
        "Right"
    } else if same_text(key, "Escape") {
        "Esc"
    } else {
        key
    };
    extend(&mut cs, &chars_of(name));
    assert(cs@ =~= shortcut_text(sc@));
    string_of(&cs)
}

/// Global settings.
#[derive(Clone, Copy, Debug)]
pub struct Settings {
    pub show_peaks: bool,
    pub dark_mode: bool,
    pub snap_to_playhead: bool,
    pub preview_width: u32,
    pub preview_height: u32,
    pub safe_margins: bool,
    pub accent: [u8; 3],
    pub autosave: bool,
}

impl Default for Settings {
    fn default() -> (s: Settings)
        ensures
            s.show_peaks && s.dark_mode && s.snap_to_playhead && !s.safe_margins && s.autosave,
            s.preview_width == 1280,
            s.preview_height == 720,
            s.accent@ == seq![240u8, 120u8, 64u8],
    {
        let accent: [u8; 3] = [240, 120, 64];
        proof {
            assert(accent@ =~= seq![240u8, 120u8, 64u8]);
        }
        Settings {
            show_peaks: true,
            dark_mode: true,
            snap_to_playhead: true,
            preview_width: 1280,
            preview_height: 720,
            safe_margins: false,
            accent,
            autosave: true,
        }
    }
}

/// What is kept between runs.
#[derive(Clone, Debug)]
pub struct PreferencesFile {
    pub settings: Settings,
    /// (bind label, ctrl, shift, alt, key name)
    pub keybinds: Vec<(String, bool, bool, bool, String)>,
    pub recent: Vec<String>,
}

fn copy_rows(rows: &Vec<(String, bool, bool, bool, String)>) -> (r: Vec<
    (String, bool, bool, bool, String),
>)
    ensures
        row_views(r@) == row_views(rows@),
{
    let mut r: Vec<(String, bool, bool, bool, String)> = Vec::new();
    let mut i: usize = 0;
    while i < rows.len()
        invariant
            i <= rows.len(),
            r.len() == i,
            forall|k: int| 0 <= k < i ==> row_view(#[trigger] r@[k]) == row_view(rows@[k]),
        decreases rows.len() - i,
    {
        let row: &(String, bool, bool, bool, String) = &rows[i];
        r.push((row.0.clone(), row.1, row.2, row.3, row.4.clone()));
        i = i + 1;
    }
    assert(row_views(r@) =~= row_views(rows@));
    r
}

pub fn copy_texts(texts: &Vec<String>) -> (r: Vec<String>)
    ensures
        views(r@) == views(texts@),
{
    let mut r: Vec<String> = Vec::new();
    let mut i: usize = 0;
    while i < texts.len()
        invariant
            i <= texts.len(),
            r.len() == i,
            forall|k: int| 0 <= k < i ==> (#[trigger] r@[k])@ == texts@[k]@,
        decreases texts.len() - i,
    {
        r.push(texts[i].clone());
        i = i + 1;
    }
    assert(views(r@) =~= views(texts@));
    r
}

/// The preferences to be written.
pub fn write_config(
    settings: Settings,
    keybinds: &Vec<(String, bool, bool, bool, String)>,
    recent: &Vec<String>,
) -> (p: PreferencesFile)
    ensures
        p.settings == settings,
        row_views(p.keybinds@) == row_views(keybinds@),
        views(p.recent@) == views(recent@),
{
    PreferencesFile { settings, keybinds: copy_rows(keybinds), recent: copy_texts(recent) }
}

/// Binds that were saved come back: a field whose key can be saved is bound as it
/// was, whatever it was bound to.
pub proof fn law_binds_come_back(
    k: Keybinds,
    rows: Seq<(String, bool, bool, bool, String)>,
    f: BindField,
)
    requires
        rows.len() == 15,
        forall|i: int| 0 <= i < 15 ==> row_view(#[trigger] rows[i]) == saved_row(k, field_at(i)),
        known_key(k.at(f).key),
    ensures
        restored_at(row_views(rows), 15, f) == k.at(f),
{
    lemma_labels_differ();
    lemma_row_found(k, rows, f, 15);
}

proof fn lemma_row_found(
    k: Keybinds,
    rows: Seq<(String, bool, bool, bool, String)>,
    f: BindField,
    n: int,
)
    requires
        rows.len() == 15,
        place_of(f) < n <= 15,
        forall|i: int| 0 <= i < 15 ==> row_view(#[trigger] rows[i]) == saved_row(k, field_at(i)),
        known_key(k.at(f).key),
        forall|g: BindField, h: BindField| #[trigger] label_of(g) == #[trigger] label_of(h) ==> g == h,
    ensures
        restored_at(row_views(rows), n, f) == k.at(f),
    decreases n,
{
    let row = row_views(rows)[n - 1];
    assert(row == row_view(rows[n - 1]));
    assert(field_at(place_of(f)) == f);
    assert(place_of(field_at(n - 1)) == n - 1);
    if place_of(f) < n - 1 {
        assert(label_of(field_at(n - 1)) != label_of(f));
        lemma_row_found(k, rows, f, n - 1);
    }
}

/// A character that separates the parts of a path.
pub open spec fn is_separator(c: char, windows: bool) -> bool {
    c == '/' || (windows && c == '\\')
}

/// A letter of a drive and a colon, and nothing else.
pub open spec fn is_drive(base: Seq<char>) -> bool {
    &&& base.len() == 2
    &&& base[1] == ':'
    &&& (('a' <= base[0] && base[0] <= 'z') || ('A' <= base[0] && base[0] <= 'Z'))
}

/// A relative name under a base path.
pub open spec fn under(base: Seq<char>, name: Seq<char>, windows: bool) -> Seq<char> {
    if base.len() == 0 || is_separator(base.last(), windows) || (windows && is_drive(base)) {
        base + name
    } else {
        base.push(
            if windows {
                '\\'
            } else {
                '/'
            },
        ) + name
    }
}

/// Puts a relative name under a base path.
pub fn join_path(base: &str, name: &str, windows: bool) -> (r: String)
    ensures
        r@ == under(base@, name@, windows),
{
    let mut cs: Vec<char> = chars_of(base);
    let n: usize = cs.len();
    let bare: bool = n == 0 || cs[n - 1] == '/' || (windows && cs[n - 1] == '\\');
    let drive: bool = n == 2 && cs[1] == ':' && (('a' <= cs[0] && cs[0] <= 'z') || ('A' <= cs[0]
        && cs[0] <= 'Z'));
    if !(bare || (windows && drive)) {
        cs.push(
            if windows {
                '\\'
            } else {
                '/'
            },
        );
    }
    extend(&mut cs, &chars_of(name));
    string_of(&cs)
}

/// The directory of the configuration files.
pub open spec fn config_path(xdg: Option<Seq<char>>, home: Option<Seq<char>>, windows: bool) -> Seq<char> {
    let base = match xdg {
        Some(x) => x,
        None => match home {
            Some(h) => under(h, ".config"@, windows),
            None => "/tmp"@,
        },
    };
    under(base, "rsedit"@, windows)
}

pub open spec fn text_view(s: Option<&str>) -> Option<Seq<char>> {
    match s {
        Some(t) => Some(t@),
        None => None,
    }
}

/// The directory of the configuration files: `rsedit` in the configuration
/// directory that the environment names, else in the one under the home
/// directory, else in `/tmp`.
pub fn config_dir(xdg: Option<&str>, home: Option<&str>, windows: bool) -> (r: String)
    ensures
        r@ == config_path(text_view(xdg), text_view(home), windows),
{
    match xdg {
        Some(x) => join_path(x, "rsedit", windows),
        None => match home {
            Some(h) => {
                let base: String = join_path(h, ".config", windows);
                join_path(base.as_str(), "rsedit", windows)
            },
            None => join_path("/tmp", "rsedit", windows),
        },
    }
}

/// The file of the preferences.
pub fn prefs_path(config: &str, windows: bool) -> (r: String)
    ensures
        r@ == under(config@, "prefs.json"@, windows),
{
    join_path(config, "prefs.json", windows)
}

/// The file of the automatic saves.
pub fn autosave_path(config: &str, windows: bool) -> (r: String)
    ensures
        r@ == under(config@, "autosave.rsedit"@, windows),
{
    join_path(config, "autosave.rsedit", windows)
}

} // verus!
