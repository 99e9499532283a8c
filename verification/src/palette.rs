//! The command palette.

use crate::app::{RsEditApp, Windows};
use crate::edit::{loop_around, looping, with_numbered_marker, with_text_track, with_track, Lane};
use crate::history::law_undo_takes_back;
use crate::prefs::Settings;
use crate::project::ProjectView;
use crate::strings::{chars_of, contains, has, lowercase};
use crate::timeline::SECOND_US;
use vstd::prelude::*;

verus! {

/// What the palette can do.
#[derive(Debug, Clone, Copy, PartialEq, Eq, Structural)]
pub enum PaletteAction {
    Import,
    NewProject,
    OpenProject,
    SaveProject,
    SaveAs,
    Export,
    AddVideoTrack,
    AddAudioTrack,
    AddText,
    Mark,
    Split,
    DeleteSel,
    Loop,
    Ripple,
    Fullscreen,
    Mixer,
    Snap,
    Margins,
    Dark,
    Preferences,
}

/// The name of a command.
pub open spec fn command_name(a: PaletteAction) -> Seq<char> {
    match a {
        PaletteAction::Import => "Import media…"@,
        PaletteAction::NewProject => "New project"@,
        PaletteAction::OpenProject => "Open project…"@,
        PaletteAction::SaveProject => "Save project"@,
        PaletteAction::SaveAs => "Save project as…"@,
        PaletteAction::Export => "Export…"@,
        PaletteAction::AddVideoTrack => "Add video track"@,
        PaletteAction::AddAudioTrack => "Add audio track"@,
        PaletteAction::AddText => "Add text / subtitles"@,
        PaletteAction::Mark => "Insert marker at playhead"@,
        PaletteAction::Split => "Split clip at playhead"@,
        PaletteAction::DeleteSel => "Delete selection"@,
        PaletteAction::Loop => "Toggle loop region"@,
        PaletteAction::Ripple => "Toggle ripple mode"@,
        PaletteAction::Fullscreen => "Toggle preview fullscreen"@,
        PaletteAction::Mixer => "Toggle mixer window"@,
        PaletteAction::Snap => "Toggle snap to playhead"@,
        PaletteAction::Margins => "Toggle safe margins"@,
        PaletteAction::Dark => "Toggle dark mode"@,
        PaletteAction::Preferences => "Preferences…"@,
    }
}

/// The commands in their order.
pub open spec fn command_list() -> Seq<PaletteAction> {
    seq![
        PaletteAction::Import,
        PaletteAction::NewProject,
        PaletteAction::OpenProject,
        PaletteAction::SaveProject,
        PaletteAction::SaveAs,
        PaletteAction::Export,
        PaletteAction::AddVideoTrack,
        PaletteAction::AddAudioTrack,
        PaletteAction::AddText,
        PaletteAction::Mark,
        PaletteAction::Split,
        PaletteAction::DeleteSel,
        PaletteAction::Loop,
        PaletteAction::Ripple,
        PaletteAction::Fullscreen,
        PaletteAction::Mixer,
        PaletteAction::Snap,
        PaletteAction::Margins,
        PaletteAction::Dark,
        PaletteAction::Preferences,
    ]
}

/// The commands with their names, in their order.
pub fn palette_commands() -> (r: Vec<(&'static str, PaletteAction)>)
    ensures
        r.len() == command_list().len(),
        forall|i: int|
            0 <= i < r.len() ==> (#[trigger] r@[i]).1 == command_list()[i] && r@[i].0@
                == command_name(command_list()[i]),
{
    vec![
        ("Import media…", PaletteAction::Import),
        ("New project", PaletteAction::NewProject),
        ("Open project…", PaletteAction::OpenProject),
        ("Save project", PaletteAction::SaveProject),
        ("Save project as…", PaletteAction::SaveAs),
        ("Export…", PaletteAction::Export),
        ("Add video track", PaletteAction::AddVideoTrack),
        ("Add audio track", PaletteAction::AddAudioTrack),
        ("Add text / subtitles", PaletteAction::AddText),
        ("Insert marker at playhead", PaletteAction::Mark),
        ("Split clip at playhead", PaletteAction::Split),
        ("Delete selection", PaletteAction::DeleteSel),
        ("Toggle loop region", PaletteAction::Loop),
        ("Toggle ripple mode", PaletteAction::Ripple),
        ("Toggle preview fullscreen", PaletteAction::Fullscreen),
        ("Toggle mixer window", PaletteAction::Mixer),
        ("Toggle snap to playhead", PaletteAction::Snap),
        ("Toggle safe margins", PaletteAction::Margins),
        ("Toggle dark mode", PaletteAction::Dark),
        ("Preferences…", PaletteAction::Preferences),
    ]
}

/// A name that a filter lets through: the empty filter all of them, another those
/// that hold it, whatever the case.
pub open spec fn passes(filter: Seq<char>, name: Seq<char>) -> bool {
    lowercase(filter).len() == 0 || contains(lowercase(name), lowercase(filter))
}

/// Whether a name that was turned to lower case holds a filter that was.
pub fn name_matches(lower_filter: &str, lower_name: &str) -> (r: bool)
    ensures
        r == (lower_filter@.len() == 0 || contains(lower_name@, lower_filter@)),
{
    let f: Vec<char> = chars_of(lower_filter);
    f.len() == 0 || has(&chars_of(lower_name), &f)
}

/// The places of the first `n` commands that pass the filter.
pub open spec fn matched(filter: Seq<char>, n: int) -> Seq<int>
    decreases n,
{
    if n <= 0 {
        Seq::empty()
    } else if passes(filter, command_name(command_list()[n - 1])) {
        matched(filter, n - 1).push(n - 1)
    } else {
        matched(filter, n - 1)
    }
}

/// The places of the commands that pass a filter, in their order.
pub fn matching_commands(filter: &str) -> (r: Vec<usize>)
    ensures
        r@.len() == matched(filter@, command_list().len() as int).len(),
        forall|i: int|
            0 <= i < r@.len() ==> (#[trigger] r@[i]) == matched(
                filter@,
                command_list().len() as int,
            )[i] && r@[i] < command_list().len(),
{
    let commands: Vec<(&'static str, PaletteAction)> = palette_commands();
    let lower: String = filter.to_lowercase();
    let mut r: Vec<usize> = Vec::new();
    let mut i: usize = 0;
    while i < commands.len()
        invariant
            i <= commands.len(),
            commands.len() == command_list().len(),
            lower@ == lowercase(filter@),
            forall|k: int|
                0 <= k < commands.len() ==> (#[trigger] commands@[k]).0@ == command_name(
                    command_list()[k],
                ),
            r@.len() == matched(filter@, i as int).len(),
            forall|k: int|
                0 <= k < r@.len() ==> (#[trigger] r@[k]) == matched(filter@, i as int)[k] && r@[k]
                    < i,
        decreases commands.len() - i,
    {
        let name: String = commands[i].0.to_lowercase();
        if name_matches(lower.as_str(), name.as_str()) {
            r.push(i);
        }
        i = i + 1;
    }
    r
}

/// The selected line among `n` once `down` or `up` was pressed: it stays among them
/// and goes round at the ends.
pub open spec fn moved_selection(sel: int, n: int, down: bool, up: bool) -> int {
    let at = if sel >= n {
        0
    } else {
        sel
    };
    if down && !up {
        if at + 1 == n {
            0
        } else {
            at + 1
        }
    } else if up && !down {
        if at == 0 {
            n - 1
        } else {
            at - 1
        }
    } else {
        at
    }
}

/// Moves the selected line among `n`.
pub fn move_selection(sel: usize, n: usize, down: bool, up: bool) -> (r: usize)
    requires
        n > 0,
    ensures
        r == moved_selection(sel as int, n as int, down, up),
        r < n,
{
    let at: usize = if sel >= n {
        0
    } else {
        sel
    };
    if down && !up {
        if at + 1 == n {
            0
        } else {
            at + 1
        }
    } else if up && !down {
        if at == 0 {
            n - 1
        } else {
            at - 1
        }
    } else {
        at
    }
}

/// Down and up take each other back.
pub proof fn law_selection_goes_round(sel: int, n: int)
    requires
        0 <= sel < n,
    ensures
        moved_selection(moved_selection(sel, n, true, false), n, false, true) == sel,
        moved_selection(moved_selection(sel, n, false, true), n, true, false) == sel,
{
}

/// What is left to do outside the state.
#[derive(Debug, Clone, Copy, PartialEq, Eq, Structural)]
pub enum Outside {
    Done,
    Import,
    OpenProject,
    SaveProject,
    SaveAs,
    ClearAutosave,
    ApplyTheme,
}

/// The windows after a command that only opens or closes one.
pub open spec fn windows_after(w: Windows, a: PaletteAction) -> Windows {
    match a {
        PaletteAction::Export => Windows { export_open: true, ..w },
        PaletteAction::Preferences => Windows { settings_open: true, ..w },
        PaletteAction::Mixer => Windows { mixer_open: !w.mixer_open, ..w },
        PaletteAction::Fullscreen => Windows { fullscreen_preview: !w.fullscreen_preview, ..w },
        _ => w,
    }
}

/// The settings after a command that only throws a switch.
pub open spec fn settings_after(s: Settings, a: PaletteAction) -> Settings {
    match a {
        PaletteAction::Snap => Settings { snap_to_playhead: !s.snap_to_playhead, ..s },
        PaletteAction::Margins => Settings { safe_margins: !s.safe_margins, ..s },
        PaletteAction::Dark => Settings { dark_mode: !s.dark_mode, ..s },
        _ => s,
    }
}

fn switch_windows(w: Windows, a: PaletteAction) -> (r: Windows)
    ensures
        r == windows_after(w, a),
{
    match a {
        PaletteAction::Export => Windows { export_open: true, ..w },
        PaletteAction::Preferences => Windows { settings_open: true, ..w },
        PaletteAction::Mixer => Windows { mixer_open: !w.mixer_open, ..w },
        PaletteAction::Fullscreen => Windows { fullscreen_preview: !w.fullscreen_preview, ..w },
        _ => w,
    }
}

fn switch_settings(s: Settings, a: PaletteAction) -> (r: Settings)
    ensures
        r == settings_after(s, a),
{
    match a {
        PaletteAction::Snap => Settings { snap_to_playhead: !s.snap_to_playhead, ..s },
        PaletteAction::Margins => Settings { safe_margins: !s.safe_margins, ..s },
        PaletteAction::Dark => Settings { dark_mode: !s.dark_mode, ..s },
        _ => s,
    }
}

/// What a command of the palette needs.
pub open spec fn can_run(s: RsEditApp, a: PaletteAction) -> bool {
    match a {
        PaletteAction::Split => s.can_split_selected(),
        PaletteAction::DeleteSel => s.can_delete_selected(),
        PaletteAction::Loop => looping(s.project@) || s.playhead_us + SECOND_US <= i64::MAX,
        _ => true,
    }
}

/// The state with the palette closed and emptied.
pub open spec fn palette_closed(s: RsEditApp, to: RsEditApp) -> bool {
    &&& to == (RsEditApp {
        windows: Windows { palette_open: false, ..s.windows },
        palette_filter: to.palette_filter,
        palette_sel: 0,
        ..s
    })
    &&& to.palette_filter@ == ""@
}

impl RsEditApp {
    fn close_palette(&mut self)
        ensures
            palette_closed(*old(self), *final(self)),
    {
        self.windows.palette_open = false;
        self.palette_filter = "".to_string();
        self.palette_sel = 0;
    }

    /// Whether a command of the palette can run.
    pub fn may_run_palette(&self, a: PaletteAction) -> (r: bool)
        ensures
            r == can_run(*self, a),
    {
        match a {
            PaletteAction::Split => self.may_split_selected(),
            PaletteAction::DeleteSel => self.may_delete_selected(),
            PaletteAction::Loop => self.project.is_looping() || self.playhead_us <= i64::MAX
                - SECOND_US,
            _ => true,
        }
    }

    /// The state after a command that only throws a switch or opens a window.
    pub open spec fn switched(self, a: PaletteAction, to: RsEditApp) -> bool {
        to == (RsEditApp {
            windows: windows_after(self.windows, a),
            settings: settings_after(self.settings, a),
            ..self
        })
    }

    /// The state that a command of the palette leaves, from the state with the palette
    /// closed. What changes the project keeps it for undo as it was before.
    pub open spec fn palette_ran(self, a: PaletteAction, to: RsEditApp) -> bool {
        match a {
            PaletteAction::AddText => {
                &&& to == (RsEditApp {
                    project: to.project,
                    history: to.history,
                    dirty: true,
                    ..self
                })
                &&& to.project@ == with_text_track(self.project@)
                &&& to.history@ == self.history@.recorded(self.project@)
            },
            PaletteAction::Mark => {
                &&& to == (RsEditApp {
                    project: to.project,
                    history: to.history,
                    dirty: true,
                    ..self
                })
                &&& to.project@ == with_numbered_marker(self.project@, self.playhead_us as int)
                &&& to.history@ == self.history@.recorded(self.project@)
            },
            PaletteAction::Loop => {
                &&& to == (RsEditApp {
                    project: to.project,
                    history: to.history,
                    dirty: true,
                    ..self
                })
                &&& to.project@ == loop_around(self.project@, self.playhead_us as int)
                &&& to.history@ == self.history@.recorded(self.project@)
            },
            PaletteAction::Ripple => {
                &&& to == (RsEditApp {
                    project: to.project,
                    history: to.history,
                    dirty: true,
                    ..self
                })
                &&& to.project@ == (ProjectView { ripple: !self.project@.ripple, ..self.project@ })
                &&& to.history@ == self.history@.recorded(self.project@)
            },
            PaletteAction::AddVideoTrack => {
                &&& to == (RsEditApp {
                    project: to.project,
                    history: to.history,
                    dirty: true,
                    last_request: None,
                    ..self
                })
                &&& to.project@ == with_track(self.project@, Lane::Video)
                &&& to.history@ == self.history@.recorded(self.project@)
            },
            PaletteAction::AddAudioTrack => {
                &&& to == (RsEditApp {
                    project: to.project,
                    history: to.history,
                    dirty: true,
                    last_request: None,
                    ..self
                })
                &&& to.project@ == with_track(self.project@, Lane::Audio)
                &&& to.history@ == self.history@.recorded(self.project@)
            },
            PaletteAction::DeleteSel => self.selected_deleted(to),
            PaletteAction::Split => self.selected_split(to),
            PaletteAction::NewProject => self.started_over(to),
            _ => self.switched(a, to),
        }
    }

    fn run_edit(&mut self, a: PaletteAction)
        requires
            can_run(*old(self), a),
        ensures
            old(self).palette_ran(a, *final(self)),
    {
        match a {
            PaletteAction::AddVideoTrack => self.add_track(Lane::Video),
            PaletteAction::AddAudioTrack => self.add_track(Lane::Audio),
            PaletteAction::AddText => {
                self.push_undo();
                self.project.add_text_track();
            },
            PaletteAction::Mark => {
                self.push_undo();
                self.project.add_numbered_marker(self.playhead_us);
            },
            PaletteAction::Split => self.split_selected(),
            PaletteAction::DeleteSel => self.delete_selected(),
            PaletteAction::NewProject => self.new_project(),
            PaletteAction::Loop => {
                self.push_undo();
                self.project.toggle_loop_around(self.playhead_us);
            },
            PaletteAction::Ripple => {
                self.push_undo();
                self.project.ripple = !self.project.ripple;
            },
            _ => self.run_switch(a),
        }
    }

    fn run_switch(&mut self, a: PaletteAction)
        ensures
            old(self).switched(a, *final(self)),
    {
        self.windows = switch_windows(self.windows, a);
        self.settings = switch_settings(self.settings, a);
    }

    /// Closes the palette and runs one of its commands; what is left to do outside
    /// comes back.
    pub fn run_palette(&mut self, a: PaletteAction) -> (r: Outside)
        requires
            can_run(*old(self), a),
        ensures
            exists|mid: RsEditApp| #[trigger]
                palette_closed(*old(self), mid) && mid.palette_ran(a, *final(self)),
            r == outside_of(a),
    {
        self.close_palette();
        let ghost mid = *self;
        assert(mid.project == old(self).project && mid.selected == old(self).selected);
        self.run_edit(a);
        assert(palette_closed(*old(self), mid) && mid.palette_ran(a, *self));
        match a {
            PaletteAction::Import => Outside::Import,
            PaletteAction::NewProject => Outside::ClearAutosave,
            PaletteAction::OpenProject => Outside::OpenProject,
            PaletteAction::SaveProject => Outside::SaveProject,
            PaletteAction::SaveAs => Outside::SaveAs,
            PaletteAction::Dark => Outside::ApplyTheme,
            _ => Outside::Done,
        }
    }
}

/// Whatever a command of the palette changes in a project, undo takes back; only a new
/// project starts over.
pub proof fn law_palette_edits_are_undone(s: RsEditApp, a: PaletteAction, to: RsEditApp)
    requires
        s.palette_ran(a, to),
        a != PaletteAction::NewProject,
        to.project@ != s.project@,
    ensures
        to.history@.can_undo(),
        to.history@.previous(to.project@) == s.project@,
{
    law_undo_takes_back(s.history@, s.project@, to.project@);
}

/// What a command leaves to do outside the state.
pub open spec fn outside_of(a: PaletteAction) -> Outside {
    match a {
        PaletteAction::Import => Outside::Import,
        PaletteAction::NewProject => Outside::ClearAutosave,
        PaletteAction::OpenProject => Outside::OpenProject,
        PaletteAction::SaveProject => Outside::SaveProject,
        PaletteAction::SaveAs => Outside::SaveAs,
        PaletteAction::Dark => Outside::ApplyTheme,
        _ => Outside::Done,
    }
}

} // verus!
