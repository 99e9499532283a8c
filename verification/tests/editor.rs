use rsedit::app::{selection_equals, RsEditApp, Selection, TimelineDrag};
use rsedit::commands::{fixed_command, shortcut_order, FixedCommand, FixedKeys};
use rsedit::edit::{HeaderButton, Lane};
use rsedit::float::{Float32, Float64};
use rsedit::palette::{
    matching_commands, move_selection, palette_commands, Outside, PaletteAction,
};
use rsedit::prefs::{
    autosave_path, bind_label, bind_rows, config_dir, join_path, key_from_str, keybind_field,
    prefs_path, shortcut_label, write_config, BindField, Keybinds, Settings, Shortcut,
};
use rsedit::project::Project;
use rsedit::session::{lane_for, FpsAnswer, SaveRequest};
use rsedit::timeline::{Asset, AssetId, AssetKind, AudioClip, TextClip, VideoClip, SECOND_US};

fn f64s(x: f64) -> Float64 {
    Float64 { bits: x.to_bits() }
}

fn app() -> RsEditApp {
    let mut s = RsEditApp::new(None, None);
    s.project.video_tracks[0].clips.push(VideoClip { source_out: 4 * SECOND_US, ..VideoClip::default() });
    s.project.audio_tracks[0].clips.push(AudioClip { source_out: 2 * SECOND_US, ..AudioClip::default() });
    s.project.text_tracks[0].clips.push(TextClip { timeline_end: SECOND_US, ..TextClip::default() });
    s
}

fn asset(kind: AssetKind, rate: f64) -> Asset {
    Asset {
        id: AssetId(0),
        kind,
        name: "holiday.mp4".into(),
        path: "/m/holiday.mp4".into(),
        duration_us: 5 * SECOND_US,
        width: 2,
        height: 2,
        frame_rate: f64s(rate),
        sample_rate: 0,
        channels: 1,
        peaks: vec![],
        rgba: None,
        thumb: None,
        pcm: None,
        filmstrip: None,
    }
}

const V: Selection = Selection::Video { track: 0, clip: 0 };

#[test]
fn deletes_can_be_undone_and_redone() {
    let mut s = app();
    s.selected = V;
    assert!(s.may_delete_selected());
    s.delete_selected();
    assert!(s.project.video_tracks[0].clips.is_empty());
    assert!(s.dirty && s.mix_stale);
    assert_eq!(s.selected, Selection::Nothing);
    s.undo();
    assert_eq!(s.project.video_tracks[0].clips.len(), 1);
    s.redo();
    assert!(s.project.video_tracks[0].clips.is_empty());
    s.redo();
    s.undo();
    s.undo();
    assert_eq!(s.project.video_tracks[0].clips.len(), 1);
}

#[test]
fn an_edit_after_an_undo_leaves_nothing_to_redo() {
    let mut s = app();
    s.add_track(Lane::Video);
    s.undo();
    s.add_track(Lane::Audio);
    s.redo();
    assert_eq!((s.project.video_tracks.len(), s.project.audio_tracks.len()), (1, 2));
}

#[test]
fn a_hundred_edits_can_be_undone() {
    let mut s = app();
    for _ in 0..150 {
        s.toggle_ripple();
    }
    assert_eq!(s.history.undo.len(), 100);
    let mut n = 0;
    while s.history.undo.len() > 0 {
        s.undo();
        n += 1;
    }
    assert_eq!(n, 100);
    assert_eq!(s.history.redo.len(), 100);
}

#[test]
fn the_playhead_steps_within_the_project() {
    let mut s = app();
    s.step_frame(1);
    assert_eq!(s.playhead_us, 33_333);
    s.step_frame(-5);
    assert_eq!(s.playhead_us, 0);
    s.jump_end();
    assert_eq!(s.playhead_us, 4 * SECOND_US);
    s.step_frame(3);
    assert_eq!(s.playhead_us, 4 * SECOND_US);
    s.jump_start();
    assert_eq!(s.playhead_us, 0);
    assert!(s.seek_audio);
    s.playhead_us = 99 * SECOND_US;
    assert_eq!(s.preview_us(), 4 * SECOND_US);
    s.toggle_play();
    assert!(s.playing);
}

#[test]
fn cut_and_paste() {
    let mut s = app();
    s.selected = V;
    assert!(s.has_selected_track());
    s.cut_selected();
    assert_eq!(s.toasts, vec!["Copied clip"]);
    assert!(s.project.video_tracks[0].clips.is_empty());
    s.playhead_us = 700;
    assert!(s.may_paste_clip());
    s.paste_clip();
    assert_eq!(s.project.video_tracks[0].clips[0].timeline_start, 700);
    assert_eq!(s.toasts[1], "Pasted clip at playhead");
    let mut t = app();
    t.paste_clip();
    assert!(t.toasts.is_empty());
    t.selected = Selection::Text { track: 9, clip: 0 };
    assert!(!t.has_selected_track());
}

#[test]
fn nudges_and_splits_of_the_selection() {
    let mut s = app();
    s.selected = V;
    assert!(s.may_nudge_selected(1));
    s.nudge_selected(1);
    assert_eq!(s.project.video_tracks[0].clips[0].timeline_start, 33_333);
    s.undo();
    assert_eq!(s.project.video_tracks[0].clips[0].timeline_start, 0);
    s.redo();
    s.nudge_selected(-2);
    assert_eq!(s.project.video_tracks[0].clips[0].timeline_start, 0);
    s.playhead_us = SECOND_US;
    assert!(s.may_split_selected());
    s.split_selected();
    assert_eq!(s.project.video_tracks[0].clips.len(), 2);
    s.selected = Selection::Audio { track: 0, clip: 0 };
    s.mix_stale = false;
    s.split_selected();
    assert!(s.mix_stale);
    assert_eq!(s.project.audio_tracks[0].clips.len(), 2);
    s.selected = Selection::Nothing;
    s.nudge_selected(1);
    s.split_selected();
    s.delete_selected();
    assert_eq!(s.project.video_tracks[0].clips.len(), 2);
}

#[test]
fn titles_markers_loops() {
    let mut s = app();
    s.add_text_clip();
    assert_eq!(s.project.text_tracks[0].clips[1].text, "New title");
    s.add_marker();
    assert_eq!(s.project.markers.len(), 1);
    s.toggle_loop();
    assert!(s.project.is_looping());
    s.undo();
    assert!(!s.project.is_looping());
}

#[test]
fn shortcuts_run_their_commands() {
    let mut s = app();
    s.selected = V;
    for f in shortcut_order() {
        assert!(s.may_run_bind(f));
    }
    s.run_bind(BindField::DeleteClip);
    s.run_bind(BindField::Undo);
    assert_eq!(s.project.video_tracks[0].clips.len(), 1);
    s.run_bind(BindField::Redo);
    assert_eq!(s.project.video_tracks[0].clips.len(), 0);
    s.run_bind(BindField::ExportRender);
    assert!(s.windows.export_open);
    s.run_bind(BindField::CloseWindow);
    assert!(!s.windows.export_open);
    s.run_bind(BindField::TogglePeaks);
    assert!(!s.settings.show_peaks);
    s.run_bind(BindField::StepFwd);
    assert_eq!(s.playhead_us, 33_333);
    s.run_bind(BindField::AddVideoTrack);
    s.run_bind(BindField::AddAudioTrack);
    assert_eq!((s.project.video_tracks.len(), s.project.audio_tracks.len()), (2, 2));
    s.run_bind(BindField::AddText);
    assert_eq!(s.project.text_tracks[0].clips.len(), 2);
    let order = shortcut_order();
    assert_eq!(order.len(), 15);
    let redo = order.iter().position(|f| *f == BindField::Redo);
    let undo = order.iter().position(|f| *f == BindField::Undo);
    assert!(redo < undo);
}

#[test]
fn fixed_shortcuts() {
    let none = FixedKeys {
        ctrl: false, shift: false, c: true, x: true, v: true, k: true, m: true, left: true, right: true,
    };
    assert_eq!(fixed_command(none), None);
    assert_eq!(fixed_command(FixedKeys { ctrl: true, ..none }), Some(FixedCommand::Copy));
    assert_eq!(
        fixed_command(FixedKeys { ctrl: true, c: false, x: false, v: false, k: false, ..none }),
        Some(FixedCommand::Mixer)
    );
    assert_eq!(fixed_command(FixedKeys { shift: true, ..none }), Some(FixedCommand::NudgeLeft));
    assert_eq!(fixed_command(FixedKeys { shift: true, left: false, ..none }), Some(FixedCommand::NudgeRight));
    assert_eq!(fixed_command(FixedKeys { shift: true, ctrl: true, ..none }), None);
}

#[test]
fn new_binds_are_captured() {
    let mut s = app();
    s.capture(Some(Shortcut::new(true, false, false, "K")), false);
    assert!(s.toasts.is_empty());
    s.capturing = Some(BindField::Undo);
    s.capture(None, false);
    assert_eq!(s.capturing, Some(BindField::Undo));
    s.capture(Some(Shortcut::new(true, false, true, "ArrowLeft")), true);
    assert_eq!(s.capturing, None);
    assert_eq!(s.toasts, vec!["Bound Undo to Ctrl+Alt+Left"]);
    assert_eq!(s.keybinds.get(BindField::Undo).key, "ArrowLeft");
    assert_eq!(s.keybinds.get(BindField::Redo).key, "Z");
    s.capturing = Some(BindField::Redo);
    s.capture(None, true);
    assert_eq!(s.capturing, None);
    s.reset_keybinds();
    assert_eq!(s.keybinds.get(BindField::Undo).key, "Z");
    assert_eq!(s.toasts[1], "Keybinds reset to defaults");
}

#[test]
fn clicks_select() {
    let mut s = app();
    let a = Selection::Audio { track: 0, clip: 0 };
    s.click_clip(V, true);
    s.click_clip(a, true);
    assert_eq!(s.multi_selection, vec![V, a]);
    s.click_clip(V, true);
    assert_eq!(s.multi_selection, vec![a]);
    assert_eq!(s.selected, V);
    s.click_clip(a, false);
    assert!(s.multi_selection.is_empty());
    s.click_empty(Some(-7));
    assert_eq!((s.selected, s.playhead_us), (Selection::Nothing, 0));
    s.click_empty(Some(99 * SECOND_US));
    assert_eq!(s.playhead_us, 4 * SECOND_US);
    s.playhead_us = 5;
    s.click_empty(None);
    assert_eq!(s.playhead_us, 5);
    assert!(selection_equals(a, a) && !selection_equals(a, V));
    s.click_clip(Selection::Video { track: 2, clip: 1 }, true);
    s.click_clip(a, true);
    assert!(s.is_marked(2, 1) && s.is_marked(0, 0) && !s.is_marked(1, 2));
    assert!(selection_equals(Selection::of(Lane::Video, 0, 0), V));
    assert_eq!(Selection::default().place(), None);
}

#[test]
fn clips_are_dragged() {
    let mut s = app();
    s.settings.snap_to_playhead = false;
    let d = s.grab(Lane::Video, 0, 0, 100);
    assert_eq!(d, TimelineDrag::Move { lane: Lane::Video, track: 0, clip: 0, grab_us: 100 });
    s.begin_drag(d);
    assert!(s.drag_to(1_000_100));
    assert_eq!(s.project.video_tracks[0].clips[0].timeline_start, 1_000_000);
    assert!(s.drag_to(-50));
    assert_eq!(s.project.video_tracks[0].clips[0].timeline_start, 0);
    s.settings.snap_to_playhead = true;
    s.timeline_zoom = Float32 { bits: 100.0f32.to_bits() };
    s.playhead_us = 6_000_000;
    assert!(s.drag_to(6_030_100));
    assert_eq!(s.project.video_tracks[0].clips[0].timeline_start, 6_000_000);
    s.end_drag();
    assert!(s.timeline_drag.is_none() && s.mix_stale);
    s.undo();
    assert_eq!(s.project.video_tracks[0].clips[0].timeline_start, 0);
    s.begin_drag(TimelineDrag::TrimL { lane: Lane::Video, track: 0, clip: 0 });
    assert!(s.drag_to(SECOND_US));
    assert_eq!(s.project.video_tracks[0].clips[0].source_in, SECOND_US);
    s.begin_drag(TimelineDrag::TrimR { lane: Lane::Text, track: 0, clip: 0 });
    assert!(s.drag_to(9 * SECOND_US));
    assert_eq!(s.project.text_tracks[0].clips[0].timeline_end, 9 * SECOND_US);
    assert_eq!(s.snapped_time(77), 0);
    s.settings.snap_to_playhead = false;
    assert_eq!(s.snapped_time(77), 77);
}

#[test]
fn assets_are_dropped_on_lanes() {
    let mut s = app();
    let id = s.project.assets.insert(asset(AssetKind::Video, 30.0));
    s.drag_source = Some(id);
    s.drag_timeline_us = Some(8_100_000);
    s.playhead_us = 8_000_000;
    assert!(s.may_drop(Some((Lane::Video, 0))));
    s.drop_asset(Some((Lane::Video, 0)));
    assert_eq!(s.project.video_tracks[0].clips[1].timeline_start, 8_000_000);
    assert!(s.drag_source.is_none() && s.drag_timeline_us.is_none());
    s.drag_source = Some(id);
    s.drop_asset(Some((Lane::Text, 0)));
    assert_eq!(s.project.text_tracks[0].clips[1].text, "New text");
    s.drag_source = Some(id);
    s.drop_asset(None);
    assert!(s.drag_source.is_none());
    s.click_header(Lane::Audio, 0, HeaderButton::Solo);
    assert!(s.project.audio_tracks[0].solo);
}

#[test]
fn the_palette_finds_and_runs_commands() {
    let all = palette_commands();
    assert_eq!(all.len(), 20);
    assert_eq!(matching_commands("").len(), 20);
    let found = matching_commands("MIXER");
    assert_eq!(found.len(), 1);
    assert_eq!(all[found[0]].1, PaletteAction::Mixer);
    assert_eq!(matching_commands("zzz").len(), 0);
    assert_eq!(move_selection(2, 3, true, false), 0);
    assert_eq!(move_selection(0, 3, false, true), 2);
    assert_eq!(move_selection(9, 3, false, false), 0);
    assert_eq!(move_selection(1, 3, true, true), 1);
    let mut s = app();
    s.toggle_palette();
    assert!(s.windows.palette_open);
    s.palette_filter = "x".into();
    assert_eq!(s.run_palette(PaletteAction::Mixer), Outside::Done);
    assert!(s.windows.mixer_open && !s.windows.palette_open && s.palette_filter.is_empty());
    assert_eq!(s.run_palette(PaletteAction::Dark), Outside::ApplyTheme);
    assert!(!s.settings.dark_mode);
    assert_eq!(s.run_palette(PaletteAction::AddText), Outside::Done);
    assert_eq!(s.project.text_tracks[1].name, "Text 2");
    s.undo();
    assert_eq!(s.project.text_tracks.len(), 1);
    s.run_palette(PaletteAction::Mark);
    assert_eq!(s.project.markers[0].name, "Marker 1");
    s.undo();
    assert!(s.project.markers.is_empty());
    assert!(s.may_run_palette(PaletteAction::Loop));
    s.run_palette(PaletteAction::Loop);
    assert_eq!(s.project.loop_end, Some(SECOND_US));
    s.undo();
    assert_eq!(s.project.loop_end, None);
    s.run_palette(PaletteAction::Ripple);
    s.undo();
    assert!(!s.project.ripple);
    s.run_palette(PaletteAction::Snap);
    s.run_palette(PaletteAction::Margins);
    s.run_palette(PaletteAction::Ripple);
    assert!(!s.settings.snap_to_playhead && s.settings.safe_margins && s.project.ripple);
    s.run_palette(PaletteAction::Export);
    s.run_palette(PaletteAction::Preferences);
    s.run_palette(PaletteAction::Fullscreen);
    assert!(s.windows.export_open && s.windows.settings_open && s.windows.fullscreen_preview);
    assert_eq!(s.run_palette(PaletteAction::Import), Outside::Import);
    assert_eq!(s.run_palette(PaletteAction::SaveAs), Outside::SaveAs);
    s.run_palette(PaletteAction::AddVideoTrack);
    s.run_palette(PaletteAction::Split);
    s.run_palette(PaletteAction::DeleteSel);
    assert_eq!(s.run_palette(PaletteAction::NewProject), Outside::ClearAutosave);
    assert_eq!(s.project.video_tracks.len(), 1);
}

#[test]
fn preferences_come_back() {
    let mut s = app();
    s.keybinds.set(BindField::AddText, Shortcut::new(false, true, false, "Enter"));
    s.keybinds.set(BindField::Undo, Shortcut::new(false, false, false, "F5"));
    s.add_recent("/a.rsedit");
    s.settings.dark_mode = false;
    let file = write_config(s.settings, &s.keybinds.binds(), &s.recent_files);
    assert_eq!(file.keybinds.len(), 15);
    let back = RsEditApp::new(Some(&file), None);
    assert_eq!(back.keybinds.get(BindField::AddText).key, "Enter");
    assert!(back.keybinds.get(BindField::AddText).shift);
    // A key that cannot be saved falls back to the default.
    assert_eq!(back.keybinds.get(BindField::Undo).key, "Z");
    assert_eq!(back.recent_files, vec!["/a.rsedit"]);
    assert!(!back.settings.dark_mode);
    let rows = vec![("Nothing".to_string(), true, true, true, "S".to_string())];
    assert_eq!(Keybinds::restored(&rows).get(BindField::SplitClip).key, "S");
    assert!(!Keybinds::restored(&rows).get(BindField::SplitClip).shift);
}

#[test]
fn labels_and_keys() {
    for (label, f) in bind_rows() {
        assert_eq!(bind_label(f), label);
        assert_eq!(keybind_field(label), Some(f));
    }
    assert_eq!(keybind_field("undo"), None);
    assert_eq!(key_from_str("Escape"), Some("Escape".to_string()));
    assert_eq!(key_from_str("Q"), None);
    assert_eq!(shortcut_label(&Shortcut::new(true, true, true, "Escape")), "Ctrl+Shift+Alt+Esc");
    assert_eq!(shortcut_label(&Shortcut::new(false, false, false, "ArrowRight")), "Right");
    assert_eq!(shortcut_label(&Shortcut::new(false, false, false, "F5")), "F5");
    let d = Settings::default();
    assert_eq!((d.preview_width, d.preview_height, d.accent), (1280, 720, [240, 120, 64]));
}

#[test]
fn configuration_paths() {
    assert_eq!(config_dir(Some("/x"), Some("/home/u"), false), "/x/rsedit");
    assert_eq!(config_dir(None, Some("/home/u"), false), "/home/u/.config/rsedit");
    assert_eq!(config_dir(None, None, false), "/tmp/rsedit");
    assert_eq!(prefs_path("/c", false), "/c/prefs.json");
    assert_eq!(autosave_path("/c/", false), "/c/autosave.rsedit");
    assert_eq!(join_path("", "a", false), "a");
    assert_eq!(join_path("C:", "a", true), "C:a");
    assert_eq!(join_path("C:\\", "a", true), "C:\\a");
    assert_eq!(join_path("C:\\b", "a", true), "C:\\b\\a");
    assert_eq!(join_path("b\\", "a", false), "b\\/a");
}

#[test]
fn project_files() {
    let mut s = app();
    match s.save_project() {
        SaveRequest::Ask(name) => assert_eq!(name, "project.rsedit"),
        SaveRequest::To(_) => panic!("never saved"),
    }
    s.saved("/p/film.rsedit", true, Ok(()));
    assert_eq!(s.current_project_path.as_deref(), Some("/p/film.rsedit"));
    assert_eq!(s.toasts, vec!["Saved as /p/film.rsedit"]);
    match s.save_project() {
        SaveRequest::To(path) => assert_eq!(path, "/p/film.rsedit"),
        SaveRequest::Ask(_) => panic!("was saved"),
    }
    s.dirty = true;
    s.saved("/p/film.rsedit", false, Err("disk full".into()));
    assert!(s.dirty);
    assert_eq!(s.toasts[1], "Save failed: disk full");
    s.saved("/p/film.rsedit", false, Ok(()));
    assert!(!s.dirty);
    assert_eq!(s.toasts[2], "Project saved");
    s.load_project_file("/p/other", Err("bad".into()));
    assert_eq!(s.toasts[3], "Open failed: bad");
    s.load_project_file("/p/other", Ok(Project::new()));
    assert_eq!(s.toasts[4], "Opened /p/other");
    assert_eq!(s.recent_files, vec!["/p/other", "/p/film.rsedit"]);
    match s.save_project_as() {
        SaveRequest::Ask(name) => assert_eq!(name, "/p/other.rsedit"),
        SaveRequest::To(_) => panic!("has to ask"),
    }
    s.undo();
    assert_eq!(s.project.video_tracks[0].clips.len(), 1);
    s.new_project();
    assert_eq!(s.project.video_tracks[0].clips.len(), 0);
    assert!(s.current_project_path.is_none());
}

#[test]
fn recent_files_are_few_and_different() {
    let mut s = app();
    for i in 0..12 {
        s.add_recent(&format!("/f{}", i));
    }
    assert_eq!(s.recent_files.len(), 8);
    assert_eq!(s.recent_files[0], "/f11");
    s.add_recent("/f9");
    assert_eq!(s.recent_files[0], "/f9");
    assert_eq!(s.recent_files.len(), 8);
    assert_eq!(s.recent_files.iter().filter(|p| *p == "/f9").count(), 1);
}

#[test]
fn imports() {
    let mut s = app();
    assert!(!s.import_subtitles(None));
    assert!(!s.import_subtitles(Some("nothing")));
    assert!(s.import_subtitles(Some("1\n00:00:01,000 --> 00:00:02,000\nHi")));
    assert_eq!(s.project.text_tracks[1].clips[0].text, "Hi");
    let id = s.project.assets.insert(asset(AssetKind::Video, 24.0));
    s.imported(id, "24.00");
    assert_eq!(s.pending_fps.map(|f| f.bits), Some(24.0f64.to_bits()));
    assert_eq!(s.toasts, vec!["Imported holiday.mp4 at 24.00 fps"]);
    s.answer_fps(FpsAnswer::Adopt, "24.00");
    assert_eq!(s.project.fps.bits, 24.0f64.to_bits());
    assert_eq!(s.toasts[1], "Project frame rate set to 24.00 fps");
    s.imported(id, "24.00");
    assert!(s.pending_fps.is_none());
    s.pending_fps = Some(f64s(50.0));
    s.answer_fps(FpsAnswer::Keep, "50.00");
    assert_eq!(s.toasts[3], "Kept current project frame rate");
    let still = s.project.assets.insert(asset(AssetKind::Image, 0.0));
    s.imported(still, "");
    assert_eq!(s.toasts[4], "Imported holiday.mp4");
    assert!(lane_for(&s.project, id));
    s.add_clip_from_media(id);
    assert_eq!(s.project.video_tracks[0].clips[1].timeline_start, 4 * SECOND_US);
    s.remove_asset(id);
    assert_eq!(s.toasts[5], "Remove clips first");
    s.remove_asset(still);
    assert_eq!(s.project.assets.len(), 1);
    s.relink(id, "/new/film.mkv", Some("film.mkv"));
    let a = s.project.assets.get(id).unwrap();
    assert_eq!((a.name.as_str(), a.path.as_str()), ("film.mkv", "/new/film.mkv"));
    assert_eq!(s.toasts[6], "Asset relinked");
}

#[test]
fn playback_follows_the_sound() {
    let mut s = app();
    s.tick(f64s(5.0));
    assert_eq!(s.playhead_us, 0);
    s.playing = true;
    s.tick(f64s(1_500_000.7));
    assert_eq!(s.playhead_us, 1_500_000);
    s.tick(f64s(3.0));
    assert_eq!(s.playhead_us, 1_500_000);
    s.project.loop_start = Some(SECOND_US);
    s.project.loop_end = Some(2 * SECOND_US);
    s.tick(f64s(2_100_000.0));
    assert_eq!((s.playhead_us, s.seek_audio, s.playing), (SECOND_US, true, true));
    s.project.loop_start = None;
    s.tick(f64s(4_000_001.0));
    assert_eq!((s.playhead_us, s.playing), (0, false));
}

#[test]
fn frames_are_asked_for_once() {
    let mut s = app();
    let id = s.project.assets.insert(asset(AssetKind::Video, 30.0));
    s.project.video_tracks[0].clips[0].asset = id;
    let r = s.request_frame().unwrap();
    assert_eq!((r.asset, r.path.as_str(), r.w, r.h, r.pts_us), (1, "/m/holiday.mp4", 1280, 720, 0));
    assert!(s.request_frame().is_none());
    s.playhead_us = 9;
    assert_eq!(s.request_frame().unwrap().pts_us, 9);
    s.playhead_us = 5 * SECOND_US;
    assert!(s.request_frame().is_none());
}

#[test]
fn automatic_saves() {
    let mut s = app();
    assert!(!s.autosave_due(60));
    s.dirty = true;
    assert!(s.autosave_due(10) && !s.autosave_due(9));
    s.settings.autosave = false;
    assert!(!s.autosave_due(60));
    let t = RsEditApp::new(None, Some(s.project));
    assert_eq!(t.toasts, vec!["Recovered autosaved project"]);
}

#[test]
fn settings_change_the_theme() {
    let mut s = app();
    let mut n = s.settings;
    n.show_peaks = false;
    assert!(!s.change_settings(n));
    n.dark_mode = false;
    assert!(s.change_settings(n));
    assert_eq!(s.toasts, vec!["Light mode enabled"]);
    n.accent = [1, 2, 3];
    assert!(s.change_settings(n));
    s.selected = V;
    s.project.ripple = true;
    s.inspector_delete(Lane::Video, 0, 0);
    assert!(s.project.video_tracks[0].clips.is_empty());
}
