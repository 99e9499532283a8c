use rsedit::edit::{
    clip_time_start, color_of_track, frame_us, nudge_us, sort_markers, trim_us, ClipboardItem,
    HeaderButton, Lane,
};
use rsedit::float::{Float32, Float64};
use rsedit::project::{Clip, Project};
use rsedit::text::Subtitle;
use rsedit::timeline::{
    Asset, AssetId, AssetKind, AudioClip, Duplicate, Marker, TextClip, VideoClip, SECOND_US,
};

fn f64s(x: f64) -> Float64 {
    Float64 { bits: x.to_bits() }
}

fn asset(kind: AssetKind, us: i64) -> Asset {
    Asset {
        id: AssetId(0),
        kind,
        name: "clip".into(),
        path: "/media/clip".into(),
        duration_us: us,
        width: 4,
        height: 2,
        frame_rate: f64s(25.0),
        sample_rate: 48000,
        channels: 1,
        peaks: vec![],
        rgba: None,
        thumb: None,
        pcm: None,
        filmstrip: None,
    }
}

fn video(start: i64, from: i64, to: i64) -> VideoClip {
    VideoClip { asset: AssetId(1), source_in: from, source_out: to, timeline_start: start, ..VideoClip::default() }
}

fn audio(start: i64, from: i64, to: i64) -> AudioClip {
    AudioClip { asset: AssetId(1), source_in: from, source_out: to, timeline_start: start, ..AudioClip::default() }
}

fn text(start: i64, end: i64) -> TextClip {
    TextClip { timeline_start: start, timeline_end: end, ..TextClip::default() }
}

fn starts(p: &Project) -> Vec<i64> {
    p.video_tracks[0].clips.iter().map(|c| c.timeline_start).collect()
}

#[test]
fn removal_leaves_a_gap_or_closes_it() {
    let mut p = Project::new();
    p.video_tracks[0].clips = vec![video(0, 0, 10), video(10, 0, 20), video(40, 0, 5), video(5, 0, 1)];
    let mut q = p.duplicate();
    assert!(p.can_delete_clip(Lane::Video, 0, 1));
    p.delete_clip(Lane::Video, 0, 1);
    assert_eq!(starts(&p), vec![0, 40, 5]);
    q.ripple = true;
    q.delete_clip(Lane::Video, 0, 1);
    assert_eq!(starts(&q), vec![0, 20, 5]);
}

#[test]
fn ripple_stops_at_zero_and_keeps_text_lengths() {
    let mut p = Project::new();
    p.ripple = true;
    p.text_tracks[0].clips = vec![text(2, 12), text(4, 9), text(30, 31)];
    p.delete_clip(Lane::Text, 0, 0);
    let spans: Vec<(i64, i64)> =
        p.text_tracks[0].clips.iter().map(|c| (c.timeline_start, c.timeline_end)).collect();
    assert_eq!(spans, vec![(0, 5), (20, 21)]);
    p.audio_tracks[0].clips = vec![audio(0, 0, 10), audio(10, 0, 10)];
    p.delete_clip(Lane::Audio, 0, 0);
    assert_eq!(p.audio_tracks[0].clips[0].timeline_start, 0);
}

#[test]
fn clips_without_a_computable_length_cannot_be_removed() {
    let mut p = Project::new();
    p.text_tracks[0].clips = vec![text(i64::MIN, 5)];
    assert!(!p.can_delete_clip(Lane::Text, 0, 0));
    assert!(!p.text_tracks[0].clips[0].length_fits());
}

#[test]
fn tracks_are_numbered_and_colored() {
    let mut p = Project::new();
    p.add_track(Lane::Video);
    p.add_track(Lane::Audio);
    p.add_track(Lane::Text);
    assert_eq!(p.video_tracks[1].name, "V2");
    assert_eq!(p.video_tracks[1].color, [120, 200, 120]);
    assert_eq!(p.audio_tracks[1].name, "A2");
    assert_eq!(p.text_tracks.len(), 1);
    for _ in 0..9 {
        p.add_track(Lane::Video);
    }
    assert_eq!(p.video_tracks[10].name, "V11");
    assert_eq!(color_of_track(0), color_of_track(8));
    assert_eq!(color_of_track(7), [150, 120, 220]);
    p.add_text_track();
    assert_eq!(p.text_tracks[1].name, "Text 2");
}

#[test]
fn splits_make_two_clips() {
    let mut p = Project::new();
    p.video_tracks[0].clips = vec![video(100, 1000, 2000), video(5000, 0, 1)];
    assert!(p.can_split_clip(Lane::Video, 0, 0));
    p.split_clip(Lane::Video, 0, 0, 100);
    p.split_clip(Lane::Video, 0, 0, 1100);
    assert_eq!(p.video_tracks[0].clips.len(), 2);
    p.split_clip(Lane::Video, 0, 0, 400);
    let c = &p.video_tracks[0].clips;
    assert_eq!((c[0].timeline_start, c[0].source_in, c[0].source_out), (100, 1000, 1300));
    assert_eq!((c[1].timeline_start, c[1].source_in, c[1].source_out), (400, 1300, 2000));
    assert_eq!(c[2].timeline_start, 5000);
    assert_eq!(c[0].on_timeline_us() + c[1].on_timeline_us(), 1000);
    p.audio_tracks[0].clips = vec![audio(0, 0, 10)];
    p.split_clip(Lane::Audio, 0, 0, 3);
    assert_eq!(p.audio_tracks[0].clips[1].source_in, 3);
    p.split_clip(Lane::Audio, 0, 9, 3);
    assert_eq!(p.audio_tracks[0].clips.len(), 2);
}

#[test]
fn frames_in_microseconds() {
    assert_eq!(frame_us(f64s(30.0)), 33_333);
    assert_eq!(frame_us(f64s(23.976)), (1_000_000.0 / 23.976) as i64);
    assert_eq!(frame_us(f64s(0.0)), i64::MAX);
    assert_eq!(nudge_us(f64s(5_000_000.0)), 1);
    assert_eq!(nudge_us(f64s(25.0)), 40_000);
    assert_eq!(trim_us(f64s(0.25)), 1_000_000);
    assert_eq!(trim_us(f64s(50.0)), 20_000);
}

#[test]
fn nudges_stop_at_zero() {
    let mut p = Project::new();
    p.video_tracks[0].clips = vec![video(100, 0, 10)];
    p.text_tracks[0].clips = vec![text(50, 80)];
    p.nudge_clip(Lane::Video, 0, 0, -30);
    assert_eq!(starts(&p), vec![70]);
    p.nudge_clip(Lane::Video, 0, 0, -300);
    assert_eq!(starts(&p), vec![0]);
    p.nudge_clip(Lane::Text, 0, 0, -60);
    assert_eq!(p.text_tracks[0].clips[0].timeline_end, 30);
    p.video_tracks[0].clips[0].timeline_start = i64::MAX;
    assert!(!p.can_nudge_clip(Lane::Video, 0, 0, 1));
}

#[test]
fn pasted_clips_start_where_they_are_pasted() {
    let mut p = Project::new();
    p.video_tracks[0].clips = vec![video(100, 3, 10)];
    p.text_tracks[0].clips = vec![text(50, 80), text(7, 7)];
    p.audio_tracks[0].clips = vec![audio(1, 0, 2)];
    let v = p.copy_clip(Lane::Video, 0, 0);
    let t = p.copy_clip(Lane::Text, 0, 0);
    let flat = p.copy_clip(Lane::Text, 0, 1);
    let a = p.copy_clip(Lane::Audio, 0, 0);
    for item in [&v, &t, &flat, &a] {
        assert!(p.can_paste_at(item, 1000));
        p.paste(item, 1000);
    }
    assert_eq!(starts(&p), vec![100, 1000]);
    assert_eq!(p.video_tracks[0].clips[1].source_in, 3);
    assert_eq!(p.text_tracks[0].clips[2].timeline_end, 1030);
    assert_eq!(p.text_tracks[0].clips[3].timeline_end, 1000 + 3 * SECOND_US);
    assert_eq!(p.audio_tracks[0].clips[1].timeline_start, 1000);
    assert!(!p.can_paste_at(&t, i64::MAX - 1));
    let empty = Project::default();
    assert!(!empty.can_paste_at(&ClipboardItem::Video(video(0, 0, 1)), 0));
}

#[test]
fn assets_become_clips() {
    let mut p = Project::new();
    let v = p.assets.insert(asset(AssetKind::Video, 5_000_000));
    let i = p.assets.insert(asset(AssetKind::Image, 1_000_000));
    let s = p.assets.insert(asset(AssetKind::Audio, 10));
    p.add_clip_at(v, Lane::Video, 9, 77);
    p.add_clip_at(i, Lane::Video, 0, 78);
    p.add_clip_at(s, Lane::Audio, 0, 79);
    p.add_clip_at(AssetId(99), Lane::Video, 0, 1);
    p.add_clip_at(v, Lane::Text, 0, 1);
    let c = &p.video_tracks[0].clips;
    assert_eq!(c.len(), 2);
    assert_eq!((c[0].asset, c[0].source_out, c[0].timeline_start), (v, 5_000_000, 77));
    assert_eq!(c[1].source_out, 3 * SECOND_US);
    let a = &p.audio_tracks[0].clips[0];
    assert_eq!((a.source_out, a.fade_in_us, a.fade_out_us), (SECOND_US, 200_000, 200_000));
    assert!(p.uses_asset(v) && p.uses_asset(s));
    assert!(!p.remove_asset(v));
    assert_eq!(p.assets.len(), 3);
    p.video_tracks[0].clips.clear();
    assert!(p.remove_asset(v));
    assert_eq!(p.assets.len(), 2);
}

#[test]
fn texts_and_subtitles() {
    let mut p = Project::new();
    p.add_title(5);
    assert_eq!(p.text_tracks[0].clips[0].text, "New title");
    assert_eq!(p.text_tracks[0].clips[0].timeline_end, 5 + 3 * SECOND_US);
    p.add_text_clip_at(4, -9);
    assert_eq!(p.text_tracks[0].clips[1].text, "New text");
    assert_eq!(p.text_tracks[0].clips[1].timeline_start, 0);
    let subs = vec![Subtitle { start_us: 1, end_us: 2, text: "Hi".into() }];
    p.add_subtitles(&subs);
    let t = &p.text_tracks[1];
    assert_eq!(t.name, "Subtitles");
    let c = &t.clips[0];
    assert_eq!((c.timeline_start, c.timeline_end, c.text.as_str()), (1, 2, "Hi"));
    assert_eq!(c.style.font_size.bits, 21.0f32.to_bits());
    assert_eq!(c.style.outline_width.bits, 2.0f32.to_bits());
    assert_eq!(c.style.outline_color, [0, 0, 0, 200]);
    assert_eq!(c.transform.y.bits, 0.85f32.to_bits());
}

#[test]
fn markers_are_sorted_and_keep_their_order() {
    let m = |t: i64, n: &str| Marker { time_us: t, name: n.to_string(), color: [1, 2, 3] };
    let mut ms = vec![m(5, "a"), m(1, "b"), m(5, "c"), m(3, "d"), m(1, "e")];
    sort_markers(&mut ms);
    let names: Vec<&str> = ms.iter().map(|m| m.name.as_str()).collect();
    assert_eq!(names, vec!["b", "e", "d", "a", "c"]);
    let mut p = Project::new();
    p.add_marker(50);
    p.add_marker(20);
    p.add_numbered_marker(-4);
    let times: Vec<i64> = p.markers.iter().map(|m| m.time_us).collect();
    assert_eq!(times, vec![20, 50, 0]);
    assert_eq!(p.markers[2].name, "Marker 3");
    assert_eq!(p.markers[0].color, [240, 180, 60]);
}

#[test]
fn loop_regions() {
    let mut p = Project::new();
    p.toggle_loop(5);
    assert!(!p.is_looping());
    p.video_tracks[0].clips = vec![video(0, 0, 10 * SECOND_US)];
    p.toggle_loop(2 * SECOND_US);
    assert_eq!((p.loop_start, p.loop_end), (Some(2 * SECOND_US), Some(6 * SECOND_US)));
    p.toggle_loop(0);
    assert_eq!((p.loop_start, p.loop_end), (None, None));
    p.toggle_loop(20 * SECOND_US);
    assert_eq!((p.loop_start, p.loop_end), (Some(9 * SECOND_US), Some(10 * SECOND_US)));
    p.toggle_loop_around(0);
    assert!(!p.is_looping());
    p.toggle_loop_around(500_000);
    assert_eq!((p.loop_start, p.loop_end), (Some(0), Some(1_500_000)));
}

#[test]
fn header_switches() {
    let mut p = Project::new();
    p.toggle_header(Lane::Video, 0, HeaderButton::Mute);
    p.toggle_header(Lane::Video, 0, HeaderButton::Solo);
    p.toggle_header(Lane::Audio, 0, HeaderButton::Solo);
    p.toggle_header(Lane::Text, 0, HeaderButton::Mute);
    p.toggle_header(Lane::Text, 0, HeaderButton::Lock);
    assert!(p.video_tracks[0].muted && !p.video_tracks[0].solo);
    assert!(p.audio_tracks[0].solo);
    assert!(!p.text_tracks[0].muted && p.text_tracks[0].locked);
    p.toggle_header(Lane::Video, 0, HeaderButton::Mute);
    assert!(!p.video_tracks[0].muted);
}

#[test]
fn edges_are_trimmed() {
    let mut p = Project::new();
    p.fps = f64s(10.0);
    let id = p.assets.insert(asset(AssetKind::Video, 8_000_000));
    let mut c = video(1_000_000, 0, 5_000_000);
    c.asset = id;
    p.video_tracks[0].clips = vec![c];
    assert!(p.trim_left(Lane::Video, 0, 0, 2_500_000));
    assert_eq!(p.video_tracks[0].clips[0].source_in, 1_500_000);
    // The left edge stays a frame before the right one.
    assert!(p.trim_left(Lane::Video, 0, 0, 60_000_000));
    assert_eq!(p.video_tracks[0].clips[0].source_in, 4_900_000);
    p.video_tracks[0].clips[0].source_in = 0;
    assert!(p.trim_right(Lane::Video, 0, 0, 3_000_000));
    assert_eq!(p.video_tracks[0].clips[0].source_out, 2_000_000);
    assert!(p.trim_right(Lane::Video, 0, 0, 0));
    assert_eq!(p.video_tracks[0].clips[0].source_out, 100_000);
    assert!(p.trim_right(Lane::Video, 3, 0, 0));
    // No room: the asset is shorter than a frame.
    p.assets = rsedit::timeline::AssetStore::new();
    let short = p.assets.insert(asset(AssetKind::Video, 50_000));
    p.video_tracks[0].clips[0].asset = short;
    assert!(!p.trim_right(Lane::Video, 0, 0, 500_000));
    p.video_tracks[0].clips[0].source_out = 5;
    assert!(!p.trim_left(Lane::Video, 0, 0, 0));
}

#[test]
fn text_edges_are_trimmed() {
    let mut p = Project::new();
    p.fps = f64s(10.0);
    p.text_tracks[0].clips = vec![text(1_000_000, 3_000_000)];
    assert!(p.trim_left(Lane::Text, 0, 0, 2_000_000));
    assert_eq!(p.text_tracks[0].clips[0].timeline_start, 2_000_000);
    assert!(p.trim_left(Lane::Text, 0, 0, 0));
    assert_eq!(p.text_tracks[0].clips[0].timeline_start, 2_100_000);
    assert!(p.trim_left(Lane::Text, 0, 0, 9_000_000));
    assert_eq!(p.text_tracks[0].clips[0].timeline_start, 2_900_000);
    assert!(p.trim_right(Lane::Text, 0, 0, 0));
    assert_eq!(p.text_tracks[0].clips[0].timeline_end, 3_000_000);
    assert!(p.trim_right(Lane::Text, 0, 0, 4_000_000));
    assert_eq!(p.text_tracks[0].clips[0].timeline_end, 4_000_000);
}

#[test]
fn moves_keep_lengths() {
    let mut p = Project::new();
    p.text_tracks[0].clips = vec![text(10, 30)];
    p.audio_tracks[0].clips = vec![audio(0, 0, 4)];
    assert!(p.can_move_clip(Lane::Text, 0, 0, 500));
    p.move_clip_to(Lane::Text, 0, 0, 500);
    assert_eq!(p.text_tracks[0].clips[0].timeline_end, 520);
    p.move_clip_to(Lane::Audio, 0, 0, 9);
    p.move_clip_to(Lane::Audio, 5, 5, 9);
    assert_eq!(clip_time_start(&p, Lane::Audio, 0, 0), 9);
    assert_eq!(clip_time_start(&p, Lane::Audio, 5, 0), 0);
    assert!(!p.can_move_clip(Lane::Text, 0, 0, i64::MAX));
    p.take_clip(Lane::Text, 0, 0);
    assert!(!p.has_clip(Lane::Text, 0, 0) && p.has_track(Lane::Text, 0));
}

#[test]
fn clips_snap_to_what_is_near() {
    let mut p = Project::new();
    p.video_tracks[0].clips = vec![video(3_000_000, 0, 1_000_000)];
    p.add_marker(8_000_000);
    let zoom = Float32 { bits: 100.0f32.to_bits() };
    // Nine pixels at a hundred a second are 90 ms.
    assert_eq!(rsedit::snap::snap_window_us(zoom), (100.0f32.recip() * 1_000_000.0 * 9.0) as i64);
    assert_eq!(p.snap(0, zoom, 2_950_000), 3_000_000);
    assert_eq!(p.snap(0, zoom, 4_050_000), 4_000_000);
    assert_eq!(p.snap(0, zoom, 7_920_000), 8_000_000);
    assert_eq!(p.snap(0, zoom, 60_000), 0);
    assert_eq!(p.snap(0, zoom, 6_000_000), 6_000_000);
    // The playhead comes first among equally near times.
    assert_eq!(p.snap(2_980_000, zoom, 2_990_000), 2_980_000);
}
