use rsedit::edit::Lane;
use rsedit::float::Float32;
use rsedit::fonts::{load_font, Face};
use rsedit::media::{
    c_name, column_step, listed, peak_index, selection_fill, text_label, toast_alive, wave_column,
    MediaTab,
};
use rsedit::project::Project;
use rsedit::timeline::{AssetId, AssetKind, AudioClip, TextClip, VideoClip, SECOND_US};
use rsedit::view::{
    above_lanes, clip_boxes, fit_preview, handle_at, hit, lane_at, lane_rows, shows_speed,
    source_under, tick_us, zoom_fit, zoom_in, zoom_out, Frame, Handle, TimelineView,
};

fn f(x: f32) -> Float32 {
    Float32 { bits: x.to_bits() }
}

fn g(x: Float32) -> f32 {
    f32::from_bits(x.bits)
}

fn view() -> TimelineView {
    TimelineView {
        left: f(170.0),
        width: f(800.0),
        zoom: f(90.0),
        scroll_us: 2_500_000,
        duration_us: 60 * SECOND_US,
    }
}

#[test]
fn times_and_pixels() {
    let v = view();
    let total = 60_000_000f32 / 1_000_000.0 * 90.0;
    let scroll = (2_500_000f32 / 1_000_000.0 * 90.0).clamp(0.0, (total - 800.0).max(0.0));
    assert_eq!(g(v.total_px()), total);
    assert_eq!(g(v.max_scroll()), total - 800.0);
    assert_eq!(g(v.scroll_px()), scroll);
    assert_eq!(g(v.x_for(7_000_000)), 170.0 + 7_000_000f32 / 1_000_000.0 * 90.0 - scroll);
    let x = 333.0f32;
    let t = ((x - 170.0 + scroll) / 90.0 * 1_000_000.0) as i64;
    assert_eq!(v.t_for(f(x)), t);
    // The time at the place of a time is that time.
    for k in [0i64, 3, 7, 59] {
        assert_eq!(v.t_for(v.x_for(k * SECOND_US)), k * SECOND_US);
    }
}

#[test]
fn the_wheel_zooms_or_scrolls() {
    let v = view();
    let (z, s) = v.wheel(f(400.0), f(0.0), true);
    assert_eq!((g(z), s), (90.0, 2_500_000));
    let (z, s) = v.wheel(f(400.0), f(2.0), false);
    assert_eq!((g(z), s), (90.0, (2_500_000f32 + 2.0 * 60.0 * 90.0 * 0.05).max(0.0) as i64));
    let (z, s) = v.wheel(f(400.0), f(1.0), true);
    let nz = (90.0f32 * (1.0 + 0.06)).clamp(4.0, 3000.0);
    let at = v.t_for(f(400.0));
    let to = at as f32 / 1_000_000.0 * nz - (400.0 - 170.0);
    let most = (60_000_000f32 / 1_000_000.0 * nz - 800.0).max(0.0);
    assert_eq!((g(z), s), (nz, (to.max(0.0).min(most) / nz * 1_000_000.0) as i64));
    // The time under the pointer stays there.
    let after = TimelineView { zoom: z, scroll_us: s, ..v };
    assert!((g(after.x_for(at)) - 400.0).abs() < 0.01);
    let near = TimelineView { zoom: f(50.0), scroll_us: 0, ..v };
    let twice = TimelineView { zoom: f(100.0), scroll_us: 2 * SECOND_US, ..v };
    assert_eq!(g(near.x_for(4 * SECOND_US)), g(twice.x_for(4 * SECOND_US)));
    assert_eq!(g(v.wheel(f(400.0), f(-1000.0), true).0), 4.0);
}

#[test]
fn jumps_and_zoom_steps() {
    let v = view();
    let at = ((400.0f32 / 800.0).clamp(0.0, 1.0) * 60_000_000f32) as i64;
    let half = (800.0f32 / 90.0) as i64 / 2;
    assert_eq!(v.jump(f(400.0), f(800.0)), ((at - half) as f32).min(g(v.max_scroll())) as i64);
    assert_eq!(v.jump(f(-5.0), f(800.0)), 0);
    assert_eq!(g(zoom_out(f(90.0))), 90.0f32 * 0.85);
    assert_eq!(g(zoom_out(f(4.1))), 4.0);
    assert_eq!(g(zoom_in(f(90.0))), 90.0f32 * 1.18);
    assert_eq!(g(zoom_in(f(2999.0))), 3000.0);
    assert_eq!(g(zoom_fit(f(990.0), 10_000_000)), 80.0);
    assert_eq!(g(zoom_fit(f(100.0), 1_000_000_000)), 4.0);
}

#[test]
fn marks_of_the_ruler() {
    assert_eq!(tick_us(f(280.0)), 250_000);
    assert_eq!(tick_us(f(279.0)), 500_000);
    assert_eq!(tick_us(f(90.0)), 1_000_000);
    assert_eq!(tick_us(f(35.0)), 2_000_000);
    assert_eq!(tick_us(f(14.0)), 5_000_000);
    assert_eq!(tick_us(f(7.0)), 10_000_000);
    assert_eq!(tick_us(f(4.0)), 30_000_000);
    assert_eq!(tick_us(f(2.0)), 60_000_000);
    assert_eq!(tick_us(f(1.0)), 10_000_000);
}

#[test]
fn lanes_under_the_pointer() {
    let mut p = Project::new();
    p.audio_tracks.clear();
    let fr = Frame { top: f(10.0), right: f(970.0) };
    let rows = lane_rows(&view(), &fr, &p).unwrap();
    let kinds: Vec<(Lane, usize)> = rows.iter().map(|r| (r.lane, r.track)).collect();
    let mut want: Vec<(Lane, usize)> = (0..p.video_tracks.len()).map(|i| (Lane::Video, i)).collect();
    want.extend((0..p.text_tracks.len()).map(|i| (Lane::Text, i)));
    assert_eq!(kinds, want);
    let a = &rows[0].area;
    assert_eq!([g(a.min_x), g(a.max_x), g(a.min_y), g(a.max_y)], [170.0, 970.0, 46.0, 81.0]);
    assert_eq!(lane_at(&rows, f(300.0), f(60.0)), Some((Lane::Video, 0)));
    // In the gap below a row, left of the rows, and in the free row of the lane without tracks.
    assert_eq!(lane_at(&rows, f(300.0), f(83.0)), None);
    assert_eq!(lane_at(&rows, f(100.0), f(60.0)), None);
    let free = 46.0 + 38.0 * p.video_tracks.len() as f32;
    assert_eq!(lane_at(&rows, f(300.0), f(free + 10.0)), None);
    assert_eq!(lane_at(&rows, f(300.0), f(free + 48.0)), Some((Lane::Text, 0)));
    assert!(above_lanes(&fr, f(45.0)) && !above_lanes(&fr, f(46.0)));
}

#[test]
fn boxes_and_handles() {
    let mut p = Project::new();
    p.video_tracks[0].clips = vec![
        VideoClip { source_out: SECOND_US, ..VideoClip::default() },
        VideoClip { source_out: SECOND_US, timeline_start: 500_000, ..VideoClip::default() },
        VideoClip { source_out: SECOND_US, timeline_start: 100 * SECOND_US, ..VideoClip::default() },
    ];
    p.audio_tracks[0].clips = vec![AudioClip { source_out: 2 * SECOND_US, ..AudioClip::default() }];
    p.text_tracks[0].clips = vec![TextClip { timeline_end: SECOND_US, ..TextClip::default() }];
    let v = TimelineView { scroll_us: 0, ..view() };
    let b = clip_boxes(&v, &Frame { top: f(10.0), right: f(970.0) }, &p).unwrap();
    let kinds: Vec<(Lane, usize)> = b.iter().map(|k| (k.lane, k.clip)).collect();
    assert_eq!(kinds, vec![(Lane::Video, 0), (Lane::Video, 1), (Lane::Audio, 0), (Lane::Text, 0)]);
    let a = &b[0].area;
    assert_eq!([g(a.min_x), g(a.max_x), g(a.min_y), g(a.max_y)], [171.0, 259.0, 49.0, 77.0]);
    assert_eq!(g(b[2].area.min_y), 46.0 + 38.0 + 3.0);
    // The later of two clips that overlap is the one on top.
    assert_eq!(hit(&b, f(230.0), f(60.0)), Some(1));
    assert_eq!(hit(&b, f(180.0), f(60.0)), Some(0));
    assert_eq!(hit(&b, f(180.0), f(5.0)), None);
    assert_eq!(handle_at(a, f(177.0)), Handle::Left);
    assert_eq!(handle_at(a, f(178.0)), Handle::Body);
    assert_eq!(handle_at(a, f(253.0)), Handle::Right);
}

#[test]
fn previews_fit() {
    let (w, h) = fit_preview(f(800.0), f(300.0), 1280, 720, f(1.0));
    let aspect = 1280.0f32 / 720.0;
    assert_eq!((g(w), g(h)), (300.0 * aspect, 300.0));
    let (w, h) = fit_preview(f(300.0), f(800.0), 1280, 720, f(2.0));
    assert_eq!((g(w), g(h)), (600.0, 300.0 / aspect * 2.0));
}

#[test]
fn faces_in_order() {
    let face = |names: &[(&str, bool)]| Face {
        families: names.iter().map(|(n, e)| (n.to_string(), *e)).collect(),
    };
    let faces = vec![
        face(&[("Fira MONO", true)]),
        face(&[("Noto Serif", true)]),
        face(&[("Nom", false), ("DejaVu Book", true)]),
        face(&[("Noto SANS Mono", false)]),
        face(&[]),
    ];
    assert_eq!(load_font(&faces, "Noto Serif"), vec![1, 2, 3, 0, 3]);
    assert_eq!(load_font(&faces, "Nom"), vec![2, 2, 3, 0, 3]);
    assert_eq!(load_font(&faces, "none"), vec![2, 3, 0, 3]);
}

#[test]
fn media_lists() {
    assert!(listed(MediaTab::All, "  HOL ", AssetKind::Audio, "Holiday"));
    assert!(!listed(MediaTab::Video, "", AssetKind::Audio, "Holiday"));
    assert!(listed(MediaTab::Video, "", AssetKind::Image, "x"));
    assert!(!listed(MediaTab::Audio, "", AssetKind::Video, "x"));
    assert!(!listed(MediaTab::All, "zz", AssetKind::Audio, "Holiday"));
    assert_eq!(c_name(&Project::new(), AssetId(4)), "?");
    assert_eq!(text_label(" a\nb \n"), "a b");
    assert!(toast_alive(2999) && !toast_alive(3000));
    assert_eq!(selection_fill(true, &[240, 120, 64]), [118, 64, 38]);
    assert_eq!(selection_fill(false, &[240, 120, 64]), [247, 187, 159]);
}

#[test]
fn waveforms() {
    let peaks = vec![(f(-0.5), f(0.1)), (f(-0.1), f(0.9)), (f(0.2), f(0.3))];
    assert_eq!(column_step(3, f(2.0)), 2);
    assert_eq!(column_step(3, f(500.0)), 1);
    let (a, b) = wave_column(&peaks, 0, 2);
    assert_eq!((g(a), g(b)), (-0.5, 0.9));
    let (a, b) = wave_column(&peaks, 2, 9);
    assert_eq!((g(a), g(b)), (0.0, 0.3));
    assert_eq!(peak_index(500, 1000, 10), 5);
    assert_eq!(peak_index(5000, 1000, 10), 9);
    assert_eq!(peak_index(-5, 0, 10), 0);
}

#[test]
fn the_ruler_and_the_overview() {
    let v = TimelineView { scroll_us: 0, ..view() };
    // One mark each second; the last pixel is 800 / 90 seconds in.
    let marks = v.ticks(f(0.0), f(970.0));
    assert_eq!(marks, (0..9).map(|i| i * SECOND_US).collect::<Vec<i64>>());
    let (x, w) = v.overview_bar(6 * SECOND_US, 3 * SECOND_US, f(20.0), f(600.0));
    assert_eq!((g(x), g(w)), (20.0 + 0.1 * 600.0, 3_000_000f32 / 60_000_000f32 * 600.0));
    assert_eq!(g(v.overview_bar(0, 1, f(20.0), f(600.0)).1), 1.5);
    let (x, w) = v.overview_window(f(20.0), f(600.0));
    assert_eq!((g(x), g(w)), (20.0, 800.0f32 / 5400.0 * 600.0));
    let short = TimelineView { duration_us: SECOND_US, ..v };
    assert_eq!(g(short.overview_window(f(0.0), f(600.0)).1), 600.0);
}

#[test]
fn speeds_and_sources_under_the_pointer() {
    assert!(!shows_speed(f(1.0)) && !shows_speed(f(1.0005)) && shows_speed(f(1.5)));
    let c = AudioClip { source_in: 100, source_out: 1100, ..AudioClip::default() };
    assert_eq!(source_under(&c, f(35.0), f(10.0), f(100.0)), Some(350));
    let far = AudioClip { source_in: i64::MAX, ..c };
    assert_eq!(source_under(&far, f(10.0), f(10.0), f(100.0)), Some(i64::MAX));
}
