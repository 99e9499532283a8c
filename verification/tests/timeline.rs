use rsedit::float::{Float32, Float64};
use rsedit::project::{top_video_clip, Project};
use rsedit::timeline::{
    default_font_family, default_speed, default_text_color, Asset, AssetId, AssetKind, AssetStore,
    AudioClip, BlendMode, ColorGrade, Duplicate, TextAlign, TextClip, TextStyle, Track, Transform,
    TransformKeyframe, VideoClip, SECOND_US,
};

fn f32s(x: f32) -> Float32 {
    Float32 { bits: x.to_bits() }
}

fn asset(kind: AssetKind, seconds: i64) -> Asset {
    Asset {
        id: AssetId(0),
        kind,
        name: "a.mp4".into(),
        path: "/tmp/a.mp4".into(),
        duration_us: seconds * SECOND_US,
        width: 1920,
        height: 1080,
        frame_rate: Float64 { bits: 30.0f64.to_bits() },
        sample_rate: 48000,
        channels: 2,
        peaks: vec![],
        rgba: None,
        thumb: None,
        pcm: None,
        filmstrip: None,
    }
}

#[test]
fn track_and_clip_roundtrip() {
    let mut p = Project::new();
    let id = p.assets.insert(asset(AssetKind::Video, 10));
    p.video_tracks[0].clips.push(VideoClip {
        asset: id,
        source_in: 0,
        source_out: 5 * SECOND_US,
        timeline_start: 1 * SECOND_US,
        ..VideoClip::default()
    });
    let back = p.duplicate();
    assert_eq!(back.video_tracks[0].clips.len(), 1);
    assert_eq!(back.duration_us(), 6 * SECOND_US);
    assert_eq!(back.active_video_clips(2 * SECOND_US).len(), 1);
    assert!(back.active_video_clips(8 * SECOND_US).is_empty());
}

#[test]
fn assets_get_numbers() {
    let mut s = AssetStore::new();
    assert_eq!(s.len(), 0);
    assert_eq!(s.insert(asset(AssetKind::Video, 1)), AssetId(1));
    assert_eq!(s.insert(asset(AssetKind::Audio, 1)), AssetId(2));
    let mut numbered = asset(AssetKind::Image, 1);
    numbered.id = AssetId(7);
    assert_eq!(s.insert(numbered), AssetId(7));
    assert_eq!(s.next_id(), 8);
    assert_eq!(s.len(), 3);
    assert_eq!(s.get(AssetId(2)).unwrap().kind, AssetKind::Audio);
    assert!(s.get(AssetId(3)).is_none());
    s.remove(AssetId(2));
    assert!(s.get(AssetId(2)).is_none());
    assert_eq!(s.insert(asset(AssetKind::Video, 1)), AssetId(8));
    let copy = AssetStore::from_parts(s.assets.clone(), 20);
    assert_eq!(copy.next_id(), 20);
}

#[test]
fn images_hold_their_pixels() {
    let mut a = asset(AssetKind::Image, 1);
    assert!(a.image().is_none());
    a.rgba = Some(vec![1, 2, 3, 4]);
    assert_eq!(a.image().unwrap(), &[1, 2, 3, 4]);
}

#[test]
fn speed_stretches_clips() {
    let mut c = VideoClip { source_out: 3_000_001, ..VideoClip::default() };
    assert_eq!(c.on_timeline_us(), 3_000_001);
    c.speed = f32s(2.0);
    assert_eq!(c.on_timeline_us(), 1_500_001);
    assert_eq!(c.source_at(1_000_000), 2_000_000);
    c.speed = f32s(0.0);
    assert_eq!(c.on_timeline_us(), 3_000_001);
    c.speed = f32s(0.3);
    assert_eq!(c.on_timeline_us(), (3_000_001f64 / 0.3f32 as f64).round() as i64);
    c.source_in = 250;
    assert_eq!(c.source_at(77_777), 250 + (77_777f64 * 0.3f32 as f64) as i64);
    let a = AudioClip { source_out: 10, source_in: 20, ..AudioClip::default() };
    assert_eq!(a.on_timeline_us(), -10);
    assert_eq!(a.source_at(5), 25);
}

#[test]
fn envelopes_are_linear_between_points() {
    let mut c = AudioClip::default();
    assert_eq!(c.gain_linear_at(5, f32s(1.0)).bits, 1.0f32.to_bits());
    c.envelope = vec![(100, f32s(0.25))];
    assert_eq!(c.gain_linear_at(0, f32s(1.0)).bits, 0.25f32.to_bits());
    c.envelope = vec![(100, f32s(0.0)), (200, f32s(1.0)), (400, f32s(0.5))];
    assert_eq!(c.gain_linear_at(50, f32s(1.0)).bits, 0.0f32.to_bits());
    assert_eq!(c.gain_linear_at(150, f32s(1.0)).bits, 0.5f32.to_bits());
    assert_eq!(c.gain_linear_at(300, f32s(1.0)).bits, 0.75f32.to_bits());
    assert_eq!(c.gain_linear_at(401, f32s(1.0)).bits, 1.0f32.to_bits());
    // The gain of the clip counts too.
    c.gain_db = f32s(-6.0);
    let power = 10f32.powf(-6.0 / 20.0);
    assert_eq!(c.gain_linear_at(150, f32s(power)).bits, (power * 0.5).to_bits());
    c.gain_db = f32s(-90.0);
    assert_eq!(c.gain_linear_at(150, f32s(power)).bits, 0.0f32.to_bits());
}

#[test]
fn locked_and_muted_tracks_are_not_active() {
    let mut p = Project::new();
    p.video_tracks[0].clips.push(VideoClip { source_out: 10, ..VideoClip::default() });
    p.audio_tracks[0].clips.push(AudioClip { source_out: 10, ..AudioClip::default() });
    p.text_tracks[0].clips.push(TextClip { timeline_end: 10, ..TextClip::default() });
    assert_eq!(p.active_video_clips(9).len(), 1);
    assert_eq!(p.active_video_clips(10).len(), 0);
    assert_eq!(p.active_audio_clips(0).len(), 1);
    assert_eq!(p.active_text_clips(5).len(), 1);
    p.video_tracks[0].locked = true;
    p.audio_tracks[0].muted = true;
    p.text_tracks[0].locked = true;
    assert_eq!(p.active_video_clips(9).len(), 0);
    assert_eq!(p.active_audio_clips(0).len(), 0);
    assert_eq!(p.active_text_clips(5).len(), 0);
    p.audio_tracks[0].muted = false;
    p.audio_tracks[0].locked = true;
    assert_eq!(p.active_audio_clips(0).len(), 1);
}

#[test]
fn the_top_clip_is_on_the_last_track() {
    let mut p = Project::new();
    p.add_track(rsedit::edit::Lane::Video);
    p.video_tracks[0].clips.push(VideoClip { source_out: 100, ..VideoClip::default() });
    let id = p.assets.insert(asset(AssetKind::Video, 1));
    p.video_tracks[1].clips.push(VideoClip { asset: id, source_in: 1, source_out: 51, timeline_start: 20, ..VideoClip::default() });
    assert_eq!(top_video_clip(&p, 10).unwrap().0, 0);
    let (track, clip) = top_video_clip(&p, 30).unwrap();
    assert_eq!((track, clip.source_in), (1, 1));
    assert_eq!(top_video_clip(&p, 70).unwrap().0, 0);
    assert!(top_video_clip(&p, 100).is_none());
    assert_eq!(p.clip_source_offset(clip, 30), Some(11));
    assert_eq!(p.clip_source_offset(clip, 70), None);
    // A project without the asset.
    assert_eq!(Project::new().clip_source_offset(clip, 30), None);
}

#[test]
fn fresh_projects() {
    let p = Project::new();
    assert_eq!((p.width, p.height, p.sample_rate), (1920, 1080, 48_000));
    assert_eq!(p.fps.bits, 30.0f64.to_bits());
    assert_eq!(p.video_tracks[0].name, "V1");
    assert_eq!(p.audio_tracks[0].name, "A1");
    assert_eq!(p.text_tracks[0].name, "T1");
    assert_eq!(p.duration_us(), 0);
    assert!(p.times_fit());
    let blank = Project::default();
    assert_eq!(blank.video_tracks.len(), 0);
    assert_eq!(blank.fps.bits, 0);
}

#[test]
fn times_that_do_not_fit_are_noticed() {
    let mut p = Project::new();
    p.video_tracks[0].clips.push(VideoClip { source_out: 10, timeline_start: i64::MAX - 5, ..VideoClip::default() });
    assert!(!p.times_fit());
    p.video_tracks[0].clips[0].timeline_start = i64::MAX - 10;
    assert!(p.times_fit());
    assert_eq!(p.duration_us(), i64::MAX);
}

#[test]
fn defaults() {
    let t = Transform::default();
    assert_eq!(
        (t.x.bits, t.y.bits, t.scale.bits, t.rotate.bits),
        (0.5f32.to_bits(), 0.5f32.to_bits(), 1.0f32.to_bits(), 0)
    );
    let c = VideoClip::default();
    assert_eq!(c.crop[2].bits, 1.0f32.to_bits());
    assert_eq!(c.blend, BlendMode::default());
    assert_eq!(ColorGrade::default().contrast.bits, 1.0f32.to_bits());
    assert_eq!(TransformKeyframe::default().t_us, 0);
    let s = TextStyle::default();
    assert_eq!(s.font_family, default_font_family());
    assert_eq!(s.color, default_text_color());
    assert_eq!(s.align, TextAlign::Center);
    assert_eq!(s.font_size.bits, 24.0f32.to_bits());
    assert_eq!(s.box_padding.bits, 8.0f32.to_bits());
    assert!(s.shadow);
    assert_eq!(default_speed().bits, 1.0f32.to_bits());
    let tr: Track<TextClip> = Track::default();
    assert_eq!(tr.name, "");
    assert_eq!(tr.color, [0, 0, 0]);
    assert_eq!(AssetStore::default().next_id(), 1);
}
