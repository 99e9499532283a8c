use rsedit::audio::{
    build_snapshot, db_to_linear, mix_span, timecode_string, AudioState, MixClip, MixSnapshot,
};
use rsedit::export::{
    ends_as_sound, export_project, outcome_message, output_path, preset_name, presets,
    ExportConfig, ExportForm, ExportOutcome, Preset,
};
use rsedit::float::{Float32, Float64};
use rsedit::project::Project;
use rsedit::timeline::{Asset, AssetId, AssetKind, AudioClip, Track, VideoClip};

fn f(x: f32) -> Float32 {
    Float32 { bits: x.to_bits() }
}

fn g(x: Float32) -> f32 {
    f32::from_bits(x.bits)
}

fn d(x: f64) -> Float64 {
    Float64 { bits: x.to_bits() }
}

fn tone(n: usize) -> Vec<Float32> {
    (0..n).map(|i| f(((i * 29) % 101) as f32 / 50.0 - 1.0)).collect()
}

fn clip(channels: usize, speed: f32) -> MixClip {
    MixClip {
        pcm: tone(960 * channels),
        channels,
        source_in: 1000,
        source_out: 15_000,
        timeline_start: 2000,
        gain: f(0.8),
        fade_in: 3000,
        fade_out: 4000,
        speed: f(speed),
        envelope: vec![(0, f(1.0)), (6000, f(0.5)), (9000, f(2.0))],
    }
}

fn envelope(env: &[(i64, Float32)], local: i64) -> f32 {
    if env.len() == 1 {
        return g(env[0].1);
    }
    let t = local as f32;
    for w in env.windows(2) {
        let ((t0, g0), (t1, g1)) = (w[0], w[1]);
        if t >= t0 as f32 && t <= t1 as f32 {
            let k = ((t - t0 as f32) / (t1 - t0).max(1) as f32).clamp(0.0, 1.0);
            return g(g0) + (g(g1) - g(g0)) * k;
        }
        if t < t0 as f32 {
            return g(g0);
        }
    }
    1.0
}

fn native_span(clips: &[MixClip], start: usize, n: usize, rate: u32) -> Vec<f32> {
    let mut buf = vec![0.0f32; n * 2];
    for c in clips {
        let chans = c.channels.min(2);
        let speed = g(c.speed).max(0.01);
        let total = (c.source_out.max(c.source_in) - c.source_in) as f64 / speed as f64;
        let start_s = (c.timeline_start as f64 * rate as f64 / 1_000_000.0) as usize;
        let end_s = start_s + (total * rate as f64 / 1_000_000.0) as usize;
        for i in 0..n {
            let s = start + i;
            if s < start_s || s >= end_s {
                continue;
            }
            let local = (s - start_s) as f64 * 1_000_000.0 / rate as f64;
            let off = local * speed as f64;
            let at = (c.source_in as f64 * 48_000.0 / 1_000_000.0 + off * 48_000.0 / 1_000_000.0) as usize;
            let mut gain = g(c.gain) * envelope(&c.envelope, local as i64);
            if c.fade_in > 0 && local < c.fade_in as f64 {
                gain *= (local / c.fade_in as f64) as f32;
            }
            if c.fade_out > 0 {
                let rem = total - local;
                if rem < c.fade_out as f64 && rem >= 0.0 {
                    gain *= (rem / c.fade_out as f64) as f32;
                }
            }
            for ch in 0..2 {
                let from = if chans > 1 { ch } else { 0 };
                let idx = at * c.channels + from;
                if idx < c.pcm.len() {
                    buf[i * 2 + ch] += g(c.pcm[idx]) * gain;
                }
            }
        }
    }
    buf
}

#[test]
fn exported_samples() {
    let clips = vec![clip(1, 1.0), clip(2, 1.5), clip(2, 0.5)];
    let want = native_span(&clips, 60, 900, 48_000);
    let mix = MixSnapshot { clips, master_gain: f(1.0) };
    assert!(mix.can_mix());
    let got: Vec<f32> = mix_span(&mix, 60, 900, 48_000).iter().map(|x| g(*x)).collect();
    assert_eq!(got, want);
    assert!(got.iter().any(|v| *v != 0.0));
    // Nothing sounds before the first clip or long after the last.
    assert!(mix_span(&mix, 0, 90, 48_000).iter().all(|v| g(*v) == 0.0));
    assert!(mix_span(&mix, 9_000, 90, 48_000).iter().all(|v| g(*v) == 0.0));
    let quiet = MixSnapshot { master_gain: f(0.5), ..mix };
    let half = mix_span(&quiet, 60, 900, 48_000);
    for (a, b) in half.iter().zip(want.iter()) {
        assert_eq!(g(*a), b * 0.5);
    }
}

#[test]
fn mixes_that_cannot_be_exported() {
    let mut c = clip(1, 1.0);
    c.source_in = i64::MIN;
    assert!(!MixSnapshot { clips: vec![c.clone()], master_gain: f(1.0) }.can_mix());
    c.source_in = 0;
    c.envelope = vec![(i64::MIN, f(0.0)), (5, f(1.0))];
    assert!(!MixSnapshot { clips: vec![c], master_gain: f(1.0) }.can_mix());
}

fn live(clips: &[MixClip], t0: f64, frames: usize, chans: usize, rate: u32) -> Vec<f32> {
    let mut buf = vec![0.0f32; frames * chans];
    for c in clips {
        let speed = g(c.speed).max(0.01) as f64;
        let len = (c.source_out.max(c.source_in) - c.source_in) as f64 / speed;
        let start_s = (c.timeline_start as f64 * rate as f64 / 1_000_000.0) as i64;
        let end_s = start_s + (len * rate as f64 / 1_000_000.0) as i64;
        for k in 0..frames {
            let s = k as i64 + t0 as i64 * rate as i64 / 1_000_000;
            if s < start_s || s >= end_s {
                continue;
            }
            let off = s - start_s;
            let at = (off as f64 * 48_000.0 / rate as f64 * speed) as usize
                + (c.source_in as f64 * 48_000.0 / 1_000_000.0) as usize;
            let ts = c.timeline_start as f64 + off as f64 * 1_000_000.0 / rate as f64;
            let into = ts - c.timeline_start as f64;
            let mut gain = g(c.gain) * envelope(&c.envelope, into as i64);
            if c.fade_in > 0 && (ts - c.timeline_start as f64) < c.fade_in as f64 {
                gain *= ((ts - c.timeline_start as f64) / c.fade_in as f64) as f32;
            }
            if c.fade_out > 0 {
                let rem = c.timeline_start as f64 + len - ts;
                if rem < c.fade_out as f64 {
                    gain *= (rem / c.fade_out as f64) as f32;
                }
            }
            if c.channels >= 2 {
                let i = at * 2;
                if i + 1 < c.pcm.len() {
                    let (l, r) = (g(c.pcm[i]) * gain, g(c.pcm[i + 1]) * gain);
                    if chans == 1 {
                        buf[k] += (l + r) * 0.5;
                    } else {
                        buf[k * chans] += l;
                        buf[k * chans + 1] += r;
                    }
                }
            } else {
                let v = g(c.pcm[at.min(c.pcm.len() - 1)]) * gain;
                for o in 0..chans.min(2) {
                    buf[k * chans + o] += v;
                }
            }
        }
    }
    buf
}

#[test]
fn played_samples() {
    for (chans, rate, speed) in [
        (1usize, 48_000u32, 1.0f32),
        (2, 44_100, 1.0),
        (6, 48_000, 1.0),
        (2, 48_000, 2.0),
        (2, 44_100, 0.75),
    ] {
        let clips = vec![clip(1, speed), clip(2, speed)];
        let want = live(&clips, 1500.0, 300, chans, rate);
        let mut s = AudioState::new(MixSnapshot { clips, master_gain: f(1.0) });
        assert!(s.can_play());
        s.set_pos_us(d(1500.0));
        let mut buf = vec![f(3.0); 7];
        s.render(&mut buf, chans, rate);
        assert!(buf.len() == 7 && buf.iter().all(|v| g(*v) == 0.0));
        assert_eq!(s.pos_us().bits, 1500.0f64.to_bits());
        s.playing = true;
        // One sample more than whole frames: it stays as it is.
        let more = if chans > 1 { 1 } else { 0 };
        let mut buf = vec![f(3.0); 300 * chans + more];
        s.render(&mut buf, chans, rate);
        let mut got: Vec<f32> = buf.iter().map(|x| g(*x)).collect();
        if more == 1 {
            assert_eq!(got.pop(), Some(3.0));
        }
        assert_eq!(got, want);
        let to = 1500.0 + 300.0 * 1_000_000.0 / rate as f64;
        assert_eq!(s.pos_us().bits, to.to_bits());
    }
    let mut empty = clip(1, 1.0);
    empty.pcm.clear();
    assert!(!AudioState::new(MixSnapshot { clips: vec![empty], master_gain: f(1.0) }).can_play());
}

#[test]
fn playback_sounds_like_the_export() {
    // From the start of the timeline, at the speed and with the envelope of the clip.
    for speed in [1.0f32, 2.0, 0.5] {
        let mut c = clip(2, speed);
        c.timeline_start = 0;
        c.source_in = 0;
        let mix = MixSnapshot { clips: vec![c], master_gain: f(0.5) };
        let exported = mix_span(&mix, 0, 1600, 48_000);
        let mut s = AudioState::new(mix);
        s.playing = true;
        let mut buf = vec![f(0.0); 3200];
        s.render(&mut buf, 2, 48_000);
        let bits = |v: &Vec<Float32>| v.iter().map(|x| x.bits).collect::<Vec<u32>>();
        assert_eq!(bits(&buf), bits(&exported));
    }
    // What cannot be mixed cannot be played.
    let mut c = clip(2, 1.0);
    c.envelope = vec![(i64::MIN, f(1.0)), (i64::MAX, f(1.0))];
    assert!(!AudioState::new(MixSnapshot { clips: vec![c], master_gain: f(1.0) }).can_play());
}

fn sound_asset() -> Asset {
    Asset {
        id: AssetId(0),
        kind: AssetKind::Audio,
        name: "s".into(),
        path: "s".into(),
        duration_us: 10,
        width: 0,
        height: 0,
        frame_rate: d(0.0),
        sample_rate: 48_000,
        channels: 2,
        peaks: vec![],
        rgba: None,
        thumb: None,
        pcm: Some(tone(8)),
        filmstrip: None,
    }
}

fn audio(id: AssetId, db: f32) -> AudioClip {
    AudioClip { asset: id, gain_db: f(db), source_out: 10, ..AudioClip::default() }
}

#[test]
fn snapshots_hold_what_is_heard() {
    let mut p = Project::new();
    let id = p.assets.insert(sound_asset());
    p.audio_tracks = vec![Track::new("A1".into(), [0; 3]), Track::new("A2".into(), [0; 3])];
    p.audio_tracks[0].clips = vec![audio(id, -6.0), audio(AssetId(77), 0.0), audio(id, -95.0)];
    p.audio_tracks[1].clips = vec![audio(id, 0.0)];
    let power = |db: f32| f(10f32.powf(db / 20.0));
    let powers = vec![vec![power(-6.0), power(0.0), power(-95.0)], vec![power(0.0)]];
    let ones = vec![f(1.0), f(1.0)];
    let s = build_snapshot(&p, &powers, &ones, f(1.0));
    assert_eq!(s.clips.len(), 3);
    assert_eq!(g(s.clips[0].gain), 10f32.powf(-0.3));
    assert_eq!(g(s.clips[1].gain), 0.0);
    assert_eq!((s.clips[2].channels, g(s.master_gain)), (2, 1.0));
    p.audio_tracks[1].muted = true;
    assert_eq!(build_snapshot(&p, &powers, &ones, f(1.0)).clips.len(), 2);
    p.audio_tracks[1].muted = false;
    p.audio_tracks[1].solo = true;
    assert_eq!(build_snapshot(&p, &powers, &ones, f(1.0)).clips.len(), 1);
    // The gain of the track, then the master gain.
    p.audio_tracks[1].solo = false;
    p.audio_tracks[0].gain_db = f(-12.0);
    p.audio_tracks[1].gain_db = f(-90.0);
    p.master_gain = f(-3.0);
    let tracks = vec![power(-12.0), power(-90.0)];
    let s = build_snapshot(&p, &powers, &tracks, power(-3.0));
    assert_eq!(g(s.clips[0].gain), 10f32.powf(-0.3) * 10f32.powf(-0.6));
    assert_eq!(g(s.clips[2].gain), 0.0);
    assert_eq!(g(s.master_gain), 10f32.powf(-0.15));
    assert_eq!(g(db_to_linear(f(-90.0), f(0.3))), 0.0);
    assert_eq!(g(db_to_linear(f(-89.0), f(0.3))), 0.3);
}

#[test]
fn times_as_text() {
    for us in [0i64, 1, 999_999, 61_234_567, 3_599_999_999, 6_000_000_000_000, -5] {
        let total = us.max(0) as f64 / 1_000_000.0;
        let want = format!(
            "{:02}:{:02}.{:02}",
            (total / 60.0) as i64,
            (total % 60.0) as i64,
            ((total * 100.0) % 100.0) as i64
        );
        assert_eq!(timecode_string(us, d(30.0)), want);
    }
    assert_eq!(timecode_string(61_230_000, d(30.0)), "01:01.23");
}

fn config() -> ExportConfig {
    ExportConfig {
        path: "o.mp4".into(),
        width: 64,
        height: 32,
        fps: d(30.0),
        bitrate_kbps: 8000,
        audio_only: false,
        vp9: false,
        from_us: 0,
        to_us: 0,
    }
}

#[test]
fn exports_are_planned() {
    let mut p = Project::new();
    assert_eq!(export_project(&p, &config()).unwrap_err(), "timeline is empty");
    p.video_tracks[0].clips.push(VideoClip { source_out: 1_000_000, ..VideoClip::default() });
    let plan = export_project(&p, &config()).unwrap();
    assert_eq!((plan.from_us, plan.rate_us), (0, 33_333));
    assert_eq!((plan.total_frames, plan.total_samples), (31, 48_000));
    assert_eq!(plan.frame_pts(3), 99_999);
    assert!(plan.can_reach(31) && !plan.can_reach(u64::MAX));
    assert_eq!(g(plan.progress(0)), 1.0 / 31.0);
    assert_eq!(g(plan.progress(30)), 1.0);
    // The chunks of all frames together are all samples, in order.
    let mut next = 0;
    for k in 0..plan.total_frames {
        for c in plan.audio_chunks(k, 1024) {
            assert_eq!(c.start, next);
            assert!(c.take >= 1 && c.take <= 1024);
            next = c.start + c.take as u64;
        }
    }
    assert_eq!(next, 48_000);
    let part = ExportConfig { from_us: 200_000, to_us: 500_000, ..config() };
    let plan = export_project(&p, &part).unwrap();
    assert_eq!((plan.from_us, plan.total_frames, plan.total_samples), (200_000, 10, 14_400));
    assert_eq!(plan.frame_pts(0), 200_000);
}

#[test]
fn export_forms() {
    let mut form = ExportForm::new();
    assert_eq!(form.preset(), Preset::FullHd30);
    for p in presets() {
        form.take_preset(p);
        if p != Preset::Custom {
            assert_eq!(form.preset(), p);
        }
    }
    form.width = 7;
    assert_eq!(form.preset(), Preset::Custom);
    assert_eq!(preset_name(Preset::Portrait), "9:16 1080p");
    assert!(form.ready());
    form.audio_only = true;
    assert!(!form.ready());
    form.path = "Song.M4A".into();
    assert!(form.ready());
    form.path = "a.mp4.mp4".into();
    let mut p = Project::new();
    p.loop_start = Some(3);
    p.loop_end = Some(9);
    form.range = true;
    form.codec = 1;
    let c = form.config(&p);
    assert_eq!((c.path.as_str(), c.from_us, c.to_us, c.vp9), ("a.m4a.m4a", 3, 9, true));
    form.range = false;
    assert_eq!(form.config(&p).to_us, 0);
    assert!(ends_as_sound("x.m4a") && !ends_as_sound("x.mp4"));
    assert_eq!(output_path("x.mp4", true, false), "x.m4a");
    assert_eq!(output_path("x.mp4", false, false), "x.mp4");
}

#[test]
fn export_messages() {
    assert_eq!(outcome_message(&ExportOutcome::Done), "Export complete.");
    assert_eq!(outcome_message(&ExportOutcome::Failed("export cancelled".into())), "Export cancelled.");
    assert_eq!(outcome_message(&ExportOutcome::Failed("x".into())), "Export failed: x");
    assert_eq!(outcome_message(&ExportOutcome::Panicked), "Export thread panicked.");
}
