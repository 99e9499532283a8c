use image::ImageEncoder;
use rsedit::assets::{
    fit_box, import_as, import_image, import_media, thumbnail_box, to_ascii_lower, ImportAs,
    MediaInfo,
};
use rsedit::decoder::{
    choose_frame, compute_peaks, decode_step, frame_rate, interleave, load_image_rgba,
    pcm_to_floats, pts_us, scale_rgba, seek_before, video_thumbnail, DecoderAction, DecoderEvent,
    VideoFrame,
};
use rsedit::float::{Float32, Float64};
use rsedit::framecache::{window_around, DecodeState, FrameCache, FrameRequest};
use rsedit::layout::{
    draw_text_billboard, draw_texts, glyph_strokes, lay_out, lines_of, Cell, DrawnText, FontMetrics,
    GlyphPixels, TextLayout,
};
use rsedit::paint::{blend_scaled, clear_buffer, emit_glyph, fill_rect, Look, Stroke, TurnedBox};
use rsedit::pixel::{blend_pixel, grade_color, shift_hue, Color};
use rsedit::project::Project;
use rsedit::render::{
    bytes_fit, compose_frame, effective_transform, source_request, Composition,
};
use rsedit::timeline::{
    AssetKind, AssetStore, BlendMode, ColorGrade, TextAlign, TextClip, TextStyle, Transform,
    TransformKeyframe, VideoClip,
};

fn f(x: f32) -> Float32 {
    Float32 { bits: x.to_bits() }
}

fn g(x: Float32) -> f32 {
    f32::from_bits(x.bits)
}

fn ramp(n: usize) -> Vec<u8> {
    (0..n).map(|i| (i * 37 + i / 7 * 11) as u8).collect()
}

fn grade(b: f32, c: f32, s: f32, h: f32) -> ColorGrade {
    ColorGrade { brightness: f(b), contrast: f(c), saturation: f(s), hue_shift: f(h) }
}

const MODES: [BlendMode; 5] =
    [BlendMode::Normal, BlendMode::Multiply, BlendMode::Screen, BlendMode::Add, BlendMode::Overlay];

fn mode_of(m: BlendMode, s: f32, d: f32) -> f32 {
    match m {
        BlendMode::Normal => s,
        BlendMode::Multiply => s * d / 255.0,
        BlendMode::Screen => 255.0 - (255.0 - s) * (255.0 - d) / 255.0,
        BlendMode::Add => (s + d).min(255.0),
        BlendMode::Overlay => {
            if d < 128.0 {
                2.0 * s * d / 255.0
            } else {
                255.0 - 2.0 * (255.0 - s) * (255.0 - d) / 255.0
            }
        }
    }
}

#[test]
fn pixels_blend_in_every_mode() {
    for m in MODES {
        for a in [0.0f32, 0.25, 0.7, 1.0] {
            let mut dst = vec![9, 200, 128, 7, 1, 2, 3, 4];
            blend_pixel(&mut dst, 0, Color { r: f(250.0), g: f(33.5), b: f(0.0) }, f(a), m);
            let want = |s: f32, d: f32| (mode_of(m, s, d) * a + d * (1.0 - a)).round() as u8;
            if a > 0.0 {
                assert_eq!(&dst[..4], &[want(250.0, 9.0), want(33.5, 200.0), want(0.0, 128.0), 255]);
            } else {
                assert_eq!(&dst[..4], &[9, 200, 128, 7]);
            }
            assert_eq!(&dst[4..], &[1, 2, 3, 4]);
        }
    }
    // An opaque pixel takes the place of what was there.
    let mut dst = vec![9, 200, 128, 7];
    blend_pixel(&mut dst, 0, Color { r: f(1.0), g: f(2.0), b: f(3.0) }, f(1.0), BlendMode::Normal);
    assert_eq!(dst, vec![1, 2, 3, 255]);
}

#[test]
fn neutral_colors_change_nothing() {
    for (mode, v) in [(BlendMode::Multiply, 255.0), (BlendMode::Screen, 0.0), (BlendMode::Add, 0.0)] {
        for a in [f32::MIN_POSITIVE, 0.001, 0.3, 0.5, 0.999_999_9, 1.0] {
            for d in 0..=255u8 {
                let mut dst = vec![d, 255 - d, d / 2, 7, 1];
                blend_pixel(&mut dst, 0, Color { r: f(v), g: f(v), b: f(v) }, f(a), mode);
                assert_eq!(dst, vec![d, 255 - d, d / 2, 255, 1]);
            }
        }
    }
}

fn native_grade(c: f32, gr: &ColorGrade) -> f32 {
    let mut c = c + g(gr.brightness) * 255.0;
    if g(gr.contrast) != 1.0 {
        c = (c / 255.0 - 0.5) * g(gr.contrast) * 255.0 + 128.0;
    }
    c
}

fn native_hue(r: f32, gg: f32, b: f32, shift: f32) -> [f32; 3] {
    let third = std::f32::consts::FRAC_PI_3;
    let (r, gg, b) = (r / 255.0, gg / 255.0, b / 255.0);
    let max = r.max(gg).max(b);
    let d = max - r.min(gg).min(b);
    let mut h = 0.0;
    if d > 0.0 {
        h = if max == r {
            ((gg - b) / d).rem_euclid(6.0)
        } else if max == gg {
            (b - r) / d + 2.0
        } else {
            (r - gg) / d + 4.0
        };
        h *= third;
    }
    let s = if max > 0.0 { d / max } else { 0.0 };
    let h = (h + shift).rem_euclid(std::f32::consts::TAU);
    let i = (h / third).floor() as i32;
    let fr = h / third - i as f32;
    let (p, q, t) = (max * (1.0 - s), max * (1.0 - fr * s), max * (1.0 - (1.0 - fr) * s));
    let (x, y, z) = match i.rem_euclid(6) {
        0 => (max, t, p),
        1 => (q, max, p),
        2 => (p, max, t),
        3 => (p, q, max),
        4 => (t, p, max),
        _ => (max, p, q),
    };
    [x * 255.0, y * 255.0, z * 255.0]
}

fn native_color(r: f32, gg: f32, b: f32, gr: &ColorGrade) -> [f32; 3] {
    let mut c = [r, gg, b];
    let sat = g(gr.saturation);
    if g(gr.brightness) != 0.0 || g(gr.contrast) != 1.0 || sat != 1.0 {
        c = [native_grade(c[0], gr), native_grade(c[1], gr), native_grade(c[2], gr)];
        if sat != 1.0 {
            let luma = 0.2126 * c[0] + 0.7152 * c[1] + 0.0722 * c[2];
            c = [luma + (c[0] - luma) * sat, luma + (c[1] - luma) * sat, luma + (c[2] - luma) * sat];
        }
    }
    if g(gr.hue_shift).abs() > 0.001 {
        c = native_hue(c[0], c[1], c[2], g(gr.hue_shift));
    }
    c
}

#[test]
fn colors_are_graded_and_turned() {
    for gr in [grade(0.0, 1.0, 1.0, 0.0), grade(0.1, 1.3, 0.4, 0.0), grade(-0.2, 1.0, 1.7, 0.0)] {
        let c = grade_color(Color { r: f(10.0), g: f(180.0), b: f(77.0) }, &gr);
        let n = native_color(10.0, 180.0, 77.0, &gr);
        assert_eq!([g(c.r), g(c.g), g(c.b)], n);
    }
    for shift in [0.5f32, 1.0, 2.5, 4.0, -3.0, 6.0] {
        for (r, gg, b) in [(10, 180, 77), (200, 3, 4), (0, 0, 0), (5, 5, 250), (9, 9, 9)] {
            let c = shift_hue(Color { r: f(r as f32), g: f(gg as f32), b: f(b as f32) }, f(shift));
            assert_eq!([g(c.r), g(c.g), g(c.b)], native_hue(r as f32, gg as f32, b as f32, shift));
        }
    }
}

fn native_between(src: &[u8], w: u32, h: u32, px: f32, py: f32, c: usize) -> f32 {
    let (x0, y0) = (px.max(0.0) as u32, py.max(0.0) as u32);
    let (x1, y1) = ((x0 + 1).min(w - 1), (y0 + 1).min(h - 1));
    let fx = (px - x0 as f32).clamp(0.0, 1.0);
    let fy = (py - y0 as f32).clamp(0.0, 1.0);
    let at = |x: u32, y: u32| src[((y * w + x) * 4) as usize + c] as f32;
    let (tl, tr, bl, br) = (at(x0, y0), at(x1, y0), at(x0, y1), at(x1, y1));
    (tl + (tr - tl) * fx + (bl - tl) * fy + (tl - tr - bl + br) * fx * fy).clamp(0.0, 255.0)
}

#[allow(clippy::too_many_arguments)]
fn native_blend(
    src: &[u8], sw: u32, sh: u32, dst: &mut [u8], dw: u32, dh: u32, t: &Transform, l: &Look,
    crop: &[Float32; 4], mode: BlendMode,
) {
    if src.len() < (sw * sh * 4) as usize {
        return;
    }
    let scale = g(t.scale).max(0.001);
    let cl = g(crop[0]).clamp(0.0, 1.0);
    let ct = g(crop[1]).clamp(0.0, 1.0);
    let cr = g(crop[2]).clamp(cl, 1.0);
    let cb = g(crop[3]).clamp(ct, 1.0);
    if cr - cl < 1e-4 || cb - ct < 1e-4 {
        return;
    }
    let cw = (sw as f32 * (cr - cl)) as i32;
    let ch = (sh as f32 * (cb - ct)) as i32;
    let fit = (dw as f32 / cw.max(1) as f32).min(dh as f32 / ch.max(1) as f32) * scale;
    let w2 = ((cw as f32 * fit) as i32) / 2;
    let h2 = ((ch as f32 * fit) as i32) / 2;
    let (cx, cy) = (dw as f32 * g(t.x), dh as f32 * g(t.y));
    let (mx, my) = (cx as i32, cy as i32);
    let (w2, h2) = ((w2 + 1) as f32, (h2 + 1) as f32);
    let (cos, sin) = (g(l.cos), g(l.sin));
    let rx = (w2 * cos.abs() + h2 * sin.abs()).abs() as i32 + 2;
    let ry = (h2 * cos.abs() + w2 * sin.abs()).abs() as i32 + 2;
    for y in (my - ry).max(0)..(my + ry).min(dh as i32) {
        for x in (mx - rx).max(0)..(mx + rx).min(dw as i32) {
            let (dx, dy) = (x as f32 + 0.5 - cx, y as f32 + 0.5 - cy);
            let u = (dx * cos + dy * sin) / fit;
            let v = (-dx * sin + dy * cos) / fit;
            let (a, b) = (u + cw as f32 * 0.5, v + ch as f32 * 0.5);
            if a < 0.0 || a >= cw as f32 || b < 0.0 || b >= ch as f32 {
                continue;
            }
            let (mut fu, mut fv) = (a - 0.5, b - 0.5);
            if l.flip_x {
                fu = cw as f32 - fu - 1.0;
            }
            if l.flip_y {
                fv = ch as f32 - fv - 1.0;
            }
            let px = fu + cl * sw as f32;
            let py = fv + ct * sh as f32;
            let (su, sv) = (px as i32, py as i32);
            if su < 0 || sv < 0 || su >= sw as i32 || sv >= sh as i32 {
                continue;
            }
            let at = |c: usize| native_between(src, sw, sh, px, py, c);
            let c = native_color(at(0), at(1), at(2), &l.grade);
            let a = (at(3) / 255.0) * g(l.opacity).min(1.0);
            if a <= 0.0 {
                continue;
            }
            let di = (y as usize * dw as usize + x as usize) * 4;
            for k in 0..3 {
                let d = dst[di + k] as f32;
                dst[di + k] = (mode_of(mode, c[k].min(255.0), d) * a + d * (1.0 - a)).round() as u8;
            }
            dst[di + 3] = 255;
        }
    }
}

#[test]
fn pictures_are_blended_into_frames() {
    let src = ramp(12 * 9 * 4);
    let full = [f(0.0), f(0.0), f(1.0), f(1.0)];
    let part = [f(0.1), f(0.25), f(0.8), f(0.9)];
    let mut cases = 0;
    for (k, mode) in MODES.iter().enumerate() {
        for crop in [&full, &part] {
            for (angle, scale) in [(0.0f32, 1.0f32), (30.0, 1.4), (-90.0, 0.5)] {
                let rot = angle.to_radians();
                let look = Look {
                    opacity: f(0.3 + 0.2 * k as f32),
                    grade: grade(0.05 * k as f32, 1.0 + 0.1 * k as f32, 1.0, if k == 2 { 0.8 } else { 0.0 }),
                    flip_x: k % 2 == 1,
                    flip_y: k == 4,
                    cos: f(rot.cos()),
                    sin: f(rot.sin()),
                };
                let t = Transform { x: f(0.5), y: f(0.45), scale: f(scale), rotate: f(angle) };
                let mut a = ramp(20 * 16 * 4);
                let mut b = a.clone();
                let first = a.clone();
                blend_scaled(&src, 12, 9, &mut a, 20, 16, &t, &look, crop, *mode);
                native_blend(&src, 12, 9, &mut b, 20, 16, &t, &look, crop, *mode);
                assert_eq!(a, b);
                assert_eq!(a.len(), first.len());
                assert!(a != first);
                cases += 1;
            }
        }
    }
    assert_eq!(cases, 30);
}

fn opaque(n: usize) -> Vec<u8> {
    let mut v = ramp(4 * n);
    for p in 0..n {
        v[4 * p + 3] = 255;
    }
    v
}

fn plain_look() -> Look {
    Look {
        opacity: f(1.0),
        grade: ColorGrade::default(),
        flip_x: false,
        flip_y: false,
        cos: f(1.0),
        sin: f(0.0),
    }
}

#[test]
fn pictures_of_the_frame_size_fill_it() {
    let full = [f(0.0), f(0.0), f(1.0), f(1.0)];
    let t = Transform::default();
    let src = opaque(6 * 4);
    let mut a = ramp(6 * 4 * 4);
    blend_scaled(&src, 6, 4, &mut a, 6, 4, &t, &plain_look(), &full, BlendMode::Normal);
    assert_eq!(a, src);
    // With odd sides too.
    for (w, h) in [(7u32, 5u32), (1, 1), (3, 8), (641, 3)] {
        let n = (w * h) as usize;
        let src = opaque(n);
        let mut a = ramp(n * 4);
        blend_scaled(&src, w, h, &mut a, w, h, &t, &plain_look(), &full, BlendMode::Normal);
        assert_eq!(a, src);
    }
    // Flipped, each row comes back reversed.
    let mut b = ramp(6 * 4 * 4);
    let look = Look { flip_x: true, ..plain_look() };
    blend_scaled(&src, 6, 4, &mut b, 6, 4, &t, &look, &full, BlendMode::Normal);
    for y in 0..4 {
        for x in 0..6 {
            assert_eq!(b[(y * 6 + x) * 4..][..4], src[(y * 6 + 5 - x) * 4..][..4]);
        }
    }
}

#[test]
fn pictures_are_fitted_and_centered() {
    let full = [f(0.0), f(0.0), f(1.0), f(1.0)];
    let t = Transform::default();
    // Two pixels, black and white, in a frame of eight by eight: four rows, scaled by
    // four, with the values between the two pixels.
    let src = vec![0, 0, 0, 255, 200, 200, 200, 255];
    let mut a = vec![9u8; 8 * 8 * 4];
    blend_scaled(&src, 2, 1, &mut a, 8, 8, &t, &plain_look(), &full, BlendMode::Normal);
    for y in 0..8 {
        let row: Vec<u8> = (0..8).map(|x| a[(y * 8 + x) * 4]).collect();
        if (2..6).contains(&y) {
            assert_eq!(row, vec![0, 0, 25, 75, 125, 175, 200, 200]);
        } else {
            assert_eq!(row, vec![9; 8]);
        }
    }
    // At half the size it fills half of the width and height.
    let half = Transform { scale: f(0.5), ..t };
    let src = opaque(4 * 4);
    let mut a = vec![9u8; 8 * 8 * 4];
    blend_scaled(&src, 4, 4, &mut a, 8, 8, &half, &plain_look(), &full, BlendMode::Normal);
    for y in 0..8 {
        for x in 0..8 {
            let at = (y * 8 + x) * 4;
            if (2..6).contains(&x) && (2..6).contains(&y) {
                assert_eq!(a[at..at + 4], src[((y - 2) * 4 + x - 2) * 4..][..4]);
            } else {
                assert_eq!(a[at..at + 4], [9; 4]);
            }
        }
    }
    // The right half alone, at the size of the frame.
    let right = [f(0.5), f(0.0), f(1.0), f(1.0)];
    let src = opaque(4 * 2);
    let mut a = vec![9u8; 2 * 2 * 4];
    blend_scaled(&src, 4, 2, &mut a, 2, 2, &t, &plain_look(), &right, BlendMode::Normal);
    for y in 0..2 {
        for x in 0..2 {
            assert_eq!(a[(y * 2 + x) * 4..][..4], src[(y * 4 + 2 + x) * 4..][..4]);
        }
    }
}

#[test]
fn pictures_that_cannot_be_seen_change_nothing() {
    let src = ramp(4 * 4 * 4);
    let look = Look {
        opacity: f(0.0),
        grade: ColorGrade::default(),
        flip_x: false,
        flip_y: false,
        cos: f(1.0),
        sin: f(0.0),
    };
    let t = Transform::default();
    let full = [f(0.0), f(0.0), f(1.0), f(1.0)];
    let nothing = [f(0.5), f(0.0), f(0.5), f(1.0)];
    let first = ramp(8 * 8 * 4);
    let mut a = first.clone();
    blend_scaled(&src, 4, 4, &mut a, 8, 8, &t, &look, &full, BlendMode::Add);
    let seen = Look { opacity: f(1.0), ..look };
    blend_scaled(&src, 4, 4, &mut a, 8, 8, &t, &seen, &nothing, BlendMode::Add);
    // Too few bytes for the size.
    blend_scaled(&src, 5, 4, &mut a, 8, 8, &t, &seen, &full, BlendMode::Add);
    assert_eq!(a, first);
}

#[test]
fn frames_are_cleared() {
    let mut out = vec![1u8; 10];
    clear_buffer(&mut out);
    assert_eq!(out, vec![8, 8, 10, 255, 8, 8, 10, 255, 1, 1]);
}

#[test]
fn boxes_are_filled() {
    let rot = 20.0f32.to_radians();
    let (cos, sin) = (rot.cos(), rot.sin());
    let b = TurnedBox::new(f(4.0), f(5.0), f(8.0), f(4.0), f(cos), f(sin));
    let first = ramp(16 * 14 * 4);
    let mut a = first.clone();
    fill_rect(&mut a, 16, 14, &b, &[200, 10, 90, 128], f(0.8));
    let mut want = first.clone();
    let (cx, cy, hw, hh) = (8.0f32, 7.0f32, 4.0f32, 2.0f32);
    let rx = hw * cos.abs() + hh * sin.abs();
    let ry = hh * cos.abs() + hw * sin.abs();
    let al = (128.0f32 / 255.0) * 0.8;
    for y in ((cy - ry) as i32)..((cy + ry) as i32) {
        for x in ((cx - rx) as i32)..((cx + rx) as i32) {
            let (dx, dy) = (x as f32 - cx, y as f32 - cy);
            if (dx * cos + dy * sin).abs() <= hw && (-dx * sin + dy * cos).abs() <= hh {
                let di = (y as usize * 16 + x as usize) * 4;
                for (k, c) in [200.0f32, 10.0, 90.0].iter().enumerate() {
                    want[di + k] = (c * al + want[di + k] as f32 * (1.0 - al)).round() as u8;
                }
                want[di + 3] = 255;
            }
        }
    }
    assert_eq!(a, want);
    assert!(a != first);
    let mut c = first.clone();
    fill_rect(&mut c, 16, 14, &b, &[200, 10, 90, 2], f(0.8));
    assert_eq!(c, first);
}

#[test]
fn glyph_pixels_are_turned_round_the_center() {
    let rot = 90.0f32.to_radians();
    let s = Stroke {
        cx: f(4.0),
        cy: f(4.0),
        cos: f(rot.cos()),
        sin: f(rot.sin()),
        color: [255, 0, 0, 255],
        strength: f(1.0),
        text_alpha: 255,
        opacity: f(1.0),
    };
    let mut dst = vec![0u8; 8 * 8 * 4];
    emit_glyph(&mut dst, 8, 8, &s, f(6.0), f(4.0), f(1.0));
    // Two to the right becomes two below.
    let di = (6 * 8 + 4) * 4;
    assert_eq!(&dst[di..di + 4], &[255, 0, 0, 255]);
    assert_eq!(dst.iter().filter(|b| **b != 0).count(), 2);
    emit_glyph(&mut dst, 8, 8, &s, f(60.0), f(4.0), f(1.0));
    emit_glyph(&mut dst, 8, 8, &s, f(1.0), f(1.0), f(0.005));
    assert_eq!(dst.iter().filter(|b| **b != 0).count(), 2);
}

#[test]
fn only_the_rows_of_the_frame_are_painted() {
    // Two rows more than the frame has.
    let full = [f(0.0), f(0.0), f(1.0), f(1.0)];
    let src = opaque(6 * 4);
    let first = ramp(6 * 6 * 4);
    let mut a = first.clone();
    let t = Transform::default();
    blend_scaled(&src, 6, 4, &mut a, 6, 4, &t, &plain_look(), &full, BlendMode::Normal);
    assert_eq!(a[..6 * 4 * 4], src[..]);
    assert_eq!(a[6 * 4 * 4..], first[6 * 4 * 4..]);
    let mut b = first.clone();
    let whole = TurnedBox::new(f(-10.0), f(-10.0), f(40.0), f(40.0), f(1.0), f(0.0));
    fill_rect(&mut b, 6, 4, &whole, &[1, 2, 3, 255], f(1.0));
    assert!(b[..6 * 4 * 4].chunks(4).all(|p| p == [1, 2, 3, 255]));
    assert_eq!(b[6 * 4 * 4..], first[6 * 4 * 4..]);
    let s = Stroke {
        cx: f(0.0),
        cy: f(0.0),
        cos: f(1.0),
        sin: f(0.0),
        color: [9, 9, 9, 255],
        strength: f(1.0),
        text_alpha: 255,
        opacity: f(1.0),
    };
    let mut c = first.clone();
    // A text of hardly any opacity is not painted at all.
    let faint = Stroke { opacity: f(0.01), ..s };
    emit_glyph(&mut c, 6, 4, &faint, f(2.0), f(3.0), f(1.0));
    fill_rect(&mut c, 6, 4, &whole, &[1, 2, 3, 255], f(0.01));
    assert_eq!(c, first);
    emit_glyph(&mut c, 6, 4, &s, f(2.0), f(4.0), f(1.0));
    assert_eq!(c, first);
    emit_glyph(&mut c, 6, 4, &s, f(2.0), f(3.0), f(1.0));
    assert_eq!(c[(3 * 6 + 2) * 4..][..4], [9, 9, 9, 255]);
}

fn plain_layout(background: Option<TurnedBox>) -> TextLayout {
    TextLayout { cx: f(0.0), cy: f(0.0), cos: f(1.0), sin: f(0.0), background, glyphs: vec![] }
}

fn shape_at(x: f32, y: f32) -> Option<GlyphPixels> {
    Some(GlyphPixels { x: f(x), y: f(y), cover: vec![(0, 0, f(1.0)), (1, 0, f(0.5))] })
}

#[test]
fn texts_are_drawn_over_their_box() {
    let whole = TurnedBox::new(f(-10.0), f(-10.0), f(40.0), f(40.0), f(1.0), f(0.0));
    let style = TextStyle {
        color: [200, 100, 50, 255],
        background: [10, 20, 30, 255],
        shadow: true,
        outline_color: [1, 2, 3, 255],
        outline_width: f(1.0),
        ..TextStyle::default()
    };
    let shapes = vec![shape_at(2.0, 2.0), None, shape_at(5.0, 3.0)];
    let mut want = ramp(8 * 8 * 4);
    fill_rect(&mut want, 8, 8, &whole, &style.background, f(0.5));
    for shape in shapes.iter().flatten() {
        for k in glyph_strokes(&style) {
            let ink = Stroke {
                cx: f(0.0),
                cy: f(0.0),
                cos: f(1.0),
                sin: f(0.0),
                color: k.color,
                strength: k.strength,
                text_alpha: 255,
                opacity: f(0.5),
            };
            for (x, y, cover) in &shape.cover {
                let at_x = g(shape.x) + *x as f32 + g(k.ox);
                let at_y = g(shape.y) + *y as f32 + g(k.oy);
                emit_glyph(&mut want, 8, 8, &ink, f(at_x), f(at_y), *cover);
            }
        }
    }
    let mut got = ramp(8 * 8 * 4);
    let layout = plain_layout(Some(whole));
    draw_text_billboard(&mut got, 8, 8, &layout, &shapes, &style, f(0.5));
    assert_eq!(got, want);
    assert!(want != ramp(8 * 8 * 4));
}

#[test]
fn later_texts_lie_on_top() {
    let plain = |color: [u8; 4]| TextStyle { color, shadow: false, ..TextStyle::default() };
    let (red, blue) = (plain([255, 0, 0, 255]), plain([0, 0, 255, 255]));
    let drawn = |style| DrawnText {
        layout: plain_layout(None),
        shapes: vec![shape_at(1.0, 1.0)],
        style,
        opacity: f(1.0),
    };
    let mut a = vec![0u8; 4 * 4 * 4];
    draw_texts(&mut a, 4, 4, &vec![Some(drawn(&red)), None, Some(drawn(&blue))]);
    assert_eq!(a[(4 + 1) * 4..][..4], [0, 0, 255, 255]);
    let mut b = vec![0u8; 4 * 4 * 4];
    draw_texts(&mut b, 4, 4, &vec![None]);
    assert_eq!(b, vec![0u8; 4 * 4 * 4]);
}

fn png(w: u32, h: u32, rgba: &[u8]) -> Vec<u8> {
    let mut out = Vec::new();
    image::codecs::png::PngEncoder::new(&mut out)
        .write_image(rgba, w, h, image::ExtendedColorType::Rgba8)
        .unwrap();
    out
}

#[test]
fn images_are_loaded() {
    let rgba = ramp(5 * 3 * 4);
    let bytes = png(5, 3, &rgba);
    assert_eq!(load_image_rgba("a.png", &bytes), Ok((5, 3, rgba.clone())));
    assert_eq!(load_image_rgba("a.png", &vec![1, 2, 3]), Err("open image".to_string()));
    let mut store = AssetStore::new();
    let id = import_image(&mut store, "/p/a.png", "a.png", &bytes).unwrap();
    let a = store.get(id).unwrap();
    assert_eq!((a.kind, a.width, a.height, a.duration_us), (AssetKind::Image, 5, 3, 1_000_000));
    assert_eq!(a.rgba.as_ref().unwrap(), &rgba);
    assert_eq!(a.thumb.as_ref().map(|t| (t.0, t.1)), Some((90, 54)));
    assert_eq!(
        import_image(&mut store, "/p/b.png", "b.png", &vec![0]),
        Err("import image /p/b.png".to_string())
    );
    assert_eq!(store.len(), 1);
}

#[test]
fn media_is_imported() {
    let mut store = AssetStore::new();
    let m = MediaInfo {
        has_video: true,
        has_audio: true,
        duration_us: 7,
        fps: Float64 { bits: 25.0f64.to_bits() },
        width: 1920,
        height: 1080,
        audio: Some((2, vec![f(0.5), f(0.0), f(-0.25), f(0.0)])),
    };
    assert_eq!(thumbnail_box(&m), Some((96, 54)));
    let id = import_media(&mut store, "/v.mp4", "v.mp4", &m, Some((1, 1, vec![0; 4]))).unwrap();
    let a = store.get(id).unwrap();
    assert_eq!((a.kind, a.sample_rate, a.channels), (AssetKind::Video, 48_000, 2));
    assert_eq!(a.peaks.len(), 2);
    assert!(a.thumb.is_some());
    let sound = MediaInfo { has_video: false, audio: None, ..m.clone() };
    assert_eq!(thumbnail_box(&sound), None);
    let id = import_media(&mut store, "/s.mp3", "s.mp3", &sound, None).unwrap();
    let a = store.get(id).unwrap();
    assert_eq!((a.kind, a.sample_rate, a.channels), (AssetKind::Audio, 0, 1));
    let none = MediaInfo { has_video: false, has_audio: false, ..m };
    assert_eq!(
        import_media(&mut store, "/x", "x", &none, None),
        Err("no supported video/audio stream in /x".to_string())
    );
}

#[test]
fn sizes_and_extensions() {
    for (w, h) in [(1920u32, 1080u32), (10, 2000), (4000, 3), (50, 50), (97, 54), (1, 1)] {
        let scale = (96.0f32 / w as f32).min(54.0 / h as f32);
        let want = (
            (w as f32 * scale).round().max(1.0) as u32,
            (h as f32 * scale).round().max(1.0) as u32,
        );
        let got = fit_box(w, h, 96, 54);
        assert_eq!(got, want);
        assert!(got.0 <= 96 && got.1 <= 54);
        assert!(got.0 == 96 || got.1 == 54);
    }
    assert_eq!(fit_box(48, 27, 96, 54), (96, 54));
    assert_eq!(fit_box(0, 9, 96, 54), (96, 54));
    assert_eq!(import_as("SRT"), ImportAs::Subtitles);
    assert_eq!(import_as("Jpeg"), ImportAs::Image);
    assert_eq!(import_as("mp4"), ImportAs::Media);
    assert_eq!(to_ascii_lower("ÄbC"), "Äbc");
}

#[test]
fn pictures_scaled_to_their_size_stay_as_they_are() {
    for (w, h) in [(1u32, 1u32), (7, 5), (32, 3)] {
        let src = ramp((w * h * 4) as usize);
        assert_eq!(scale_rgba(&src, w, h, w, h), src);
    }
}

#[test]
fn pictures_are_scaled() {
    let src = ramp(7 * 5 * 4);
    let (w, h, tw, th) = (7u32, 5u32, 4u32, 9u32);
    let got = scale_rgba(&src, w, h, tw, th);
    let (sx, sy) = (w as f32 / tw as f32, h as f32 / th as f32);
    let mut want = vec![0u8; (tw * th * 4) as usize];
    for y in 0..th {
        for x in 0..tw {
            let fx0 = (x as f32 + 0.5) * sx - 0.5;
            let fy0 = (y as f32 + 0.5) * sy - 0.5;
            let (x0, y0) = (fx0.max(0.0) as u32, fy0.max(0.0) as u32);
            let (x1, y1) = ((x0 + 1).min(w - 1), (y0 + 1).min(h - 1));
            let fx = (fx0 - x0 as f32).clamp(0.0, 1.0);
            let fy = (fy0 - y0 as f32).clamp(0.0, 1.0);
            for c in 0..4u32 {
                let at = |u: u32, v: u32| src[((v * w + u) * 4 + c) as usize] as f32;
                let (a, b, cc, d) = (at(x0, y0), at(x1, y0), at(x0, y1), at(x1, y1));
                let v = (a + (b - a) * fx + (cc - a) * fy + (a - b - cc + d) * fx * fy).clamp(0.0, 255.0);
                want[((y * tw + x) * 4 + c) as usize] = v as u8;
            }
        }
    }
    assert_eq!(got, want);
    assert_eq!(scale_rgba(&vec![9, 9, 9, 9], 1, 1, 2, 2), vec![9; 16]);
}

#[test]
fn decoding_helpers() {
    assert_eq!(pts_us(90, (1, 30)), 3_000_000);
    assert_eq!(pts_us(1001, (1, 90_000)), (1001.0 * 1.0 * 1_000_000.0 / 90_000.0f64) as i64);
    assert_eq!(frame_rate(30_000, 1001).bits, (30_000.0f64 / 1001.0).to_bits());
    assert_eq!(frame_rate(0, 1).bits, 0);
    assert_eq!(seek_before(None, 50), Some(0));
    assert_eq!(seek_before(Some(10), 500_000), None);
    assert_eq!(seek_before(Some(600_000), 500_000), Some(400_000));
    let c = choose_frame(None, 5, 100);
    assert!(c.keep && !c.stop);
    let c = choose_frame(Some(5), 90, 100);
    assert!(c.keep && !c.stop);
    let c = choose_frame(Some(90), 105, 100);
    assert!(c.keep && c.stop);
    let c = choose_frame(Some(98), 105, 100);
    assert!(!c.keep && c.stop);
    let mut bytes = 1.5f32.to_le_bytes().to_vec();
    bytes.extend_from_slice(&(-2.0f32).to_le_bytes());
    bytes.push(7);
    let fs = pcm_to_floats(&bytes);
    assert_eq!(fs.iter().map(|x| g(*x)).collect::<Vec<f32>>(), vec![1.5, -2.0]);
    let woven = interleave(&vec![vec![f(1.0), f(2.0)], vec![f(3.0)]]);
    assert_eq!(woven.iter().map(|x| g(*x)).collect::<Vec<f32>>(), vec![1.0, 3.0, 2.0, 0.0]);
}

#[test]
fn the_nearest_frame_is_found() {
    let times = [0i64, 40, 80, 120, 160];
    for want in -30..200i64 {
        let mut best: Option<i64> = None;
        for t in times {
            let c = choose_frame(best, t, want);
            if c.keep {
                best = Some(t);
            }
            if c.stop {
                break;
            }
        }
        // The first of the nearest: the earlier one on a tie.
        let nearest = times.iter().cloned().min_by_key(|t| (t - want).abs());
        assert_eq!(best, nearest);
    }
}

#[test]
fn decoders_are_drained() {
    assert!(decode_step(false, DecoderEvent::Frame) == DecoderAction::Give);
    assert!(decode_step(true, DecoderEvent::Frame) == DecoderAction::Give);
    assert!(decode_step(false, DecoderEvent::Empty) == DecoderAction::Feed);
    assert!(decode_step(true, DecoderEvent::Empty) == DecoderAction::End);
    assert!(decode_step(false, DecoderEvent::Fed) == DecoderAction::Receive);
    assert!(decode_step(false, DecoderEvent::Dry) == DecoderAction::Tell);
    assert!(decode_step(true, DecoderEvent::Told) == DecoderAction::Receive);
    // A decoder that holds one frame back gives all of its frames.
    let (mut packets, mut held, mut given) = (5, 0, 0);
    let mut told = false;
    let mut action = DecoderAction::Receive;
    loop {
        let event = match action {
            DecoderAction::Receive => {
                if held > 1 || (told && held > 0) {
                    held -= 1;
                    DecoderEvent::Frame
                } else {
                    DecoderEvent::Empty
                }
            }
            DecoderAction::Feed => {
                if packets > 0 {
                    packets -= 1;
                    held += 1;
                    DecoderEvent::Fed
                } else {
                    DecoderEvent::Dry
                }
            }
            DecoderAction::Tell => {
                told = true;
                DecoderEvent::Told
            }
            DecoderAction::Give => {
                given += 1;
                action = DecoderAction::Receive;
                continue;
            }
            DecoderAction::End => break,
        };
        action = decode_step(told, event);
    }
    assert_eq!((packets, held, given), (0, 0, 5));
}

#[test]
fn no_peak_is_lost() {
    let pcm: Vec<Float32> = (0..1000).map(|i| f(((i * 577) % 999) as f32 / 500.0 - 1.0)).collect();
    for (channels, bins) in [(1u32, 7usize), (2, 64), (3, 1000), (0, 1)] {
        let peaks = compute_peaks(&pcm, channels, bins);
        assert!(peaks.len() <= bins);
        let step = channels.max(1) as usize;
        let heard = || pcm.iter().step_by(step).take(pcm.len() / step).map(|x| g(*x));
        let low = peaks.iter().map(|p| g(p.0)).fold(0.0, f32::min);
        let high = peaks.iter().map(|p| g(p.1)).fold(0.0, f32::max);
        assert_eq!(low, heard().fold(0.0, f32::min));
        assert_eq!(high, heard().fold(0.0, f32::max));
    }
}

#[test]
fn peaks_of_samples() {
    let pcm: Vec<Float32> = (0..20).map(|i| f((i % 7) as f32 - 3.0)).collect();
    let peaks = compute_peaks(&pcm, 2, 3);
    // Ten samples of the first channel, four for each bin.
    let firsts: Vec<f32> = pcm.iter().step_by(2).map(|x| g(*x)).collect();
    let want: Vec<(f32, f32)> = firsts
        .chunks(4)
        .map(|c| (c.iter().cloned().fold(0.0, f32::min), c.iter().cloned().fold(0.0, f32::max)))
        .collect();
    assert_eq!(peaks.iter().map(|p| (g(p.0), g(p.1))).collect::<Vec<(f32, f32)>>(), want);
    assert!(compute_peaks(&pcm, 2, 0).is_empty());
    assert!(compute_peaks(&vec![f(1.0)], 2, 9).is_empty());
}

#[test]
fn thumbnails() {
    let frame = VideoFrame { pts_us: 0, width: 1, height: 2, rgba: vec![7; 12] };
    assert_eq!(video_thumbnail("v", Some(&frame)), Ok((1, 2, vec![7; 8])));
    assert_eq!(video_thumbnail("v", None), Err("no decodable frame in v".to_string()));
}

fn frame(pts: i64) -> VideoFrame {
    VideoFrame { pts_us: pts, width: 1, height: 1, rgba: vec![pts as u8; 4] }
}

#[test]
fn the_cache_shows_the_frame_before() {
    let mut c = FrameCache::new();
    assert!(c.nearest(1, 5, None).is_none());
    for p in [30, 10, 20] {
        c.insert(1, frame(p));
    }
    c.insert(2, frame(5));
    assert_eq!(c.nearest(1, 25, Some(25)).map(|f| f.pts_us), Some(20));
    assert_eq!(c.nearest(1, 20, None).map(|f| f.pts_us), Some(20));
    assert_eq!(c.nearest(1, 4, Some(15)).map(|f| f.pts_us), Some(10));
    assert!(c.nearest(1, 4, Some(9)).is_none());
    c.insert(1, VideoFrame { width: 9, ..frame(20) });
    assert_eq!(c.nearest(1, 20, None).map(|f| f.width), Some(9));
    assert_eq!(c.frames.len(), 4);
    c.retain_window(10, 20);
    assert!(c.nearest(2, 100, None).is_none());
    assert_eq!(c.nearest(1, 100, None).map(|f| f.pts_us), Some(20));
    assert_eq!(window_around(5_000_000), (2_000_000, 6_500_000));
    assert_eq!(window_around(1), (0, 1_500_001));
}

#[test]
fn the_decoder_goes_forward_where_it_can() {
    let req = |asset: u64, pts: i64| FrameRequest { asset, path: "v".into(), w: 4, h: 4, pts_us: pts };
    let mut s = DecodeState::new();
    let p = s.set_target(&req(1, 500_000));
    assert_eq!((p.reopen, p.seek, p.target), (true, Some(300_000), 500_000));
    assert!(s.decoded(400_000, p.target, 0));
    assert!(!s.decoded(500_000, p.target, 1));
    assert!(!s.decoded(400_000, 500_000, 601));
    let p = s.set_target(&req(1, 900_000));
    assert_eq!((p.reopen, p.seek), (false, None));
    let p = s.set_target(&req(1, -5));
    assert_eq!((p.reopen, p.seek, p.target), (false, Some(0), 0));
    let p = s.set_target(&req(2, 900_000));
    assert_eq!((p.reopen, p.seek), (true, Some(700_000)));
}

#[test]
fn keyframes_are_followed() {
    let t = |x: f32| Transform { x: f(x), y: f(2.0 * x), scale: f(1.0), rotate: f(-x) };
    let mut c = VideoClip { transform: t(9.0), ..VideoClip::default() };
    assert_eq!(g(effective_transform(&c, 5).x), 9.0);
    c.keyframes = vec![
        TransformKeyframe { t_us: 10, transform: t(0.0) },
        TransformKeyframe { t_us: 20, transform: t(1.0) },
        TransformKeyframe { t_us: 40, transform: t(3.0) },
    ];
    assert_eq!(g(effective_transform(&c, 0).x), 0.0);
    assert_eq!(g(effective_transform(&c, 99).x), 3.0);
    let r = effective_transform(&c, 13);
    let k = ((13.0f64 - 10.0) / 10.0) as f32;
    assert_eq!([g(r.x), g(r.y), g(r.rotate)], [k, 2.0 * k, -k]);
    assert_eq!(g(effective_transform(&c, 30).x), 2.0);
}

#[test]
fn layers_and_frames() {
    let mut p = Project::new();
    let rgba = ramp(4 * 4 * 4);
    let id = import_image(&mut p.assets, "/a.png", "a.png", &png(4, 4, &rgba)).unwrap();
    p.video_tracks[0].clips = vec![
        VideoClip { asset: id, source_out: 100, ..VideoClip::default() },
        VideoClip { asset: id, source_out: 100, timeline_start: 100, transition_us: 40, ..VideoClip::default() },
    ];
    assert!(p.can_layer_at(10));
    let l = p.layers(10);
    assert_eq!(l.len(), 1);
    assert_eq!((l[0].clip, l[0].source_pts, g(l[0].alpha)), (0, 10, 1.0));
    // The end of the first clip fades towards the second.
    assert_eq!(g(p.layers(80)[0].alpha), 0.5);
    assert_eq!(g(p.layers(110)[0].alpha), 0.25);
    assert!(p.layers(100).is_empty());
    assert!(p.layers(200).is_empty());
    let turns = vec![(f(1.0), f(0.0))];
    let fetched: Vec<Option<&VideoFrame>> = vec![None];
    let out = compose_frame(&p, 8, 6, &l, &fetched, &turns);
    let mut want = vec![0u8; 8 * 6 * 4];
    clear_buffer(&mut want);
    let c = &p.video_tracks[0].clips[0];
    let look = Look {
        opacity: f(1.0), grade: c.grade, flip_x: false, flip_y: false, cos: f(1.0), sin: f(0.0),
    };
    blend_scaled(&rgba, 4, 4, &mut want, 8, 6, &c.transform, &look, &c.crop, c.blend);
    assert_eq!(out, want);
    let cache = FrameCache::new();
    let comp = Composition { project: &p, cache: &cache, w: 8, h: 6 };
    assert_eq!(comp.render_at(&l, &turns), Some(want));
    assert!(bytes_fit(1 << 15, 1 << 14) && !bytes_fit(1 << 15, 1 << 15));
}

#[test]
fn layers_ask_for_frames() {
    let mut p = Project::new();
    let image = import_image(&mut p.assets, "/a.png", "a.png", &png(1, 1, &[0; 4])).unwrap();
    let m = MediaInfo {
        has_video: true,
        has_audio: false,
        duration_us: 9000,
        fps: Float64 { bits: 25.0f64.to_bits() },
        width: 4,
        height: 4,
        audio: None,
    };
    let video = import_media(&mut p.assets, "/v.mp4", "v.mp4", &m, None).unwrap();
    p.video_tracks[0].clips = vec![
        VideoClip { asset: image, source_out: 100, ..VideoClip::default() },
        VideoClip {
            asset: video,
            source_in: 50,
            source_out: 150,
            timeline_start: 100,
            ..VideoClip::default()
        },
    ];
    // An image needs none, a video the one at the time in its source.
    assert!(source_request(&p, &p.layers(10)[0]).is_none());
    let l = p.layers(130);
    let r = source_request(&p, &l[0]).unwrap();
    assert_eq!((r.asset, r.path.as_str(), r.pts_us), (video.0, "/v.mp4", 80));
    p.assets = AssetStore::new();
    assert!(source_request(&p, &l[0]).is_none());
}

fn cells(text: &str) -> Vec<Cell> {
    text.chars().map(|c| Cell { c, advance: f(if c == 'i' { 4.0 } else { 10.0 }) }).collect()
}

const BLANK: Cell = Cell { c: ' ', advance: Float32 { bits: 0x40a0_0000 } };

fn texts(lines: &[Vec<Cell>]) -> Vec<String> {
    lines.iter().map(|l| l.iter().map(|c| c.c).collect()).collect()
}

#[test]
fn lines_are_wrapped() {
    let l = lines_of(&cells("ab cd  ef\nlonger\n\nx"), BLANK, f(45.0));
    assert_eq!(texts(&l), vec!["ab cd", "ef", "longer", "x"]);
    let l = lines_of(&cells("ab  cd\n"), BLANK, f(0.0));
    assert_eq!(texts(&l), vec!["ab  cd", ""]);
}

#[test]
fn texts_are_laid_out() {
    let style = TextStyle {
        font_size: f(20.0),
        align: TextAlign::Right,
        background: [1, 2, 3, 4],
        box_padding: f(3.0),
        ..TextStyle::default()
    };
    let m = FontMetrics { height: f(24.0), ascent: f(18.0) };
    let t = Transform { x: f(0.5), y: f(0.25), scale: f(1.0), rotate: f(0.0) };
    let l = lay_out(&cells("ab\ni"), BLANK, &style, m, &t, 200, 100, f(1.0), f(0.0), f(1.0)).unwrap();
    assert_eq!((g(l.cx), g(l.cy)), (100.0, 25.0));
    let total_h = 24.0f32 * 2.0 + 5.0;
    let base = 25.0 - total_h / 2.0 + 18.0 + 10.0;
    let at: Vec<(char, f32, f32)> = l.glyphs.iter().map(|k| (k.c, g(k.x), g(k.y))).collect();
    assert_eq!(at, vec![('a', 90.0, base), ('b', 100.0, base), ('i', 106.0, base + 29.0)]);
    let b = l.background.unwrap();
    assert_eq!((g(b.cx), g(b.cy), g(b.hw), g(b.hh)), (100.0, 25.0, 13.0, total_h / 2.0 + 3.0));
    let typed = TextStyle { typewriter: true, ..style };
    let l = lay_out(&cells("ab\ni"), BLANK, &typed, m, &t, 200, 100, f(1.0), f(0.0), f(0.7)).unwrap();
    assert_eq!(l.glyphs.len(), 2);
}

#[test]
fn strokes_of_glyphs() {
    let mut style = TextStyle { shadow: false, outline_width: f(0.0), ..TextStyle::default() };
    assert_eq!(glyph_strokes(&style).len(), 1);
    style.shadow = true;
    style.outline_width = f(2.0);
    style.outline_color = [5, 6, 7, 8];
    let s = glyph_strokes(&style);
    assert_eq!(s.len(), 10);
    assert_eq!((g(s[0].ox), g(s[0].strength), s[0].color), (2.0, 0.35, [0, 0, 0, 255]));
    assert_eq!((g(s[1].ox), g(s[1].oy), s[1].color), (2.0, 0.0, [5, 6, 7, 255]));
    assert_eq!((g(s[8].ox), g(s[8].oy)), (-2.0 * 0.7, -2.0 * 0.7));
    assert_eq!((g(s[9].ox), s[9].color), (0.0, style.color));
}

#[test]
fn texts_show_in_their_time() {
    let mut p = Project::new();
    p.text_tracks[0].clips.push(TextClip { text: "hello".into(), timeline_start: 10, timeline_end: 30, ..TextClip::default() });
    p.text_tracks[0].clips[0].style.typewriter = true;
    assert!(p.can_show_texts());
    assert!(p.texts(9).is_empty() && p.texts(30).is_empty());
    let l = p.texts(15);
    assert_eq!((l.len(), g(l[0].reveal)), (1, 0.25));
}
