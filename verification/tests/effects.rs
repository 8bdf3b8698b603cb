//! The effects with single-precision curves.

use moranima::audio::{get_envelope, Reckoning, AUDIO_SR};
use moranima::background::remove_background;
use moranima::blink::{closeness_at, warp_eye, LidColumn};
use moranima::canvas::{Rgba, RgbaImage};
use moranima::cover::cover;
use moranima::motion::{animate_bg, taps, BgMotion, Taps};
use moranima::poly::{outline_mask, point_in_poly, Mask};
use moranima::talk::jaw_drop;

const TAU: f32 = std::f32::consts::TAU;
const BLINK_LEN: f32 = 0.35;
const MEET: f32 = 0.72;

fn ease(t: f32) -> f32 {
    let t = t.clamp(0.0, 1.0);
    t * t * (3.0 - 2.0 * t)
}

fn blink_curve(x: f32) -> f32 {
    if !(0.0..BLINK_LEN).contains(&x) {
        return 0.0;
    }
    let x = x / BLINK_LEN;
    if x < 0.4 {
        ease(x / 0.4)
    } else if x < 0.55 {
        1.0
    } else {
        ease(1.0 - (x - 0.55) / 0.45)
    }
}

fn closeness(t: f32, starts: &[f32]) -> f32 {
    closeness_at(&starts.to_vec(), 0.0, &|shut: f32, s: f32| shut.max(blink_curve(t - s)))
}

fn cells(coords: Vec<f32>) -> Vec<(u32, u32)> {
    coords
        .into_iter()
        .map(|c| (c.floor().max(0.0) as u32, c.ceil().max(0.0) as u32))
        .collect()
}

fn inside(poly: &[(f32, f32)], x: u32, y: u32) -> bool {
    let (px, py) = (x as f32 + 0.5, y as f32 + 0.5);
    let n = poly.len();
    let below: Vec<bool> = poly.iter().map(|p| p.1 > py).collect();
    let left: Vec<bool> = (0..n)
        .map(|i| {
            let (xi, yi) = poly[i];
            let (xj, yj) = poly[(i + n - 1) % n];
            px < (xj - xi) * (py - yi) / (yj - yi) + xi
        })
        .collect();
    point_in_poly(&below, &left)
}

fn mask(poly: &[(f32, f32)], w: u32, h: u32) -> Option<Mask> {
    let xs = cells(poly.iter().map(|p| p.0).collect());
    let ys = cells(poly.iter().map(|p| p.1).collect());
    outline_mask(&xs, &ys, w, h, |x, y| inside(poly, x, y))
}

fn jaw(img: &RgbaImage, poly: &[(f32, f32)], amplitude: f32, jaw_pct: f32, inner: [u8; 3]) -> RgbaImage {
    let min_y = poly.iter().map(|p| p.1).fold(f32::MAX, f32::min);
    let max_y = poly.iter().map(|p| p.1).fold(f32::MIN, f32::max);
    let drop = ((max_y - min_y).max(1.0) * jaw_pct * amplitude).round() as u32;
    let m = mask(poly, img.width(), img.height());
    jaw_drop(img, poly.len(), !(amplitude <= 0.001), m.as_ref(), drop, inner)
}

fn mix(t: Taps, (fx, fy): (f32, f32)) -> Rgba {
    let blend = |p00: u8, p10: u8, p01: u8, p11: u8| {
        let top = p00 as f32 * (1.0 - fx) + p10 as f32 * fx;
        let bot = p01 as f32 * (1.0 - fx) + p11 as f32 * fx;
        (top * (1.0 - fy) + bot * fy).round() as u8
    };
    Rgba::new(
        blend(t.p00.r, t.p10.r, t.p01.r, t.p11.r),
        blend(t.p00.g, t.p10.g, t.p01.g, t.p11.g),
        blend(t.p00.b, t.p10.b, t.p01.b, t.p11.b),
        blend(t.p00.a, t.p10.a, t.p01.a, t.p11.a),
    )
}

fn locate(w: u32, h: u32, x: f32, y: f32) -> (u32, u32, (f32, f32)) {
    let x = x.clamp(0.0, (w - 1) as f32);
    let y = y.clamp(0.0, (h - 1) as f32);
    let (x0, y0) = (x.floor() as u32, y.floor() as u32);
    (x0, y0, (x - x0 as f32, y - y0 as f32))
}

fn bilinear(img: &RgbaImage, x: f32, y: f32) -> Rgba {
    let (x0, y0, f) = locate(img.width(), img.height(), x, y);
    mix(taps(img, x0, y0), f)
}

fn shade(p: Rgba, k: f32) -> Rgba {
    let dim = |c: u8| (c as f32 * k) as u8;
    Rgba::new(dim(p.r), dim(p.g), dim(p.b), p.a)
}

fn lid(open: &RgbaImage, c: f32, col: LidColumn, x: u32, y: u32, orig: Rgba) -> Rgba {
    let ce = ease(c);
    let (t, b) = (col.top as f32 / 4.0, col.bottom as f32 / 4.0);
    let maxh = col.tallest as f32 / 4.0;
    let meet = t + MEET * (b - t);
    let u = t + ce * (meet - t);
    let l = b - ce * (b - meet);
    let corner = ((b - t) / (0.35 * maxh)).clamp(0.0, 1.0);
    let yf = y as f32;
    let mut px = if yf < u {
        let p = bilinear(open, x as f32, t - 1.5 - (u - yf) * 0.3);
        let depth = if u > t { ((yf - t) / (u - t)).clamp(0.0, 1.0) } else { 1.0 };
        shade(p, 1.0 - 0.14 * depth * ce)
    } else if yf > l {
        shade(bilinear(open, x as f32, b + 1.5 + (yf - l) * 0.3), 1.0 - 0.06 * ce)
    } else {
        bilinear(open, x as f32, t + (yf - u) / (l - u).max(0.01) * (b - t))
    };
    let d = (yf - u).abs();
    if d < 1.8 {
        px = shade(px, 1.0 - 0.45 * ce * corner * (1.0 - d / 1.8));
    }
    let fd = (yf - t).min(col.edge as f32).max(0.0);
    let w = ease((fd / 1.5).min(1.0));
    let soft = |o: u8, p: u8| (o as f32 * (1.0 - w) + p as f32 * w).round() as u8;
    Rgba::new(soft(orig.r, px.r), soft(orig.g, px.g), soft(orig.b, px.b), orig.a)
}

fn warp(frame: &mut RgbaImage, open: &RgbaImage, poly: &[(f32, f32)], c: f32) {
    let m = mask(poly, open.width(), open.height());
    let paint = |_: usize, col: LidColumn, x: u32, y: u32, p: Rgba| lid(open, c, col, x, y, p);
    warp_eye(frame, open, poly.len(), !(c <= 0.0), m.as_ref(), &paint, 0);
}

fn moved(img: &RgbaImage, t: f32, kind: BgMotion, speed: f32, amount: f32) -> RgbaImage {
    let (w, h) = img.dimensions();
    let (cx, cy) = (w as f32 / 2.0, h as f32 / 2.0);
    let ph = TAU * 0.05 * speed * t;
    let (z, rot, dx, dy, tilt) = match kind {
        BgMotion::Static => (1.0, 0.0, 0.0, 0.0, 0.0),
        BgMotion::Zoom => (1.0 + amount * 0.12 * (0.5 + 0.5 * (ph * 2.0).sin()), 0.0, 0.0, 0.0, 0.0),
        BgMotion::Drift => (
            1.0 + amount * 0.08,
            0.0,
            amount * 0.05 * w as f32 * (ph * 2.0).sin(),
            amount * 0.03 * h as f32 * (ph * 1.3).cos(),
            0.0,
        ),
        BgMotion::Sway => (1.0 + amount * 0.06, amount * 0.035 * (ph * 2.0).sin(), 0.0, 0.0, 0.0),
        BgMotion::Tilt => (1.0 + amount * 0.1, 0.0, 0.0, 0.0, amount * 0.25 * (ph * 2.0).sin()),
    };
    let (sinr, cosr) = f32::sin_cos(rot);
    let find = |x: u32, y: u32| {
        let yr = y as f32 - cy;
        let persp = 1.0 + tilt * (yr / h as f32);
        let xr = (x as f32 - cx) * persp;
        let sx = (xr * cosr - yr * sinr) / z + cx - dx;
        let sy = (xr * sinr + yr * cosr) / z + cy - dy;
        locate(w, h, sx, sy)
    };
    animate_bg(img, kind, !(amount <= 0.0), find, mix)
}

fn fill(img: &RgbaImage, w: u32, h: u32) -> RgbaImage {
    let (iw, ih) = img.dimensions();
    let s = (w as f32 / iw as f32).max(h as f32 / ih as f32);
    cover(img, (iw as f32 * s).ceil() as u32, (ih as f32 * s).ceil() as u32, w, h)
}

fn cleared(img: &RgbaImage, tolerance: f32) -> (RgbaImage, u64) {
    remove_background(img, Some((tolerance * tolerance) as u32))
}

type Memory = (f64, f64, f64, f64);

/// The coefficients of a 60–5000 Hz band pass.
fn bandpass() -> [f64; 4] {
    let (f_low, f_high, fs) = (60.0f64, 5000.0f64, AUDIO_SR as f64);
    let f0 = (f_low * f_high).sqrt();
    let bw = (f_high - f_low) / f0;
    let w0 = 2.0 * std::f64::consts::PI * f0 / fs;
    let alpha = w0.sin() * (2.0f64.ln() / 2.0 * bw * w0 / w0.sin()).sinh();
    let a0 = 1.0 + alpha;
    [alpha / a0, -alpha / a0, -2.0 * w0.cos() / a0, (1.0 - alpha) / a0]
}

fn envelope(audio: &Vec<f64>, fps: f32, sensitivity: f64, gate: f64, kernel: Option<&Vec<f64>>) -> Vec<f32> {
    let [b0, b2, a1, a2] = bandpass();
    let by = Reckoning {
        step: |(x1, x2, y1, y2): Memory, x: f64| {
            let y = b0 * x + b2 * x2 - a1 * y1 - a2 * y2;
            ((x, x1, y, y1), y)
        },
        gather: |sum: f64, x: f64| sum + x * x,
        mean: |sum: f64, n: usize| (sum / n as f64).sqrt(),
        greater: |a: f64, b: f64| a.max(b),
        positive: |a: f64| a > 0.0,
        divide: |a: f64, b: f64| a / b,
        shape: |v: f64| {
            let v = (v * sensitivity).clamp(0.0, 1.0);
            let v = if v < gate { 0.0 } else { (v - gate) / (1.0 - gate + 1e-6) };
            v.clamp(0.0, 1.0).powf(1.1)
        },
        weigh: |sum: f64, (v, k): (f64, f64)| sum + v * k,
    };
    let spf = AUDIO_SR as f64 / fps as f64;
    let n_frames = (audio.len() as f64 / spf).ceil() as usize;
    let windows: Vec<(usize, usize)> = (0..n_frames)
        .map(|i| {
            let start = (i as f64 * spf) as usize;
            (start, ((start as f64 + spf).min(audio.len() as f64)) as usize)
        })
        .collect();
    get_envelope(audio, (0.0, 0.0, 0.0, 0.0), &windows, 0.0, kernel, &by)
        .into_iter()
        .map(|v| v as f32)
        .collect()
}

#[test]
fn blink_curve_bounded_and_returns_to_zero() {
    let starts = [0.0, 3.0];
    for i in 0..1000 {
        let c = closeness(i as f32 * 0.01, &starts);
        assert!((0.0..=1.0).contains(&c));
    }
    assert_eq!(closeness(1.0, &starts), 0.0); // between blinks
    assert!(closeness(0.175, &starts) > 0.9); // mid-blink hold
    assert!(closeness(3.175, &starts) > 0.9); // second blink fires
}

#[test]
fn background_removal_clears_border_color_only() {
    let mut img = RgbaImage::from_pixel(20, 20, Rgba::new(255, 255, 255, 255));
    for y in 5..15 {
        for x in 5..15 {
            img.put_pixel(x, y, Rgba::new(200, 30, 30, 255));
        }
    }
    let (out, n) = cleared(&img, 30.0);
    assert_eq!(n, 300); // 400 - 100 subject pixels
    assert_eq!(out.get_pixel(0, 0).a, 0);
    assert_eq!(out.get_pixel(10, 10).a, 255);
}

#[test]
fn jaw_drop_fills_polygon_and_shifts_content() {
    let img = RgbaImage::from_pixel(30, 30, Rgba::new(100, 150, 200, 255));
    let poly = vec![(5.0, 5.0), (25.0, 5.0), (25.0, 15.0), (5.0, 15.0)];
    let out = jaw(&img, &poly, 1.0, 0.5, [0, 0, 0]);
    assert_eq!(out.get_pixel(10, 6), Rgba::new(0, 0, 0, 255)); // inner fill
    assert_eq!(out.get_pixel(10, 20), Rgba::new(100, 150, 200, 255)); // shifted content
    // amplitude 0 = no-op
    assert_eq!(jaw(&img, &poly, 0.0, 0.5, [0, 0, 0]), img);
}

#[test]
fn envelope_follows_loudness() {
    // 1 s: 0.5 s of 440 Hz tone, then 0.5 s silence.
    let sr = AUDIO_SR as usize;
    let audio: Vec<f64> = (0..sr)
        .map(|i| {
            if i < sr / 2 {
                (TAU as f64 * 440.0 * i as f64 / sr as f64).sin() * 0.8
            } else {
                0.0
            }
        })
        .collect();
    let env = envelope(&audio, 10.0, 1.75, 0.015, None);
    assert_eq!(env.len(), 10);
    assert!(env[2] > 0.5, "tone frames should be loud, got {}", env[2]);
    assert!(env[8] < 0.05, "silent frames should be gated, got {}", env[8]);
    assert!(env.iter().all(|v| (0.0..=1.0).contains(v)));
}

#[test]
fn a_smoothed_envelope_reaches_its_peak_again() {
    let audio: Vec<f64> = (0..4410).map(|i| (i as f64 * 0.1).sin()).collect();
    let kernel = vec![0.25, 0.5, 0.25];
    let env = envelope(&audio, 100.0, 1.0, 0.0, Some(&kernel));
    assert_eq!(env.len(), 10);
    assert_eq!(env.iter().cloned().fold(0.0, f32::max), 1.0);
}

#[test]
fn animate_bg_keeps_dims_and_static_is_identity() {
    let img = RgbaImage::from_pixel(40, 30, Rgba::new(9, 9, 9, 255));
    assert_eq!(moved(&img, 1.0, BgMotion::Static, 1.0, 1.0), img);
    for kind in [BgMotion::Zoom, BgMotion::Drift, BgMotion::Sway, BgMotion::Tilt] {
        assert_eq!(moved(&img, 1.3, kind, 1.0, 0.8).dimensions(), (40, 30));
    }
}

#[test]
fn a_motion_without_amount_is_identity() {
    let mut img = RgbaImage::from_pixel(4, 3, Rgba::new(9, 9, 9, 255));
    img.put_pixel(2, 1, Rgba::new(200, 0, 0, 255));
    assert_eq!(moved(&img, 1.3, BgMotion::Zoom, 1.0, 0.0), img);
    assert_ne!(moved(&img, 1.3, BgMotion::Drift, 1.0, 3.0), img);
}

#[test]
fn cover_crops_to_exact_dims() {
    let img = RgbaImage::from_pixel(100, 50, Rgba::new(1, 2, 3, 255));
    assert_eq!(fill(&img, 30, 60).dimensions(), (30, 60));
    assert_eq!(fill(&img, 200, 20).dimensions(), (200, 20));
}

#[test]
fn warp_eye_preserves_alpha_and_stays_in_bbox() {
    let img = RgbaImage::from_pixel(30, 30, Rgba::new(180, 140, 120, 255));
    let mut frame = img.clone();
    let poly = vec![(8.0, 10.0), (22.0, 10.0), (22.0, 18.0), (8.0, 18.0)];
    warp(&mut frame, &img, &poly, 1.0);
    assert_ne!(frame, img); // it did something
    assert_eq!(frame.get_pixel(0, 0), Rgba::new(180, 140, 120, 255)); // outside untouched
    for p in frame.pixels() {
        assert_eq!(p.a, 255);
    }
}

#[test]
fn an_open_eye_or_a_line_is_left_alone() {
    let img = RgbaImage::from_pixel(30, 30, Rgba::new(180, 140, 120, 255));
    let mut frame = img.clone();
    let poly = vec![(8.0, 10.0), (22.0, 10.0), (22.0, 18.0), (8.0, 18.0)];
    warp(&mut frame, &img, &poly, 0.0);
    assert_eq!(frame, img);
    warp(&mut frame, &img, &poly[..2], 1.0);
    assert_eq!(frame, img);
}

#[test]
fn faint_pixels_are_left_alone_by_the_lids() {
    let img = RgbaImage::from_pixel(30, 30, Rgba::new(180, 140, 120, 8));
    let mut frame = img.clone();
    let poly = vec![(8.0, 10.0), (22.0, 10.0), (22.0, 18.0), (8.0, 18.0)];
    warp(&mut frame, &img, &poly, 1.0);
    assert_eq!(frame, img);
}
