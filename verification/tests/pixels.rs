//! Pictures: raw bytes, compositing, clearing, talking, visualizers and frames.

use moranima::background::{border_colors, clear_colors, remove_background};
use moranima::blink::{closeness_at, column_extents, edge_distances, eye_shape, smooth, LidColumn};
use moranima::canvas::{holds, Rgba, RgbaImage};
use moranima::compose::{flatten, over};
use moranima::cover::{cover, crop, resamples, resize};
use moranima::frame::{render_frame, RenderCfg};
use moranima::motion::{taps, BgMotion};
use moranima::poly::{bbox, outline_mask, point_in_poly, Bounds, Mask};
use moranima::talk::jaw_drop;
use moranima::viz::{glow, hash01, hsv, render_viz, Bar, Dot, Scene, Star, VizKind};

const RED: Rgba = Rgba { r: 200, g: 0, b: 0, a: 255 };
const BLUE: Rgba = Rgba { r: 0, g: 0, b: 200, a: 255 };
const CLEAR: Rgba = Rgba { r: 0, g: 0, b: 0, a: 0 };

/// Every pixel tells its place.
fn chart(w: u32, h: u32) -> RgbaImage {
    let mut img = RgbaImage::from_pixel(w, h, CLEAR);
    for y in 0..h {
        for x in 0..w {
            img.put_pixel(x, y, Rgba::new(x as u8, y as u8, 7, 255));
        }
    }
    img
}

fn square() -> Mask {
    Mask::trace(Bounds { x0: 1, y0: 1, x1: 3, y1: 2 }, |_, _| true)
}

fn cfg() -> RenderCfg<f32> {
    RenderCfg {
        blink_on: false,
        eye_polys: vec![],
        blink_starts: vec![],
        talk_on: false,
        mouth_poly: vec![],
        jaw_pct: 0.5,
        talk_amount: 1.0,
        inner_color: [1, 2, 3],
        talk_env: None,
        fps: 10.0,
        viz_on: false,
        viz_kind: VizKind::Bars,
        viz_speed: 1.0,
        viz_hue: 200.0,
        bg_motion: BgMotion::Static,
        bg_motion_speed: 1.0,
        bg_motion_amount: 0.5,
    }
}

fn plain(_: usize, _: LidColumn, _: u32, _: u32, p: Rgba) -> Rgba {
    p
}

#[test]
fn raw_bytes_make_the_picture_again() {
    let img = chart(3, 2);
    let raw = img.to_raw();
    assert_eq!(raw.len(), 24);
    assert_eq!(&raw[4..8], &[1, 0, 7, 255]);
    assert_eq!(RgbaImage::from_raw(3, 2, &raw), Some(img));
    assert_eq!(RgbaImage::from_raw(3, 3, &raw), None);
    assert_eq!(RgbaImage::from_pixels(2, 2, vec![RED; 3]), None);
}

#[test]
fn an_opaque_pixel_hides_and_a_clear_one_shows() {
    let mut bg = RgbaImage::from_pixels(2, 1, vec![RED, RED]).unwrap();
    let fg = RgbaImage::from_pixels(2, 1, vec![BLUE, Rgba { a: 0, ..BLUE }]).unwrap();
    over(&mut bg, &fg);
    assert_eq!(bg.pixels(), &vec![BLUE, RED]);
}

#[test]
fn compositing_keeps_the_alpha_below() {
    let mut bg = RgbaImage::from_pixel(1, 1, Rgba::new(10, 20, 30, 77));
    over(&mut bg, &RgbaImage::from_pixel(1, 1, Rgba::new(110, 120, 130, 51)));
    assert_eq!(bg.get_pixel(0, 0), Rgba::new(30, 40, 50, 77));
}

#[test]
fn flattening_twice_changes_nothing_more() {
    let img = RgbaImage::from_pixels(2, 1, vec![Rgba::new(9, 8, 7, 100), RED]).unwrap();
    let once = flatten(&img, [50, 60, 70]);
    assert_eq!(flatten(&once, [0, 0, 0]), once);
}

#[test]
fn the_two_most_common_border_colors_are_found() {
    let mut img = RgbaImage::from_pixel(4, 4, RED);
    for x in 0..4 {
        img.put_pixel(x, 0, BLUE);
    }
    img.put_pixel(0, 2, Rgba::new(1, 1, 1, 255));
    img.put_pixel(1, 1, Rgba::new(9, 9, 9, 255));
    let found = border_colors(&img);
    assert_eq!(found.len(), 2);
    assert_eq!((found[0].r, found[0].g, found[0].b), (200, 0, 0));
    assert_eq!((found[1].r, found[1].g, found[1].b), (0, 0, 200));
}

#[test]
fn a_corner_counts_once() {
    let black = Rgba::new(0, 0, 0, 255);
    let green = Rgba::new(0, 200, 0, 255);
    let mut img = RgbaImage::from_pixel(4, 4, black);
    img.put_pixel(0, 0, green);
    img.put_pixel(3, 0, green);
    for (x, y) in [(1, 0), (2, 0), (0, 1)] {
        img.put_pixel(x, y, RED);
    }
    for (x, y) in [(1, 1), (2, 1), (1, 2), (2, 2)] {
        img.put_pixel(x, y, BLUE);
    }
    assert_eq!(border_colors(&img), vec![black, RED]);
    let (out, n) = remove_background(&img, Some(100));
    assert_eq!(n, 10);
    assert_eq!((out.get_pixel(1, 0).a, out.get_pixel(0, 0).a), (0, 255));
}

#[test]
fn narrow_pictures_are_all_border() {
    let row = RgbaImage::from_pixels(3, 1, vec![RED, BLUE, BLUE]).unwrap();
    assert_eq!(border_colors(&row), vec![BLUE, RED]);
    let column = RgbaImage::from_pixels(1, 3, vec![RED, BLUE, BLUE]).unwrap();
    assert_eq!(border_colors(&column), vec![BLUE, RED]);
    assert_eq!(border_colors(&RgbaImage::from_pixel(1, 1, RED)), vec![RED]);
}

#[test]
fn clearing_goes_by_the_squared_distance() {
    let img = RgbaImage::from_pixels(3, 1, vec![Rgba::new(3, 4, 0, 9), Rgba::new(3, 5, 0, 9), CLEAR]).unwrap();
    let (out, n) = clear_colors(&img, &vec![CLEAR], Some(25));
    assert_eq!(n, 2);
    assert_eq!(out.pixels()[0], Rgba::new(3, 4, 0, 0));
    assert_eq!(out.pixels()[1], Rgba::new(3, 5, 0, 9));
    assert_eq!(clear_colors(&out, &vec![CLEAR], Some(25)), (out, n));
}

#[test]
fn without_a_distance_nothing_is_cleared() {
    let img = RgbaImage::from_pixel(3, 3, RED);
    assert_eq!(remove_background(&img, None), (img.clone(), 0));
    let (out, n) = remove_background(&img, Some(0));
    assert_eq!((out.get_pixel(1, 1).a, n), (0, 9));
}

#[test]
fn an_empty_picture_has_no_border() {
    let img = RgbaImage::from_pixel(0, 0, RED);
    assert_eq!(remove_background(&img, Some(900)), (img.clone(), 0));
}

#[test]
fn a_point_is_inside_after_an_odd_number_of_crossings() {
    // a square around the point: two edges cross its row, one to its right
    let below = vec![false, false, true, true];
    assert!(point_in_poly(&below, &vec![true, true, false, true]));
    assert!(!point_in_poly(&below, &vec![true, true, true, true]));
    assert!(!point_in_poly(&below, &vec![false, true, false, true]));
    assert!(!point_in_poly(&vec![false; 3], &vec![true; 3]));
}

#[test]
fn the_box_is_cut_to_the_picture() {
    let xs = vec![(2, 3), (9, 10)];
    let ys = vec![(1, 1), (4, 5)];
    assert_eq!(bbox(&xs, &ys, 8, 20), Some(Bounds { x0: 2, y0: 1, x1: 7, y1: 5 }));
    assert_eq!(bbox(&xs, &ys, 3, 20), None);
    assert_eq!(bbox(&vec![], &vec![], 8, 8), None);
}

#[test]
fn a_mask_covers_what_is_inside() {
    let m = outline_mask(&vec![(0, 0), (3, 3)], &vec![(0, 0), (3, 3)], 9, 9, |x, y| x > y).unwrap();
    assert!(m.contains(2, 1));
    assert!(!m.contains(1, 2));
    assert!(!m.contains(8, 1));
    assert_eq!(m.bounds(), Bounds { x0: 0, y0: 0, x1: 3, y1: 3 });
}

#[test]
fn columns_span_their_covered_rows() {
    let m = Mask::trace(Bounds { x0: 2, y0: 1, x1: 4, y1: 5 }, |x, y| x != 3 && y > 1 && y < x);
    assert_eq!(column_extents(&m), vec![None, None, Some((2, 3))]);
}

#[test]
fn lids_are_smoothed_in_quarters() {
    assert_eq!(smooth(&vec![Some(4), Some(6), Some(9)]), vec![Some(18), Some(25), Some(33)]);
    assert_eq!(smooth(&vec![None, Some(6), Some(9)]), vec![None, Some(24), Some(33)]);
}

#[test]
fn corners_are_counted_from_both_sides() {
    let present = vec![true, true, true, false, true];
    assert_eq!(edge_distances(&present), vec![1, 2, 1, 0, 1]);
}

#[test]
fn an_eye_knows_its_tallest_column() {
    let shape = eye_shape(&Mask::trace(Bounds { x0: 0, y0: 0, x1: 2, y1: 4 }, |_, _| true));
    assert_eq!(shape.tallest, 16);
    assert_eq!(shape.columns[1], Some(LidColumn { top: 0, bottom: 16, tallest: 16, edge: 2 }));
}

#[test]
fn the_jaw_moves_visible_pixels_only() {
    let mut img = chart(5, 5);
    img.put_pixel(2, 2, CLEAR);
    let m = square();
    let out = jaw_drop(&img, 4, true, Some(&m), 2, [9, 9, 9]);
    assert_eq!(out.get_pixel(1, 1), Rgba::new(9, 9, 9, 255));
    assert_eq!(out.get_pixel(1, 3), Rgba::new(1, 1, 7, 255));
    assert_eq!(out.get_pixel(2, 4), Rgba::new(2, 4, 7, 255));
    assert_eq!(out.get_pixel(0, 3), Rgba::new(0, 3, 7, 255));
}

#[test]
fn a_jaw_that_cannot_move_changes_nothing() {
    let img = chart(5, 5);
    let m = square();
    assert_eq!(jaw_drop(&img, 2, true, Some(&m), 2, [9, 9, 9]), img);
    assert_eq!(jaw_drop(&img, 4, false, Some(&m), 2, [9, 9, 9]), img);
    assert_eq!(jaw_drop(&img, 4, true, None, 2, [9, 9, 9]), img);
    assert_eq!(jaw_drop(&img, 4, true, Some(&m), 0, [9, 9, 9]), img);
}

#[test]
fn a_jaw_dropped_off_the_picture_leaves_the_fill() {
    let img = chart(5, 5);
    let out = jaw_drop(&img, 4, true, Some(&square()), u32::MAX, [9, 9, 9]);
    assert_eq!(out.get_pixel(3, 2), Rgba::new(9, 9, 9, 255));
    assert_eq!(out.get_pixel(3, 4), img.get_pixel(3, 4));
}

#[test]
fn taps_stop_at_the_edge() {
    let t = taps(&chart(3, 2), 2, 1);
    assert_eq!((t.p00, t.p11), (Rgba::new(2, 1, 7, 255), Rgba::new(2, 1, 7, 255)));
    let t = taps(&chart(3, 2), 0, 0);
    assert_eq!((t.p10, t.p01), (Rgba::new(1, 0, 7, 255), Rgba::new(0, 1, 7, 255)));
}

#[test]
fn motions_and_visualizers_have_names_of_their_own() {
    for m in [BgMotion::Static, BgMotion::Zoom, BgMotion::Drift, BgMotion::Sway, BgMotion::Tilt] {
        assert_eq!(BgMotion::from_value(m.value()), m);
    }
    assert_eq!(BgMotion::from_value("spin"), BgMotion::Static);
    for k in [VizKind::Bars, VizKind::Waves, VizKind::Starfield, VizKind::Fireflies, VizKind::Snow, VizKind::Embers] {
        assert_eq!(VizKind::from_value(k.value()), k);
    }
    assert_eq!(VizKind::from_value("lasers"), VizKind::Bars);
    assert!(VizKind::Snow.is_overlay());
    assert!(!VizKind::Waves.is_overlay());
}

#[test]
fn scrambled_numbers_are_fixed() {
    assert_eq!(hash01(0), 0);
    let mut x = 1u32.wrapping_mul(2654435761);
    x ^= x >> 16;
    x = x.wrapping_mul(2246822519);
    x ^= x >> 13;
    assert_eq!(hash01(1), x % 10000);
    assert_ne!(hash01(1), hash01(2));
}

#[test]
fn hues_go_round_the_circle() {
    assert_eq!(hsv(0, 3, 2, 1), [3, 2, 1]);
    assert_eq!(hsv(1, 3, 2, 1), [2, 3, 1]);
    assert_eq!(hsv(2, 3, 2, 1), [1, 3, 2]);
    assert_eq!(hsv(3, 3, 2, 1), [1, 2, 3]);
    assert_eq!(hsv(4, 3, 2, 1), [2, 1, 3]);
    assert_eq!(hsv(5, 3, 2, 1), [3, 1, 2]);
}

fn show(kind: VizKind, bars: Vec<Bar>, stars: Vec<Star>, dots: Vec<Dot>) -> RgbaImage {
    let scene = Scene { bars, stars, dots };
    let light = |_: usize, x: u32, _: u32, p: Rgba| {
        if x == 0 {
            None
        } else {
            Some(Rgba::new(x as u8, p.g + 1, p.b, 40))
        }
    };
    render_viz(4, 3, kind, &scene, |x, y| [x as u8, y as u8, 5], light)
}

#[test]
fn bars_stand_on_the_lower_edge() {
    let bars = vec![Bar { height: 2, x0: 1, x1: 3, color: [1, 2, 3] }];
    let img = show(VizKind::Bars, bars, vec![], vec![]);
    assert_eq!(img.get_pixel(1, 0), Rgba::new(10, 12, 18, 255));
    assert_eq!(img.get_pixel(1, 1), Rgba::new(1, 2, 3, 255));
    assert_eq!(img.get_pixel(3, 2), Rgba::new(10, 12, 18, 255));
}

#[test]
fn stars_wrap_down_and_stop_at_the_side() {
    let img = show(VizKind::Starfield, vec![], vec![Star { x: 9, y: 4, light: 99 }], vec![]);
    assert_eq!(img.get_pixel(3, 1), Rgba::new(99, 99, 99, 255));
    assert_eq!(img.get_pixel(3, 2), Rgba::new(99, 99, 99, 255));
    assert_eq!(img.get_pixel(2, 1), Rgba::new(10, 12, 18, 255));
}

#[test]
fn waves_color_every_pixel() {
    let img = show(VizKind::Waves, vec![], vec![], vec![]);
    assert_eq!(img.get_pixel(3, 2), Rgba::new(3, 2, 5, 255));
}

#[test]
fn particles_light_only_what_they_reach() {
    let dots = vec![
        Dot { x0: 0, y0: 0, x1: 1, y1: 0, lit: true },
        Dot { x0: 0, y0: 0, x1: 3, y1: 2, lit: false },
    ];
    let img = show(VizKind::Snow, vec![], vec![], dots);
    assert_eq!(img.get_pixel(0, 0), CLEAR);
    assert_eq!(img.get_pixel(1, 0), Rgba::new(1, 1, 0, 40));
    assert_eq!(img.get_pixel(2, 0), CLEAR);
}

#[test]
fn a_pixel_without_alpha_has_no_color() {
    let dots = vec![Dot { x0: 0, y0: 0, x1: 3, y1: 2, lit: true }; 2];
    let img = show(VizKind::Embers, vec![], vec![], dots);
    for p in img.pixels() {
        assert!(p.a > 0 || *p == CLEAR);
    }
    assert_eq!(img.get_pixel(0, 1), CLEAR);
    assert_eq!(img.get_pixel(2, 1), Rgba::new(2, 2, 0, 40));
}

#[test]
fn an_unlit_dot_needs_no_canvas() {
    let mut img = RgbaImage::from_pixel(0, 0, RED);
    let dot = Dot { x0: 0, y0: 0, x1: 9, y1: 9, lit: false };
    glow(&mut img, dot, 0, &|_: usize, _: u32, _: u32, _: Rgba| None);
    assert_eq!(img.dimensions(), (0, 0));
}

#[test]
fn blinks_combine_by_their_maximum() {
    let shut = |starts: &[i64]| {
        closeness_at(&starts.to_vec(), 0i64, &|c: i64, s: i64| c.max((5 - (7 - s).abs()).max(0)))
    };
    let (a, b) = (vec![1, 4, 20], vec![9, 5]);
    let both = [a.clone(), b.clone()].concat();
    let turned = [b.clone(), a.clone()].concat();
    assert_eq!((shut(&a), shut(&b)), (2, 3));
    assert_eq!((shut(&both), shut(&turned)), (3, 3));
    assert_eq!(shut(&[a.clone(), a.clone()].concat()), shut(&a));
    assert_eq!((shut(&[7]), shut(&[])), (5, 0));
}

#[test]
fn a_glow_never_lowers_alpha() {
    let mut img = RgbaImage::from_pixel(2, 1, RED);
    let dot = Dot { x0: 0, y0: 0, x1: 9, y1: 9, lit: true };
    glow(&mut img, dot, 0, &|_: usize, _: u32, _: u32, _: Rgba| Some(Rgba::new(1, 2, 3, 4)));
    assert_eq!(img.get_pixel(1, 0), Rgba::new(1, 2, 3, 255));
}

#[test]
fn a_picture_of_the_right_size_covers_as_it_is() {
    let img = chart(5, 4);
    assert_eq!(cover(&img, 5, 4, 5, 4), img);
    assert_eq!(resize(&img, 5, 4), img);
}

#[test]
fn covering_cuts_from_the_middle() {
    let img = chart(6, 4);
    assert_eq!(cover(&img, 6, 4, 2, 2), crop(&img, 2, 1, 2, 2));
    assert_eq!(crop(&img, 2, 1, 2, 2).get_pixel(0, 1), Rgba::new(2, 2, 7, 255));
}

#[test]
fn scaling_makes_new_pixels() {
    let img = RgbaImage::from_pixels(2, 1, vec![Rgba::new(0, 0, 0, 255), Rgba::new(200, 0, 0, 255)]).unwrap();
    let big = resize(&img, 4, 2);
    assert_eq!(big.dimensions(), (4, 2));
    let row: Vec<u8> = (0..4).map(|x| big.get_pixel(x, 1).r).collect();
    assert_eq!(row, vec![0, 50, 150, 200]);
}

#[test]
fn long_sides_are_scaled() {
    let line = RgbaImage::from_pixel(2_097_152, 1, RED);
    let longer = resize(&line, 8_388_608, 1);
    assert_eq!(longer.dimensions(), (8_388_608, 1));
    assert_eq!((longer.get_pixel(0, 0), longer.get_pixel(8_388_607, 0)), (RED, RED));
    assert_eq!(resize(&line, 3, 2), RgbaImage::from_pixel(3, 2, RED));
    let very_long = RgbaImage::from_pixel(3_000_000, 1, RED);
    assert_eq!(resize(&very_long, 3_000_000, 1), very_long);
}

#[test]
fn sides_are_tested_before_scaling() {
    assert!(resamples(2_097_152, 1, 8_388_608, 1));
    assert!(!resamples(2_097_153, 1, 1, 1));
    assert!(!resamples(1, 1, 1, 8_388_609));
    assert!(resamples(3_000_000, 1, 3_000_000, 1));
    assert!(resamples(0, 9, 9_000_000, 1));
    assert!(!resamples(1, 1, u32::MAX, u32::MAX));
    assert!(holds(4, 3));
    assert!(!holds(u32::MAX, u32::MAX));
}

#[test]
fn scaling_nothing_gives_clear_pixels() {
    let nothing = RgbaImage::from_pixel(0, 0, RED);
    assert_eq!(cover(&nothing, 0, 0, 2, 1), RgbaImage::from_pixel(2, 1, CLEAR));
}

#[test]
fn an_opaque_background_hides_the_visualizer() {
    let img = RgbaImage::from_pixels(2, 1, vec![Rgba { a: 90, ..RED }, CLEAR]).unwrap();
    let bg = RgbaImage::from_pixels(2, 1, vec![BLUE, RED]).unwrap();
    let viz = RgbaImage::from_pixel(2, 1, Rgba::new(5, 6, 7, 255));
    let on = RenderCfg { viz_on: true, ..cfg() };
    let with = render_frame(&img, &on, false, &vec![], &plain, false, None, 0, Some(&viz), Some(&bg));
    let without = render_frame(&img, &cfg(), false, &vec![], &plain, false, None, 0, None, Some(&bg));
    assert_eq!(with, without);
}

#[test]
fn past_the_end_of_the_sound_the_mouth_is_shut() {
    let img = chart(5, 5);
    let on = RenderCfg {
        talk_on: true,
        mouth_poly: vec![(0.0, 0.0); 3],
        talk_env: Some(vec![1.0]),
        ..cfg()
    };
    let frame = |at: usize| {
        let talking = on.talk_level(at, 0.0, 1.0) > 0.001;
        render_frame(&img, &on, false, &vec![], &plain, talking, Some(&square()), 2, None, None)
    };
    assert_eq!(frame(1), img);
    assert_ne!(frame(0), img);
}

#[test]
fn with_every_layer_off_the_picture_comes_back() {
    let img = chart(4, 3);
    assert_eq!(render_frame(&img, &cfg(), true, &vec![], &plain, true, None, 3, None, None), img);
}

#[test]
fn layers_lie_in_their_order() {
    let img = RgbaImage::from_pixels(2, 1, vec![RED, CLEAR]).unwrap();
    let bg = RgbaImage::from_pixels(2, 1, vec![BLUE, Rgba { a: 0, ..BLUE }]).unwrap();
    let viz = RgbaImage::from_pixel(2, 1, Rgba::new(5, 6, 7, 255));
    let on = RenderCfg { viz_on: true, ..cfg() };
    let out = render_frame(&img, &on, false, &vec![], &plain, false, None, 0, Some(&viz), Some(&bg));
    assert_eq!(out.pixels(), &vec![RED, Rgba::new(5, 6, 7, 255)]);
}

#[test]
fn particles_float_over_the_background() {
    let img = RgbaImage::from_pixel(1, 1, CLEAR);
    let bg = RgbaImage::from_pixel(1, 1, BLUE);
    let flake = RgbaImage::from_pixel(1, 1, Rgba::new(5, 6, 7, 255));
    let on = RenderCfg { viz_on: true, viz_kind: VizKind::Snow, ..cfg() };
    let out = render_frame(&img, &on, false, &vec![], &plain, false, None, 0, Some(&flake), Some(&bg));
    assert_eq!(out.get_pixel(0, 0), Rgba::new(5, 6, 7, 255));
    let dark = RgbaImage::from_pixel(1, 1, CLEAR);
    let out = render_frame(&img, &on, false, &vec![], &plain, false, None, 0, Some(&dark), None);
    assert_eq!(out.get_pixel(0, 0), Rgba::new(10, 12, 18, 255));
}

#[test]
fn eyes_close_before_the_jaw_drops() {
    let img = chart(6, 6);
    let on = RenderCfg {
        blink_on: true,
        eye_polys: vec![vec![(0.0, 0.0); 3]],
        talk_on: true,
        mouth_poly: vec![(0.0, 0.0); 3],
        ..cfg()
    };
    let eye = Mask::trace(Bounds { x0: 1, y0: 0, x1: 3, y1: 2 }, |_, _| true);
    let paint = |_: usize, _: LidColumn, _: u32, _: u32, _: Rgba| Rgba::new(50, 50, 50, 0);
    let out = render_frame(&img, &on, true, &vec![Some(eye)], &paint, true, Some(&square()), 2, None, None);
    assert_eq!(out.get_pixel(2, 0), Rgba::new(50, 50, 50, 255));
    assert_eq!(out.get_pixel(2, 1), Rgba::new(1, 2, 3, 255));
    assert_eq!(out.get_pixel(2, 3), Rgba::new(50, 50, 50, 255));
}

#[test]
fn scaling_the_settings_scales_the_outlines() {
    let c = RenderCfg { eye_polys: vec![vec![(1.0, 2.0)]], mouth_poly: vec![(3.0, 4.0)], ..cfg() };
    let half = c.scaled(|v: f32| v * 0.5);
    assert_eq!(half.eye_polys, vec![vec![(0.5, 1.0)]]);
    assert_eq!(half.mouth_poly, vec![(1.5, 2.0)]);
    assert_eq!(half.fps, 10.0);
}

#[test]
fn the_mouth_follows_the_sound_or_its_rhythm() {
    let c = RenderCfg { talk_env: Some(vec![0.1, 0.2]), ..cfg() };
    assert_eq!(c.talk_level(1, 0.0, 9.0), 0.2);
    assert_eq!(c.talk_level(2, 0.0, 9.0), 0.0);
    assert_eq!(cfg().talk_level(1, 0.0, 9.0), 9.0);
}
