use moranima::canvas::{Rgba, RgbaImage};
use moranima::compose::{flatten, over};

/// What single precision makes of the weighted mean.
fn mean(top: u8, under: u8, a: u8) -> u8 {
    let w = a as f32 / 255.0;
    (top as f32 * w + under as f32 * (1.0 - w)).round() as u8
}

#[test]
fn blending_agrees_with_single_precision_everywhere() {
    for a in 0..=255u8 {
        for top in 0..=255u8 {
            let fg = RgbaImage::from_pixel(256, 1, Rgba::new(top, top, top, a));
            let row: Vec<Rgba> = (0..=255u8).map(|u| Rgba::new(u, u, u, 255)).collect();
            let mut bg = RgbaImage::from_pixels(256, 1, row).unwrap();
            over(&mut bg, &fg);
            for under in 0..=255u8 {
                assert_eq!(bg.get_pixel(under as u32, 0).r, mean(top, under, a));
            }
        }
    }
}

#[test]
fn flatten_makes_every_pixel_opaque() {
    let img = RgbaImage::from_pixel(3, 2, Rgba::new(200, 100, 50, 128));
    let out = flatten(&img, [0, 0, 0]);
    assert_eq!(out.get_pixel(2, 1), Rgba::new(100, 50, 25, 255));
}
