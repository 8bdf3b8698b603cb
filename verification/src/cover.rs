//! Scaling pictures, and filling a canvas with one.

use vstd::prelude::*;

use crate::canvas::{
    can_hold, holds, lemma_index_in_range, lemma_raw_round_trip, lemma_same_cells, lemma_set_at,
    raw_bytes, raw_pixels, Picture, Rgba, RgbaImage,
};

verus! {

broadcast use lemma_set_at;

/// The longest side of a picture that is scaled. Up to here the places that the
/// resampler computes in it are precise to half a pixel.
pub const MAX_SOURCE: u32 = 2_097_152;

/// The longest side that a picture is scaled to. Up to here the centre of every
/// new pixel is a number that the resampler can hold.
pub const MAX_TARGET: u32 = 8_388_608;

/// The bytes of a picture of `w` by `h` pixels after resampling it to `nw` by
/// `nh` with a triangle filter.
pub uninterp spec fn resampled(w: u32, h: u32, raw: Seq<u8>, nw: u32, nh: u32) -> Seq<u8>;

/// The sides are such that the resampler's buffers can be addressed, and that no
/// pixel is left without a source. A picture without pixels and a picture that
/// keeps its sides are not resampled.
pub open spec fn can_resample(w: int, h: int, nw: int, nh: int) -> bool {
    &&& can_hold(nw, nh)
    &&& {
        ||| w == 0
        ||| h == 0
        ||| nw == w && nh == h
        ||| {
            &&& w <= MAX_SOURCE
            &&& h <= MAX_SOURCE
            &&& nw <= MAX_TARGET
            &&& nh <= MAX_TARGET
            &&& 16 * (w * nh) <= isize::MAX
        }
    }
}

/// Can a picture of `w` by `h` pixels be scaled to `nw` by `nh`?
pub fn resamples(w: u32, h: u32, nw: u32, nh: u32) -> (r: bool)
    ensures
        r == can_resample(w as int, h as int, nw as int, nh as int),
{
    let a: u128 = w as u128;
    let b: u128 = nh as u128;
    proof {
        assert(a * b <= u64::MAX) by (nonlinear_arith)
            requires
                a <= u32::MAX,
                b <= u32::MAX,
        ;
    }
    holds(nw, nh) && (w == 0 || h == 0 || (nw == w && nh == h) || (w <= MAX_SOURCE && h
        <= MAX_SOURCE && nw <= MAX_TARGET && nh <= MAX_TARGET && 16 * (a * b) <= isize::MAX as u128))
}

/// `image::imageops::resize` with the triangle filter: a picture of exactly the
/// sides asked for, which is the same picture when these are the sides it has.
#[verifier::external_body]
fn resize_raw(w: u32, h: u32, raw: Vec<u8>, nw: u32, nh: u32) -> (r: Vec<u8>)
    requires
        raw@.len() == 4 * (w * h),
        can_hold(w as int, h as int),
        can_resample(w as int, h as int, nw as int, nh as int),
    ensures
        r@ == resampled(w, h, raw@, nw, nh),
        r@.len() == 4 * (nw * nh),
        nw == w && nh == h && w > 0 && h > 0 ==> r@ == raw@,
{
    let img = image::RgbaImage::from_raw(w, h, raw).unwrap();
    image::imageops::resize(&img, nw, nh, image::imageops::FilterType::Triangle).into_raw()
}

/// A picture scaled to other sides.
pub open spec fn resized(pic: Picture, nw: u32, nh: u32) -> Picture {
    Picture {
        width: nw as nat,
        height: nh as nat,
        px: raw_pixels(
            resampled(pic.width as u32, pic.height as u32, raw_bytes(pic.px), nw, nh),
        ),
    }
}

/// Scales a picture to other sides; a picture that has them stays as it is.
pub fn resize(img: &RgbaImage, nw: u32, nh: u32) -> (r: RgbaImage)
    requires
        img@.wf(),
        can_resample(img@.width as int, img@.height as int, nw as int, nh as int),
    ensures
        r@.wf(),
        r@ == resized(img@, nw, nh),
        nw == img@.width && nh == img@.height && nw > 0 && nh > 0 ==> r@ == img@,
{
    let raw = img.to_raw();
    proof {
        lemma_raw_round_trip(img@.px);
    }
    let out = resize_raw(img.width(), img.height(), raw, nw, nh);
    match RgbaImage::from_raw(nw, nh, &out) {
        Some(r) => r,
        None => img.clone(),
    }
}

/// The part of a picture that starts in column `x0` of row `y0`.
pub open spec fn cropped(pic: Picture, x0: int, y0: int, w: nat, h: nat) -> Picture {
    Picture {
        width: w,
        height: h,
        px: Seq::new(w * h, |i: int| pic.at(x0 + i % w as int, y0 + i / w as int)),
    }
}

/// Cuts out the part of `w` by `h` pixels that starts in column `x0` of row
/// `y0`.
pub fn crop(img: &RgbaImage, x0: u32, y0: u32, w: u32, h: u32) -> (r: RgbaImage)
    requires
        img@.wf(),
        x0 + w <= img@.width,
        y0 + h <= img@.height,
    ensures
        r@.wf(),
        r@ == cropped(img@, x0 as int, y0 as int, w as nat, h as nat),
{
    proof {
        assert(w * h <= img@.width * img@.height) by (nonlinear_arith)
            requires
                0 <= w <= img@.width,
                0 <= h <= img@.height,
        ;
    }
    let mut out = RgbaImage::from_pixel(w, h, Rgba::new(0, 0, 0, 0));
    for y in 0..h
        invariant
            img@.wf(),
            x0 + w <= img@.width,
            y0 + h <= img@.height,
            out@.wf(),
            out@.width == w,
            out@.height == h,
            forall|i: int, j: int|
                out@.has(i, j) && j < y ==> #[trigger] out@.at(i, j) == img@.at(x0 + i, y0 + j),
    {
        for x in 0..w
            invariant
                img@.wf(),
                x0 + w <= img@.width,
                y0 + h <= img@.height,
                y < h,
                out@.wf(),
                out@.width == w,
                out@.height == h,
                forall|i: int, j: int|
                    out@.has(i, j) && (j < y || (j == y && i < x)) ==> #[trigger] out@.at(i, j)
                        == img@.at(x0 + i, y0 + j),
        {
            let ghost prev = out@;
            let p = img.get_pixel(x0 + x, y0 + y);
            out.put_pixel(x, y, p);
            assert forall|i: int, j: int| out@.has(i, j) && (j < y || (j == y && i < x + 1)) implies
                #[trigger] out@.at(i, j) == img@.at(x0 + i, y0 + j) by {
                lemma_set_at(prev, x as int, y as int, p, i, j);
                if !(i == x && j == y) {
                    assert(prev.at(i, j) == img@.at(x0 + i, y0 + j));
                }
            }
        }
    }
    proof {
        let want = cropped(img@, x0 as int, y0 as int, w as nat, h as nat);
        assert forall|i: int, j: int| out@.has(i, j) implies #[trigger] out@.at(i, j) == want.at(
            i,
            j,
        ) by {
            lemma_index_in_range(out@, i, j);
        }
        lemma_same_cells(out@, want);
    }
    out
}

/// Nothing is cut off a picture by its own sides.
pub proof fn lemma_whole_crop(pic: Picture)
    requires
        pic.wf(),
    ensures
        cropped(pic, 0, 0, pic.width, pic.height) == pic,
{
    let c = cropped(pic, 0, 0, pic.width, pic.height);
    assert forall|i: int, j: int| c.has(i, j) implies #[trigger] c.at(i, j) == pic.at(i, j) by {
        lemma_index_in_range(c, i, j);
    }
    lemma_same_cells(c, pic);
}

/// The greater of two sides.
pub open spec fn longer(a: u32, b: u32) -> u32 {
    if a > b {
        a
    } else {
        b
    }
}

/// What fills a canvas of `w` by `h` pixels: the middle of the picture scaled
/// to `sw` by `sh`, or to the canvas's side where that is longer.
pub open spec fn covered(pic: Picture, sw: u32, sh: u32, w: u32, h: u32) -> Picture {
    let nw = longer(sw, w);
    let nh = longer(sh, h);
    cropped(
        resized(pic, nw, nh),
        (nw - w) / 2,
        (nh - h) / 2,
        w as nat,
        h as nat,
    )
}

/// Fills a canvas of `w` by `h` pixels with a picture, as if it were scaled
/// until it just covers the canvas and cut to it. `sw` and `sh` are the sides
/// after scaling, rounded up.
pub fn cover(img: &RgbaImage, sw: u32, sh: u32, w: u32, h: u32) -> (r: RgbaImage)
    requires
        img@.wf(),
        can_resample(
            img@.width as int,
            img@.height as int,
            longer(sw, w) as int,
            longer(sh, h) as int,
        ),
    ensures
        r@.wf(),
        r@.width == w,
        r@.height == h,
        r@ == covered(img@, sw, sh, w, h),
        img@.width == w && img@.height == h && sw <= w && sh <= h && w > 0 && h > 0 ==> r@ == img@,
{
    let nw: u32 = if sw > w {
        sw
    } else {
        w
    };
    let nh: u32 = if sh > h {
        sh
    } else {
        h
    };
    let scaled = resize(img, nw, nh);
    let r = crop(&scaled, (nw - w) / 2, (nh - h) / 2, w, h);
    proof {
        if img@.width == w && img@.height == h && sw <= w && sh <= h && w > 0 && h > 0 {
            lemma_whole_crop(img@);
        }
    }
    r
}

/// A crop shows, cell for cell, the part of the picture that starts at its corner.
pub proof fn lemma_crop_cell(pic: Picture, x0: int, y0: int, w: nat, h: nat, x: int, y: int)
    requires
        0 <= x < w,
        0 <= y < h,
    ensures
        cropped(pic, x0, y0, w, h).width == w,
        cropped(pic, x0, y0, w, h).height == h,
        cropped(pic, x0, y0, w, h).at(x, y) == pic.at(x0 + x, y0 + y),
{
    let n = w as int;
    assert(0 <= y * n + x < n * h) by (nonlinear_arith)
        requires
            0 <= x < n,
            0 <= y < h,
    ;
    vstd::arithmetic::div_mod::lemma_fundamental_div_mod_converse(y * n + x, n, y, x);
    assert(w * h == n * h);
}

/// A picture that covers a canvas is resampled to the sides that were asked for, or to the
/// canvas's own where these are longer, and then shown from the middle: what is cut off on
/// the left and at the top is as much as on the right and at the bottom, or one cell less.
pub proof fn lemma_cover_is_centred(
    pic: Picture,
    sw: u32,
    sh: u32,
    w: u32,
    h: u32,
    x: int,
    y: int,
) -> (corner: (int, int))
    requires
        0 <= x < w,
        0 <= y < h,
    ensures
        ({
            let nw: u32 = if sw < w {
                w
            } else {
                sw
            };
            let nh: u32 = if sh < h {
                h
            } else {
                sh
            };
            &&& 0 <= corner.0 && 0 <= (nw - w - corner.0) - corner.0 <= 1
            &&& 0 <= corner.1 && 0 <= (nh - h - corner.1) - corner.1 <= 1
            &&& covered(pic, sw, sh, w, h).width == w
            &&& covered(pic, sw, sh, w, h).height == h
            &&& covered(pic, sw, sh, w, h).at(x, y) == resized(pic, nw, nh).at(
                corner.0 + x,
                corner.1 + y,
            )
        }),
{
    let nw = longer(sw, w);
    let nh = longer(sh, h);
    let corner = ((nw - w) / 2, (nh - h) / 2);
    lemma_crop_cell(resized(pic, nw, nh), corner.0, corner.1, w as nat, h as nat, x, y);
    corner
}

/// A resampled picture has the sides that were asked for, and its pixels are the
/// resampler's bytes, four to a pixel and red first, for the picture's own bytes and sides.
pub proof fn lemma_resized_bytes(pic: Picture, nw: u32, nh: u32, i: int)
    requires
        pic.wf(),
    ensures
        ({
            let bytes = resampled(pic.width as u32, pic.height as u32, raw_bytes(pic.px), nw, nh);
            let r = resized(pic, nw, nh);
            &&& r.width == nw
            &&& r.height == nh
            &&& r.px.len() == bytes.len() / 4
            &&& 0 <= i < bytes.len() / 4 ==> r.px[i] == (Rgba {
                r: bytes[4 * i],
                g: bytes[4 * i + 1],
                b: bytes[4 * i + 2],
                a: bytes[4 * i + 3],
            })
        }),
{
}

} // verus!
