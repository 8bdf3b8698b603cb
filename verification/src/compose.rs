//! Laying pictures over one another.

use vstd::prelude::*;

use crate::canvas::{Picture, Rgba, RgbaImage};

verus! {

/// `top` over `under` with the weights `a` and `255 - a`, each of 255: the
/// whole number nearest to the weighted mean. The mean never lies half-way
/// between two whole numbers.
pub open spec fn blend(top: u8, under: u8, a: u8) -> u8 {
    ((2 * (top * a + under * (255 - a)) + 255) / 510) as u8
}

/// The blend is the nearest whole number to the weighted mean, and no other
/// number is as near.
pub proof fn lemma_blend_is_nearest(top: u8, under: u8, a: u8)
    ensures
        -255 < 2 * (255 * blend(top, under, a) - (top * a + under * (255 - a))) < 255,
        top <= blend(top, under, a) <= under || under <= blend(top, under, a) <= top,
{
    let n = top * a + under * (255 - a);
    assert(0 <= n <= 255 * 255) by (nonlinear_arith)
        requires
            n == top * a + under * (255 - a),
            0 <= top <= 255,
            0 <= under <= 255,
            0 <= a <= 255,
    ;
    let m = (2 * n + 255) / 510;
    assert(0 <= m <= 255 && 510 * m <= 2 * n + 255 < 510 * m + 510) by (nonlinear_arith)
        requires
            m == (2 * n + 255) / 510,
            0 <= n <= 255 * 255,
    ;
    // An odd number is never 510 times a whole number.
    assert(510 * m != 2 * n + 255) by (nonlinear_arith);
    if top <= under {
        assert(255 * top <= n <= 255 * under) by (nonlinear_arith)
            requires
                n == top * a + under * (255 - a),
                0 <= top <= under <= 255,
                0 <= a <= 255,
        ;
    } else {
        assert(255 * under <= n <= 255 * top) by (nonlinear_arith)
            requires
                n == top * a + under * (255 - a),
                0 <= under <= top <= 255,
                0 <= a <= 255,
        ;
    }
}

/// With full weight only the top is seen, with none only what lies under it.
pub proof fn lemma_blend_ends(top: u8, under: u8)
    ensures
        blend(top, under, 255) == top,
        blend(top, under, 0) == under,
{
}

/// Blends one channel.
fn blend_channel(top: u8, under: u8, a: u8) -> (r: u8)
    ensures
        r == blend(top, under, a),
{
    proof {
        lemma_blend_is_nearest(top, under, a);
        assert(0 <= top * a <= 255 * 255 && 0 <= under * (255 - a) <= 255 * 255) by (nonlinear_arith)
            requires
                0 <= top <= 255,
                0 <= under <= 255,
                0 <= a <= 255,
        ;
    }
    let n: u32 = (top as u32) * (a as u32) + (under as u32) * (255 - a as u32);
    ((2 * n + 255) / 510) as u8
}

/// A pixel over an opaque one: its colour by its alpha, and the alpha below.
pub open spec fn over_pixel(bg: Rgba, fg: Rgba) -> Rgba {
    Rgba {
        r: blend(fg.r, bg.r, fg.a),
        g: blend(fg.g, bg.g, fg.a),
        b: blend(fg.b, bg.b, fg.a),
        a: bg.a,
    }
}

/// `fg` laid over `bg`, pixel by pixel in row-after-row order as far as both
/// reach.
pub open spec fn over_picture(bg: Picture, fg: Picture) -> Picture {
    Picture {
        width: bg.width,
        height: bg.height,
        px: Seq::new(
            bg.px.len(),
            |i: int|
                if i < fg.px.len() {
                    over_pixel(bg.px[i], fg.px[i])
                } else {
                    bg.px[i]
                },
        ),
    }
}

/// Lays `fg` over the opaque `bg`.
pub fn over(bg: &mut RgbaImage, fg: &RgbaImage)
    requires
        old(bg)@.wf(),
    ensures
        final(bg)@.wf(),
        final(bg)@ == over_picture(old(bg)@, fg@),
{
    let ghost before = bg@;
    let n: usize = if bg.pixels().len() < fg.pixels().len() {
        bg.pixels().len()
    } else {
        fg.pixels().len()
    };
    for i in 0..n
        invariant
            bg@.wf(),
            bg@.same_size(before),
            before.wf(),
            n <= before.px.len(),
            n <= fg@.px.len(),
            forall|j: int| 0 <= j < i ==> #[trigger] bg@.px[j] == over_pixel(before.px[j], fg@.px[j]),
            forall|j: int| i <= j < before.px.len() ==> #[trigger] bg@.px[j] == before.px[j],
    {
        let b = bg.pixels()[i];
        let f = fg.pixels()[i];
        let p = Rgba::new(
            blend_channel(f.r, b.r, f.a),
            blend_channel(f.g, b.g, f.a),
            blend_channel(f.b, b.b, f.a),
            b.a,
        );
        bg.put_nth(i, p);
    }
    assert(bg@.px =~= over_picture(before, fg@).px);
}

/// A pixel over a solid colour.
pub open spec fn flat_pixel(p: Rgba, color: [u8; 3]) -> Rgba {
    Rgba {
        r: blend(p.r, color@[0], p.a),
        g: blend(p.g, color@[1], p.a),
        b: blend(p.b, color@[2], p.a),
        a: 255,
    }
}

/// A picture over a solid colour, opaque everywhere.
pub open spec fn flat_picture(pic: Picture, color: [u8; 3]) -> Picture {
    Picture {
        width: pic.width,
        height: pic.height,
        px: pic.px.map_values(|p: Rgba| flat_pixel(p, color)),
    }
}

/// Flattens a picture onto a solid colour, for formats without transparency.
pub fn flatten(img: &RgbaImage, color: [u8; 3]) -> (r: RgbaImage)
    requires
        img@.wf(),
    ensures
        r@.wf(),
        r@ == flat_picture(img@, color),
{
    let mut out = img.clone();
    let n: usize = img.pixels().len();
    for i in 0..n
        invariant
            out@.wf(),
            out@.same_size(img@),
            n == img@.px.len(),
            out@.px.len() == n,
            forall|j: int| 0 <= j < i ==> #[trigger] out@.px[j] == flat_pixel(img@.px[j], color),
    {
        let q = img.pixels()[i];
        let p = Rgba::new(
            blend_channel(q.r, color[0], q.a),
            blend_channel(q.g, color[1], q.a),
            blend_channel(q.b, color[2], q.a),
            255,
        );
        out.put_nth(i, p);
    }
    assert(out@.px =~= flat_picture(img@, color).px);
    out
}

/// What is under an opaque picture cannot be seen, and what is under an
/// invisible one is not touched.
pub proof fn lemma_over_ends(bg: Picture, fg: Picture, i: int)
    requires
        0 <= i < bg.px.len(),
        i < fg.px.len(),
    ensures
        fg.px[i].a == 255 ==> over_picture(bg, fg).px[i] == (Rgba { a: bg.px[i].a, ..fg.px[i] }),
        fg.px[i].a == 0 ==> over_picture(bg, fg).px[i] == bg.px[i],
{
    lemma_blend_ends(fg.px[i].r, bg.px[i].r);
    lemma_blend_ends(fg.px[i].g, bg.px[i].g);
    lemma_blend_ends(fg.px[i].b, bg.px[i].b);
}

/// A flattened picture is opaque, and flattening it once more, onto whatever
/// colour, changes nothing.
pub proof fn lemma_flatten_is_final(pic: Picture, color: [u8; 3], other: [u8; 3])
    ensures
        forall|i: int|
            0 <= i < pic.px.len() ==> (#[trigger] flat_picture(pic, color).px[i]).a == 255,
        flat_picture(flat_picture(pic, color), other) == flat_picture(pic, color),
{
    let flat = flat_picture(pic, color);
    let twice = flat_picture(flat, other);
    assert forall|i: int| 0 <= i < flat.px.len() implies twice.px[i] == flat.px[i] by {
        let p = flat.px[i];
        lemma_blend_ends(p.r, other@[0]);
        lemma_blend_ends(p.g, other@[1]);
        lemma_blend_ends(p.b, other@[2]);
    }
    assert(twice.px =~= flat.px);
}

/// Flattening onto a colour shows what laying the picture over a canvas of that
/// colour shows.
pub proof fn lemma_flatten_is_over(pic: Picture, color: [u8; 3], canvas: Picture)
    requires
        canvas.same_size(pic),
        canvas.px.len() == pic.px.len(),
        forall|i: int|
            0 <= i < canvas.px.len() ==> #[trigger] canvas.px[i] == (Rgba {
                r: color@[0],
                g: color@[1],
                b: color@[2],
                a: 255,
            }),
    ensures
        over_picture(canvas, pic) == flat_picture(pic, color),
{
    assert(over_picture(canvas, pic).px =~= flat_picture(pic, color).px);
}

/// Laying a picture over another mixes each channel by the upper pixel's alpha, to
/// the nearest whole number, and keeps the lower picture's size and alpha. Where
/// the upper picture has no pixel, the lower one stays.
pub proof fn lemma_over_mixes(bg: Picture, fg: Picture, i: int)
    requires
        0 <= i < bg.px.len(),
    ensures
        over_picture(bg, fg).width == bg.width,
        over_picture(bg, fg).height == bg.height,
        over_picture(bg, fg).px.len() == bg.px.len(),
        i >= fg.px.len() ==> over_picture(bg, fg).px[i] == bg.px[i],
        i < fg.px.len() ==> {
            let u = bg.px[i];
            let t = fg.px[i];
            let q = over_picture(bg, fg).px[i];
            &&& -255 < 2 * (255 * q.r - (t.r * t.a + u.r * (255 - t.a))) < 255
            &&& -255 < 2 * (255 * q.g - (t.g * t.a + u.g * (255 - t.a))) < 255
            &&& -255 < 2 * (255 * q.b - (t.b * t.a + u.b * (255 - t.a))) < 255
            &&& q.a == u.a
        },
{
    if i < fg.px.len() {
        lemma_blend_is_nearest(fg.px[i].r, bg.px[i].r, fg.px[i].a);
        lemma_blend_is_nearest(fg.px[i].g, bg.px[i].g, fg.px[i].a);
        lemma_blend_is_nearest(fg.px[i].b, bg.px[i].b, fg.px[i].a);
    }
}

/// Flattening mixes each channel with the same channel of the colour below by the
/// pixel's alpha, to the nearest whole number, and leaves nothing transparent.
pub proof fn lemma_flatten_mixes(pic: Picture, color: [u8; 3], i: int)
    requires
        0 <= i < pic.px.len(),
    ensures
        flat_picture(pic, color).width == pic.width,
        flat_picture(pic, color).height == pic.height,
        flat_picture(pic, color).px.len() == pic.px.len(),
        ({
            let t = pic.px[i];
            let q = flat_picture(pic, color).px[i];
            &&& -255 < 2 * (255 * q.r - (t.r * t.a + color@[0] * (255 - t.a))) < 255
            &&& -255 < 2 * (255 * q.g - (t.g * t.a + color@[1] * (255 - t.a))) < 255
            &&& -255 < 2 * (255 * q.b - (t.b * t.a + color@[2] * (255 - t.a))) < 255
            &&& q.a == 255
        }),
{
    lemma_blend_is_nearest(pic.px[i].r, color@[0], pic.px[i].a);
    lemma_blend_is_nearest(pic.px[i].g, color@[1], pic.px[i].a);
    lemma_blend_is_nearest(pic.px[i].b, color@[2], pic.px[i].a);
}

} // verus!
