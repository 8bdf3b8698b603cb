//! Talking: the jaw drops, and what was on it moves down with it.

use vstd::prelude::*;

use crate::canvas::{lemma_index_in_range, lemma_same_cells, lemma_set_at};
use crate::canvas::{Picture, Rgba, RgbaImage};
use crate::poly::Mask;

verus! {

broadcast use {lemma_set_at, Mask::lemma_area};

/// The opaque pixel of a colour.
pub open spec fn solid(color: [u8; 3]) -> Rgba {
    Rgba { r: color@[0], g: color@[1], b: color@[2], a: 255 }
}

/// One pixel of a picture whose jaw has dropped by `drop` rows. Content that
/// moved down comes first, then the inside of the mouth, then what was there.
pub open spec fn jaw_pixel(
    base: Picture,
    mouth: Mask,
    drop: int,
    inner: [u8; 3],
    x: int,
    y: int,
) -> Rgba {
    if mouth.covers(x, y - drop) && base.at(x, y - drop).a > 0 {
        base.at(x, y - drop)
    } else if mouth.covers(x, y) {
        solid(inner)
    } else {
        base.at(x, y)
    }
}

/// The picture with the jaw dropped by `drop` rows.
pub open spec fn jaw_picture(base: Picture, mouth: Mask, drop: int, inner: [u8; 3]) -> Picture {
    Picture {
        width: base.width,
        height: base.height,
        px: Seq::new(
            base.px.len(),
            |i: int|
                jaw_pixel(base, mouth, drop, inner, i % base.width as int, i / base.width as int),
        ),
    }
}

/// The mouth moves: it has an outline that encloses something, it is open, and
/// the drop is at least one row.
pub open spec fn jaw_moves(vertices: int, talking: bool, mouth: Option<Mask>, drop: int) -> bool {
    vertices >= 3 && talking && mouth is Some && drop >= 1
}

/// What dropping the jaw makes of a picture.
pub open spec fn jaw_dropped(
    base: Picture,
    vertices: int,
    talking: bool,
    mouth: Option<Mask>,
    drop: int,
    inner: [u8; 3],
) -> Picture {
    if jaw_moves(vertices, talking, mouth, drop) {
        jaw_picture(base, mouth->0, drop, inner)
    } else {
        base
    }
}

/// The dropped picture, cell by cell.
pub proof fn lemma_jaw_at(base: Picture, mouth: Mask, drop: int, inner: [u8; 3], x: int, y: int)
    requires
        base.wf(),
        base.has(x, y),
    ensures
        jaw_picture(base, mouth, drop, inner).wf(),
        jaw_picture(base, mouth, drop, inner).at(x, y) == jaw_pixel(base, mouth, drop, inner, x, y),
{
    lemma_index_in_range(base, x, y);
}

/// Fills the mouth with `inner`.
fn fill(out: &mut RgbaImage, mouth: &Mask, inner: [u8; 3])
    requires
        old(out)@.wf(),
        mouth.wf(),
        mouth.fits(old(out)@.width, old(out)@.height),
    ensures
        final(out)@.wf(),
        final(out)@.same_size(old(out)@),
        forall|x: int, y: int|
            old(out)@.has(x, y) ==> #[trigger] final(out)@.at(x, y) == (if mouth.covers(x, y) {
                solid(inner)
            } else {
                old(out)@.at(x, y)
            }),
{
    let ghost before = out@;
    let b = mouth.bounds();
    let p = Rgba::new(inner[0], inner[1], inner[2], 255);
    proof {
        mouth.lemma_area(0, 0);
    }
    let mut y: u32 = b.y0;
    while y <= b.y1
        invariant
            b == mouth.area(),
            b.wf(),
            mouth.wf(),
            before.wf(),
            mouth.fits(before.width, before.height),
            out@.wf(),
            out@.same_size(before),
            p == solid(inner),
            b.y0 <= y <= b.y1 + 1,
            forall|i: int, j: int|
                before.has(i, j) ==> #[trigger] out@.at(i, j) == (if mouth.covers(i, j) && j < y {
                    solid(inner)
                } else {
                    before.at(i, j)
                }),
        decreases b.y1 + 1 - y,
    {
        let mut x: u32 = b.x0;
        while x <= b.x1
            invariant
                b == mouth.area(),
                b.wf(),
                mouth.wf(),
                before.wf(),
                mouth.fits(before.width, before.height),
                out@.wf(),
                out@.same_size(before),
                p == solid(inner),
                b.y0 <= y <= b.y1,
                b.x0 <= x <= b.x1 + 1,
                forall|i: int, j: int|
                    before.has(i, j) ==> #[trigger] out@.at(i, j) == (if mouth.covers(i, j) && (j < y
                        || (j == y && i < x)) {
                        solid(inner)
                    } else {
                        before.at(i, j)
                    }),
            decreases b.x1 + 1 - x,
        {
            if mouth.contains(x, y) {
                let ghost prev = out@;
                out.put_pixel(x, y, p);
                assert forall|i: int, j: int| before.has(i, j) implies #[trigger] out@.at(i, j) == (
                if mouth.covers(i, j) && (j < y || (j == y && i < x + 1)) {
                    solid(inner)
                } else {
                    before.at(i, j)
                }) by {
                    lemma_set_at(prev, x as int, y as int, p, i, j);
                }
            }
            x = x + 1;
        }
        y = y + 1;
    }
}

/// Copies every visible pixel of `base` that the mouth covers `drop` rows down,
/// as far as the picture reaches, from the lowest row up.
fn shift(out: &mut RgbaImage, base: &RgbaImage, mouth: &Mask, drop: u32)
    requires
        old(out)@.wf(),
        base@.wf(),
        old(out)@.same_size(base@),
        mouth.wf(),
        mouth.fits(base@.width, base@.height),
    ensures
        final(out)@.wf(),
        final(out)@.same_size(base@),
        forall|x: int, y: int|
            base@.has(x, y) ==> #[trigger] final(out)@.at(x, y) == (if mouth.covers(x, y - drop)
                && base@.at(x, y - drop).a > 0 {
                base@.at(x, y - drop)
            } else {
                old(out)@.at(x, y)
            }),
{
    let ghost before = out@;
    let b = mouth.bounds();
    proof {
        mouth.lemma_area(0, 0);
    }
    let h: u32 = base.height();
    // Rows `y..=b.y1` have been copied.
    let mut y: u32 = b.y1 + 1;
    while y > b.y0
        invariant
            b == mouth.area(),
            b.wf(),
            mouth.wf(),
            base@.wf(),
            before.wf(),
            before.same_size(base@),
            h == base@.height,
            mouth.fits(base@.width, base@.height),
            out@.wf(),
            out@.same_size(before),
            b.y0 <= y <= b.y1 + 1,
            forall|i: int, j: int|
                before.has(i, j) ==> #[trigger] out@.at(i, j) == (if j - drop >= y && mouth.covers(
                    i,
                    j - drop,
                ) && base@.at(i, j - drop).a > 0 {
                    base@.at(i, j - drop)
                } else {
                    before.at(i, j)
                }),
        decreases y,
    {
        let sy: u32 = y - 1;
        let mut x: u32 = b.x0;
        while x <= b.x1
            invariant
                b == mouth.area(),
                b.wf(),
                mouth.wf(),
                base@.wf(),
                before.wf(),
                before.same_size(base@),
                h == base@.height,
                mouth.fits(base@.width, base@.height),
                out@.wf(),
                out@.same_size(before),
                b.y0 <= sy <= b.y1,
                sy == y - 1,
                b.x0 <= x <= b.x1 + 1,
                forall|i: int, j: int|
                    before.has(i, j) ==> #[trigger] out@.at(i, j) == (if (j - drop >= y || (j - drop
                        == sy && i < x)) && mouth.covers(i, j - drop) && base@.at(i, j - drop).a > 0 {
                        base@.at(i, j - drop)
                    } else {
                        before.at(i, j)
                    }),
            decreases b.x1 + 1 - x,
        {
            let ghost prev = out@;
            if mouth.contains(x, sy) && drop < h && sy < h - drop {
                let p = base.get_pixel(x, sy);
                if p.a > 0 {
                    out.put_pixel(x, sy + drop, p);
                    assert forall|i: int, j: int| before.has(i, j) implies #[trigger] out@.at(i, j)
                        == (if i == x && j == sy + drop {
                        p
                    } else {
                        prev.at(i, j)
                    }) by {
                        lemma_set_at(prev, x as int, sy + drop, p, i, j);
                    }
                }
            }
            x = x + 1;
        }
        y = y - 1;
    }
}

/// Drops the jaw: fills the mouth with `inner`, then copies the mouth's own
/// visible pixels `drop` rows down. With fewer than three vertices, a closed
/// mouth, no area or no drop the picture comes back as it was.
pub fn jaw_drop(
    base: &RgbaImage,
    vertices: usize,
    talking: bool,
    mouth: Option<&Mask>,
    drop: u32,
    inner: [u8; 3],
) -> (r: RgbaImage)
    requires
        base@.wf(),
        mouth matches Some(m) ==> m.wf() && m.fits(base@.width, base@.height),
    ensures
        r@.wf(),
        r@ == jaw_dropped(
            base@,
            vertices as int,
            talking,
            match mouth {
                Some(m) => Some(*m),
                None => None,
            },
            drop as int,
            inner,
        ),
{
    let mut out = base.clone();
    if vertices < 3 || !talking {
        return out;
    }
    match mouth {
        None => out,
        Some(m) => {
            if drop < 1 {
                return out;
            }
            fill(&mut out, m, inner);
            shift(&mut out, base, m, drop);
            proof {
                let want = jaw_picture(base@, *m, drop as int, inner);
                assert(want.wf());
                assert forall|x: int, y: int| out@.has(x, y) implies #[trigger] out@.at(x, y)
                    == want.at(x, y) by {
                    lemma_jaw_at(base@, *m, drop as int, inner, x, y);
                }
                lemma_same_cells(out@, want);
            }
            out
        },
    }
}

/// A jaw drop touches only the mouth and the cells `drop` rows below it.
pub proof fn lemma_jaw_stays_near(
    base: Picture,
    mouth: Mask,
    drop: int,
    inner: [u8; 3],
    x: int,
    y: int,
)
    requires
        base.wf(),
        base.has(x, y),
        !mouth.covers(x, y),
        !mouth.covers(x, y - drop),
    ensures
        jaw_picture(base, mouth, drop, inner).at(x, y) == base.at(x, y),
{
    lemma_jaw_at(base, mouth, drop, inner, x, y);
}

/// No visible pixel that the mouth covers is lost to a jaw drop, unless the
/// drop carries it off the picture: it stands `drop` rows lower.
pub proof fn lemma_jaw_keeps_content(
    base: Picture,
    mouth: Mask,
    drop: int,
    inner: [u8; 3],
    x: int,
    y: int,
)
    requires
        base.wf(),
        base.has(x, y),
        base.has(x, y + drop),
        mouth.covers(x, y),
        base.at(x, y).a > 0,
    ensures
        jaw_picture(base, mouth, drop, inner).at(x, y + drop) == base.at(x, y),
{
    lemma_jaw_at(base, mouth, drop, inner, x, y + drop);
}

/// A pixel that can be seen can still be seen after a jaw drop.
pub proof fn lemma_jaw_shows_no_hole(
    base: Picture,
    mouth: Mask,
    drop: int,
    inner: [u8; 3],
    x: int,
    y: int,
)
    requires
        base.wf(),
        base.has(x, y),
        base.at(x, y).a > 0,
    ensures
        jaw_picture(base, mouth, drop, inner).at(x, y).a > 0,
{
    lemma_jaw_at(base, mouth, drop, inner, x, y);
}

/// What a talking mouth shows in a cell: the pixel that lies `drop` rows higher,
/// where the outline covers that one and it is not wholly transparent; else, inside
/// the outline, the opaque colour of the mouth's inside; else the picture as it was.
/// A jaw that has not dropped by a whole row, an outline of fewer than three points
/// and a mouth at rest change nothing.
pub proof fn lemma_jaw_cell(
    base: Picture,
    vertices: int,
    talking: bool,
    mouth: Mask,
    drop: int,
    inner: [u8; 3],
    x: int,
    y: int,
)
    requires
        base.wf(),
        base.has(x, y),
    ensures
        vertices < 3 || !talking || drop < 1 ==> jaw_dropped(
            base,
            vertices,
            talking,
            Some(mouth),
            drop,
            inner,
        ) == base,
        jaw_dropped(base, vertices, talking, None, drop, inner) == base,
        vertices >= 3 && talking && drop >= 1 ==> {
            let r = jaw_dropped(base, vertices, talking, Some(mouth), drop, inner).at(x, y);
            let above = base.at(x, y - drop);
            &&& mouth.covers(x, y - drop) && above.a != 0 ==> r == above
            &&& !mouth.covers(x, y - drop) || above.a == 0 ==> {
                &&& mouth.covers(x, y) ==> r.r == inner@[0] && r.g == inner@[1] && r.b == inner@[2]
                    && r.a == 255
                &&& !mouth.covers(x, y) ==> r == base.at(x, y)
            }
        },
{
    lemma_jaw_at(base, mouth, drop, inner, x, y);
}

} // verus!
