//! Camera moves over a background picture.

use vstd::prelude::*;

use crate::canvas::{lemma_same_cells, lemma_set_at, Picture, Rgba, RgbaImage};
use crate::text::same_text;

verus! {

broadcast use lemma_set_at;

/// The four pixels around a place between cells.
#[derive(Clone, Copy, PartialEq, Eq, Debug, Structural)]
pub struct Taps {
    pub p00: Rgba,
    pub p10: Rgba,
    pub p01: Rgba,
    pub p11: Rgba,
}

/// `a + 1`, but at most the last cell of a side of `side` cells.
pub open spec fn next_cell(a: int, side: int) -> int {
    if a + 1 < side {
        a + 1
    } else {
        side - 1
    }
}

/// The pixel of a cell with its neighbours to the right and below; past the
/// edge the last row and column stand for what is not there.
pub open spec fn taps_at(pic: Picture, x: int, y: int) -> Taps {
    let x1 = next_cell(x, pic.width as int);
    let y1 = next_cell(y, pic.height as int);
    Taps { p00: pic.at(x, y), p10: pic.at(x1, y), p01: pic.at(x, y1), p11: pic.at(x1, y1) }
}

/// Reads the four pixels that a place between cells lies among.
pub fn taps(img: &RgbaImage, x: u32, y: u32) -> (r: Taps)
    requires
        img@.wf(),
        img@.has(x as int, y as int),
    ensures
        r == taps_at(img@, x as int, y as int),
{
    let (w, h) = img.dimensions();
    let x1: u32 = if x < w - 1 {
        x + 1
    } else {
        w - 1
    };
    let y1: u32 = if y < h - 1 {
        y + 1
    } else {
        h - 1
    };
    Taps {
        p00: img.get_pixel(x, y),
        p10: img.get_pixel(x1, y),
        p01: img.get_pixel(x, y1),
        p11: img.get_pixel(x1, y1),
    }
}

/// How a background moves.
#[derive(Clone, Copy, PartialEq, Eq, Debug, Structural)]
pub enum BgMotion {
    Static,
    Zoom,
    Drift,
    Sway,
    Tilt,
}

/// The name of a motion in the list of motions.
pub open spec fn motion_value(m: BgMotion) -> Seq<char> {
    match m {
        BgMotion::Static => "static"@,
        BgMotion::Zoom => "zoom"@,
        BgMotion::Drift => "drift"@,
        BgMotion::Sway => "sway"@,
        BgMotion::Tilt => "tilt"@,
    }
}

/// The motion that a name stands for. A name that stands for none leaves the
/// background at rest.
pub open spec fn motion_of(value: Seq<char>) -> BgMotion {
    if value == "zoom"@ {
        BgMotion::Zoom
    } else if value == "drift"@ {
        BgMotion::Drift
    } else if value == "sway"@ {
        BgMotion::Sway
    } else if value == "tilt"@ {
        BgMotion::Tilt
    } else {
        BgMotion::Static
    }
}

impl BgMotion {
    /// The name of the motion in the list of motions.
    pub fn value(self) -> (r: &'static str)
        ensures
            r@ == motion_value(self),
    {
        match self {
            BgMotion::Static => "static",
            BgMotion::Zoom => "zoom",
            BgMotion::Drift => "drift",
            BgMotion::Sway => "sway",
            BgMotion::Tilt => "tilt",
        }
    }

    /// The motion that a name stands for.
    pub fn from_value(value: &str) -> (r: BgMotion)
        ensures
            r == motion_of(value@),
    {
        if same_text(value, "zoom") {
            BgMotion::Zoom
        } else if same_text(value, "drift") {
            BgMotion::Drift
        } else if same_text(value, "sway") {
            BgMotion::Sway
        } else if same_text(value, "tilt") {
            BgMotion::Tilt
        } else {
            BgMotion::Static
        }
    }
}

/// Every motion is found again by its name.
pub proof fn lemma_motion_names(m: BgMotion)
    ensures
        motion_of(motion_value(m)) == m,
{
    reveal_strlit("static");
    reveal_strlit("zoom");
    reveal_strlit("drift");
    reveal_strlit("sway");
    reveal_strlit("tilt");
    assert("zoom"@[0] == 'z' && "drift"@[0] == 'd' && "tilt"@[0] == 't');
    assert("static"@[1] == 't' && "sway"@[1] == 'w');
    assert("static"@[0] == 's' && "sway"@[0] == 's');
}

/// The background moves: it has a motion, and the motion has an amount.
pub open spec fn bg_moves(kind: BgMotion, moving: bool) -> bool {
    kind != BgMotion::Static && moving
}

/// What the camera may show in a cell: a mix of the four pixels around the
/// place where `locate` finds the cell in the background.
pub open spec fn moved_pixel<W, L: Fn(u32, u32) -> (u32, u32, W), M: Fn(Taps, W) -> Rgba>(
    pic: Picture,
    locate: L,
    mix: M,
    x: int,
    y: int,
    p: Rgba,
) -> bool {
    exists|at: (u32, u32, W)|
        call_ensures(locate, (x as u32, y as u32), at) && #[trigger] call_ensures(
            mix,
            (taps_at(pic, at.0 as int, at.1 as int), at.2),
            p,
        )
}

/// `r` is a picture that the camera may show of the background.
pub open spec fn is_moved<W, L: Fn(u32, u32) -> (u32, u32, W), M: Fn(Taps, W) -> Rgba>(
    pic: Picture,
    kind: BgMotion,
    moving: bool,
    locate: L,
    mix: M,
    r: Picture,
) -> bool {
    &&& r.wf()
    &&& r.same_size(pic)
    &&& !bg_moves(kind, moving) ==> r == pic
    &&& bg_moves(kind, moving) ==> forall|x: int, y: int|
        pic.has(x, y) ==> moved_pixel(pic, locate, mix, x, y, #[trigger] r.at(x, y))
}

/// One picture of a moving background. `locate` says for a cell of the canvas
/// in which cell of the background it lies and how far from that cell's
/// centre; `mix` blends the four pixels around by that.
pub fn animate_bg<W, L: Fn(u32, u32) -> (u32, u32, W), M: Fn(Taps, W) -> Rgba>(
    img: &RgbaImage,
    kind: BgMotion,
    moving: bool,
    locate: L,
    mix: M,
) -> (r: RgbaImage)
    requires
        img@.wf(),
        forall|x: u32, y: u32| img@.has(x as int, y as int) ==> call_requires(locate, (x, y)),
        forall|x: u32, y: u32, at: (u32, u32, W)|
            img@.has(x as int, y as int) && #[trigger] call_ensures(locate, (x, y), at) ==> img@.has(
                at.0 as int,
                at.1 as int,
            ),
        forall|t: Taps, w: W| call_requires(mix, (t, w)),
    ensures
        r@.wf(),
        r@.same_size(img@),
        !bg_moves(kind, moving) ==> r@ == img@,
        bg_moves(kind, moving) ==> forall|x: int, y: int|
            img@.has(x, y) ==> moved_pixel(img@, locate, mix, x, y, #[trigger] r@.at(x, y)),
        is_moved(img@, kind, moving, locate, mix, r@),
{
    let mut out = img.clone();
    if kind == BgMotion::Static || !moving {
        return out;
    }
    let (w, h) = img.dimensions();
    for y in 0..h
        invariant
            img@.wf(),
            w == img@.width,
            h == img@.height,
            out@.wf(),
            out@.same_size(img@),
            forall|i: u32, j: u32| img@.has(i as int, j as int) ==> call_requires(locate, (i, j)),
            forall|i: u32, j: u32, at: (u32, u32, W)|
                img@.has(i as int, j as int) && #[trigger] call_ensures(locate, (i, j), at)
                    ==> img@.has(at.0 as int, at.1 as int),
            forall|t: Taps, q: W| call_requires(mix, (t, q)),
            forall|i: int, j: int|
                img@.has(i, j) && j < y ==> moved_pixel(
                    img@,
                    locate,
                    mix,
                    i,
                    j,
                    #[trigger] out@.at(i, j),
                ),
    {
        for x in 0..w
            invariant
                img@.wf(),
                w == img@.width,
                h == img@.height,
                y < h,
                out@.wf(),
                out@.same_size(img@),
                forall|i: u32, j: u32| img@.has(i as int, j as int) ==> call_requires(locate, (i, j)),
                forall|i: u32, j: u32, at: (u32, u32, W)|
                    img@.has(i as int, j as int) && #[trigger] call_ensures(locate, (i, j), at)
                        ==> img@.has(at.0 as int, at.1 as int),
                forall|t: Taps, q: W| call_requires(mix, (t, q)),
                forall|i: int, j: int|
                    img@.has(i, j) && (j < y || (j == y && i < x)) ==> moved_pixel(
                        img@,
                        locate,
                        mix,
                        i,
                        j,
                        #[trigger] out@.at(i, j),
                    ),
        {
            assert(img@.has(x as int, y as int));
            let at = locate(x, y);
            let ghost found = at;
            let t = taps(img, at.0, at.1);
            let p = mix(t, at.2);
            assert(call_ensures(
                mix,
                (taps_at(img@, found.0 as int, found.1 as int), found.2),
                p,
            ));
            assert(moved_pixel(img@, locate, mix, x as int, y as int, p));
            let ghost prev = out@;
            out.put_pixel(x, y, p);
            assert forall|i: int, j: int| img@.has(i, j) && (j < y || (j == y && i < x + 1)) implies
                moved_pixel(img@, locate, mix, i, j, #[trigger] out@.at(i, j)) by {
                lemma_set_at(prev, x as int, y as int, p, i, j);
                if !(i == x && j == y) {
                    assert(moved_pixel(img@, locate, mix, i, j, prev.at(i, j)));
                }
            }
        }
    }
    out
}

/// The four pixels around a place are those of its cell, of the cell to the right,
/// of the cell below and of the one diagonally below; at the right and the lower
/// edge the edge itself stands for what lies beyond.
pub proof fn lemma_taps(pic: Picture, x: int, y: int)
    requires
        pic.wf(),
        pic.has(x, y),
    ensures
        taps_at(pic, x, y).p00 == pic.at(x, y),
        pic.has(x + 1, y) ==> taps_at(pic, x, y).p10 == pic.at(x + 1, y),
        !pic.has(x + 1, y) ==> taps_at(pic, x, y).p10 == pic.at(x, y) && taps_at(pic, x, y).p11
            == taps_at(pic, x, y).p01,
        pic.has(x, y + 1) ==> taps_at(pic, x, y).p01 == pic.at(x, y + 1),
        !pic.has(x, y + 1) ==> taps_at(pic, x, y).p01 == pic.at(x, y) && taps_at(pic, x, y).p11
            == taps_at(pic, x, y).p10,
        pic.has(x + 1, y + 1) ==> taps_at(pic, x, y).p11 == pic.at(x + 1, y + 1),
{
}

/// A background with a motion and an amount shows in each cell a mix of the pixels
/// around the place where that very cell lies: whenever `locate` finds the cell
/// `(x, y)` only at `(u, v)` with `w`, the pixel at `(x, y)` is an outcome of `mix`
/// on the pixel at `(u, v)` and its neighbours, and on `w`.
pub proof fn lemma_moved_cell<W, L: Fn(u32, u32) -> (u32, u32, W), M: Fn(Taps, W) -> Rgba>(
    pic: Picture,
    kind: BgMotion,
    locate: L,
    mix: M,
    r: Picture,
    x: u32,
    y: u32,
    u: u32,
    v: u32,
    w: W,
)
    requires
        kind is Zoom || kind is Drift || kind is Sway || kind is Tilt,
        is_moved(pic, kind, true, locate, mix, r),
        pic.has(x as int, y as int),
        pic.has(u as int, v as int),
        forall|at: (u32, u32, W)| #[trigger] call_ensures(locate, (x, y), at) ==> at == (u, v, w),
    ensures
        exists|t: Taps|
            {
                &&& #[trigger] call_ensures(mix, (t, w), r.at(x as int, y as int))
                &&& t.p00 == pic.at(u as int, v as int)
                &&& t.p10 == pic.at(
                    if u + 1 < pic.width {
                        u + 1
                    } else {
                        u as int
                    },
                    v as int,
                )
                &&& t.p01 == pic.at(
                    u as int,
                    if v + 1 < pic.height {
                        v + 1
                    } else {
                        v as int
                    },
                )
                &&& t.p11 == pic.at(
                    if u + 1 < pic.width {
                        u + 1
                    } else {
                        u as int
                    },
                    if v + 1 < pic.height {
                        v + 1
                    } else {
                        v as int
                    },
                )
            },
{
    let p = r.at(x as int, y as int);
    assert(moved_pixel(pic, locate, mix, x as int, y as int, p));
    let at = choose|at: (u32, u32, W)|
        call_ensures(locate, (x, y), at) && #[trigger] call_ensures(
            mix,
            (taps_at(pic, at.0 as int, at.1 as int), at.2),
            p,
        );
    assert(at == (u, v, w));
    let t = taps_at(pic, u as int, v as int);
    assert(call_ensures(mix, (t, w), p));
}

/// A camera that finds every cell in itself, and a mix that gives the pixel of the
/// cell there, show the background as it is. So does a background at rest, with
/// any camera.
pub proof fn lemma_still_camera<W, L: Fn(u32, u32) -> (u32, u32, W), M: Fn(Taps, W) -> Rgba>(
    pic: Picture,
    kind: BgMotion,
    moving: bool,
    locate: L,
    mix: M,
    r: Picture,
)
    requires
        pic.wf(),
        is_moved(pic, kind, moving, locate, mix, r),
        kind is Static || !moving || {
            &&& forall|x: u32, y: u32, at: (u32, u32, W)| #[trigger]
                call_ensures(locate, (x, y), at) ==> at.0 == x && at.1 == y
            &&& forall|x: u32, y: u32, at: (u32, u32, W), t: Taps, p: Rgba|
                #[trigger] call_ensures(locate, (x, y), at) && #[trigger] call_ensures(
                    mix,
                    (t, at.2),
                    p,
                ) ==> p == t.p00
        },
    ensures
        r == pic,
{
    if bg_moves(kind, moving) {
        assert forall|x: int, y: int| pic.has(x, y) implies #[trigger] r.at(x, y) == pic.at(x, y) by {
            assert(moved_pixel(pic, locate, mix, x, y, r.at(x, y)));
        }
        lemma_same_cells(r, pic);
    }
}

/// What the camera shows does not hang on which motion it is that moves.
pub proof fn lemma_any_motion_moves<W, L: Fn(u32, u32) -> (u32, u32, W), M: Fn(Taps, W) -> Rgba>(
    pic: Picture,
    kind: BgMotion,
    moving: bool,
    locate: L,
    mix: M,
    r: Picture,
)
    requires
        kind is Zoom || kind is Drift || kind is Sway || kind is Tilt,
    ensures
        is_moved(pic, kind, moving, locate, mix, r) <==> is_moved(
            pic,
            BgMotion::Zoom,
            moving,
            locate,
            mix,
            r,
        ),
{
}

/// What the names of the motions stand for; a name that stands for none leaves the
/// background at rest.
pub proof fn lemma_motion_by_name(m: BgMotion, value: Seq<char>)
    ensures
        motion_value(BgMotion::Static) == "static"@,
        motion_value(BgMotion::Zoom) == "zoom"@,
        motion_value(BgMotion::Drift) == "drift"@,
        motion_value(BgMotion::Sway) == "sway"@,
        motion_value(BgMotion::Tilt) == "tilt"@,
        motion_of(value) == m && !(m is Static) ==> value == motion_value(m),
        (forall|k: BgMotion| value != #[trigger] motion_value(k)) ==> motion_of(value)
            == BgMotion::Static,
{
    assert(motion_value(BgMotion::Zoom) == "zoom"@);
    assert(motion_value(BgMotion::Drift) == "drift"@);
    assert(motion_value(BgMotion::Sway) == "sway"@);
    assert(motion_value(BgMotion::Tilt) == "tilt"@);
}

} // verus!
