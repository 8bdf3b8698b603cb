//! Visualizers: opaque backdrops and floating particles.

use vstd::prelude::*;

use crate::canvas::{can_hold, lemma_set_at, Picture, Rgba, RgbaImage};
use crate::talk::solid;
use crate::text::same_text;

verus! {

broadcast use lemma_set_at;

/// What a visualizer shows.
#[derive(Clone, Copy, PartialEq, Eq, Debug, Structural)]
pub enum VizKind {
    Bars,
    Waves,
    Starfield,
    Fireflies,
    Snow,
    Embers,
}

/// Particles float above the background picture, on a transparent canvas; the
/// other kinds are opaque backdrops below it.
pub open spec fn overlay(kind: VizKind) -> bool {
    kind == VizKind::Fireflies || kind == VizKind::Snow || kind == VizKind::Embers
}

/// The name of a kind in the list of kinds.
pub open spec fn viz_value(kind: VizKind) -> Seq<char> {
    match kind {
        VizKind::Bars => "bars"@,
        VizKind::Waves => "waves"@,
        VizKind::Starfield => "stars"@,
        VizKind::Fireflies => "fireflies"@,
        VizKind::Snow => "snow"@,
        VizKind::Embers => "embers"@,
    }
}

/// The kind that a name stands for; bars, where it stands for none.
pub open spec fn viz_of(value: Seq<char>) -> VizKind {
    if value == "waves"@ {
        VizKind::Waves
    } else if value == "stars"@ {
        VizKind::Starfield
    } else if value == "fireflies"@ {
        VizKind::Fireflies
    } else if value == "snow"@ {
        VizKind::Snow
    } else if value == "embers"@ {
        VizKind::Embers
    } else {
        VizKind::Bars
    }
}

impl VizKind {
    /// Does the kind float above the background picture?
    pub fn is_overlay(self) -> (r: bool)
        ensures
            r == overlay(self),
    {
        match self {
            VizKind::Fireflies | VizKind::Snow | VizKind::Embers => true,
            _ => false,
        }
    }

    /// The name of the kind in the list of kinds.
    pub fn value(self) -> (r: &'static str)
        ensures
            r@ == viz_value(self),
    {
        match self {
            VizKind::Bars => "bars",
            VizKind::Waves => "waves",
            VizKind::Starfield => "stars",
            VizKind::Fireflies => "fireflies",
            VizKind::Snow => "snow",
            VizKind::Embers => "embers",
        }
    }

    /// The kind that a name stands for.
    pub fn from_value(value: &str) -> (r: VizKind)
        ensures
            r == viz_of(value@),
    {
        if same_text(value, "waves") {
            VizKind::Waves
        } else if same_text(value, "stars") {
            VizKind::Starfield
        } else if same_text(value, "fireflies") {
            VizKind::Fireflies
        } else if same_text(value, "snow") {
            VizKind::Snow
        } else if same_text(value, "embers") {
            VizKind::Embers
        } else {
            VizKind::Bars
        }
    }
}

/// Every kind is found again by its name.
pub proof fn lemma_viz_names(kind: VizKind)
    ensures
        viz_of(viz_value(kind)) == kind,
{
    reveal_strlit("bars");
    reveal_strlit("waves");
    reveal_strlit("stars");
    reveal_strlit("fireflies");
    reveal_strlit("snow");
    reveal_strlit("embers");
    assert("bars"@[0] == 'b' && "waves"@[0] == 'w' && "stars"@[0] == 's');
    assert("fireflies"@[0] == 'f' && "snow"@[0] == 's' && "embers"@[0] == 'e');
    assert("stars"@[1] == 't' && "snow"@[1] == 'n');
}

/// The scramble behind a particle's place, size and pace: ten-thousandths in
/// `0..10000`, the same ones for the same number.
pub open spec fn scramble(n: u32) -> u32 {
    let a = ((n * 2654435761) % 0x1_0000_0000) as u32;
    let b = a ^ (a >> 16);
    let c = ((b * 2246822519) % 0x1_0000_0000) as u32;
    let d = c ^ (c >> 13);
    d % 10000
}

/// Scrambles a number into ten-thousandths.
pub fn hash01(n: u32) -> (r: u32)
    ensures
        r == scramble(n),
        r < 10000,
{
    let a: u32 = n.wrapping_mul(2654435761);
    let b: u32 = a ^ (a >> 16);
    let c: u32 = b.wrapping_mul(2246822519);
    let d: u32 = c ^ (c >> 13);
    d % 10000
}

/// The colour of a hue: on each sixth of the colour circle one channel is
/// strong, one is on its way and one is weak.
pub open spec fn wheel_color(sector: u32, strong: u8, between: u8, weak: u8) -> Seq<u8> {
    if sector == 0 {
        seq![strong, between, weak]
    } else if sector == 1 {
        seq![between, strong, weak]
    } else if sector == 2 {
        seq![weak, strong, between]
    } else if sector == 3 {
        seq![weak, between, strong]
    } else if sector == 4 {
        seq![between, weak, strong]
    } else {
        seq![strong, weak, between]
    }
}

/// Puts the three strengths of a hue's channels in their order.
pub fn hsv(sector: u32, strong: u8, between: u8, weak: u8) -> (r: [u8; 3])
    ensures
        r@ == wheel_color(sector, strong, between, weak),
{
    let r = match sector {
        0 => [strong, between, weak],
        1 => [between, strong, weak],
        2 => [weak, strong, between],
        3 => [weak, between, strong],
        4 => [between, weak, strong],
        _ => [strong, weak, between],
    };
    assert(r@ =~= wheel_color(sector, strong, between, weak));
    r
}

/// One bar: its height, its first column, the column behind its last, and its
/// colour.
#[derive(Clone, Copy, PartialEq, Eq, Debug)]
pub struct Bar {
    pub height: u32,
    pub x0: u32,
    pub x1: u32,
    pub color: [u8; 3],
}

/// Does the bar reach the cell? Bars stand on the lower edge.
pub open spec fn bar_covers(bar: Bar, h: int, x: int, y: int) -> bool {
    bar.x0 <= x < bar.x1 && y + bar.height >= h
}

/// The pixel of a cell once the first `n` bars stand.
pub open spec fn bars_pixel(bars: Seq<Bar>, n: nat, base: Rgba, h: int, x: int, y: int) -> Rgba
    decreases n,
{
    if n == 0 {
        base
    } else if bar_covers(bars[n - 1], h, x, y) {
        solid(bars[n - 1].color)
    } else {
        bars_pixel(bars, (n - 1) as nat, base, h, x, y)
    }
}

/// Draws one bar.
fn draw_bar(img: &mut RgbaImage, bar: &Bar)
    requires
        old(img)@.wf(),
    ensures
        final(img)@.wf(),
        final(img)@.same_size(old(img)@),
        forall|x: int, y: int|
            old(img)@.has(x, y) ==> #[trigger] final(img)@.at(x, y) == (if bar_covers(
                *bar,
                old(img)@.height as int,
                x,
                y,
            ) {
                solid(bar.color)
            } else {
                old(img)@.at(x, y)
            }),
{
    let (w, h) = img.dimensions();
    let ghost before = img@;
    let bh: u32 = if bar.height < h {
        bar.height
    } else {
        h
    };
    let x1: u32 = if bar.x1 < w {
        bar.x1
    } else {
        w
    };
    let p = Rgba::new(bar.color[0], bar.color[1], bar.color[2], 255);
    let mut y: u32 = h - bh;
    while y < h
        invariant
            before.wf(),
            w == before.width,
            h == before.height,
            h - bh <= y <= h,
            bh == if bar.height < h { bar.height } else { h },
            x1 == if bar.x1 < w { bar.x1 } else { w },
            p == solid(bar.color),
            img@.wf(),
            img@.same_size(before),
            forall|i: int, j: int|
                before.has(i, j) ==> #[trigger] img@.at(i, j) == (if bar_covers(*bar, h as int, i, j)
                    && j < y {
                    p
                } else {
                    before.at(i, j)
                }),
        decreases h - y,
    {
        let mut x: u32 = bar.x0;
        while x < x1
            invariant
                before.wf(),
                w == before.width,
                h == before.height,
                h - bh <= y < h,
                bh == if bar.height < h { bar.height } else { h },
                x1 == if bar.x1 < w { bar.x1 } else { w },
                p == solid(bar.color),
                bar.x0 <= x,
                x <= x1 || x == bar.x0,
                img@.wf(),
                img@.same_size(before),
                forall|i: int, j: int|
                    before.has(i, j) ==> #[trigger] img@.at(i, j) == (if bar_covers(
                        *bar,
                        h as int,
                        i,
                        j,
                    ) && (j < y || (j == y && i < x)) {
                        p
                    } else {
                        before.at(i, j)
                    }),
            decreases x1 - x,
        {
            let ghost prev = img@;
            img.put_pixel(x, y, p);
            assert forall|i: int, j: int| before.has(i, j) implies #[trigger] img@.at(i, j) == (
            if bar_covers(*bar, h as int, i, j) && (j < y || (j == y && i < x + 1)) {
                p
            } else {
                before.at(i, j)
            }) by {
                lemma_set_at(prev, x as int, y as int, p, i, j);
            }
            x = x + 1;
        }
        y = y + 1;
    }
}

/// Draws the bars in their order.
fn draw_bars(img: &mut RgbaImage, bars: &Vec<Bar>)
    requires
        old(img)@.wf(),
    ensures
        final(img)@.wf(),
        final(img)@.same_size(old(img)@),
        forall|x: int, y: int|
            old(img)@.has(x, y) ==> #[trigger] final(img)@.at(x, y) == bars_pixel(
                bars@,
                bars@.len(),
                old(img)@.at(x, y),
                old(img)@.height as int,
                x,
                y,
            ),
{
    let ghost before = img@;
    for k in 0..bars.len()
        invariant
            before.wf(),
            img@.wf(),
            img@.same_size(before),
            forall|i: int, j: int|
                before.has(i, j) ==> #[trigger] img@.at(i, j) == bars_pixel(
                    bars@,
                    k as nat,
                    before.at(i, j),
                    before.height as int,
                    i,
                    j,
                ),
    {
        let ghost prev = img@;
        draw_bar(img, &bars[k]);
        assert forall|i: int, j: int| before.has(i, j) implies #[trigger] img@.at(i, j)
            == bars_pixel(bars@, (k + 1) as nat, before.at(i, j), before.height as int, i, j) by {
            assert(prev.has(i, j));
            assert(prev.at(i, j) == bars_pixel(
                bars@,
                k as nat,
                before.at(i, j),
                before.height as int,
                i,
                j,
            ));
        }
    }
}

/// One star: its column, its row and its brightness.
#[derive(Clone, Copy, PartialEq, Eq, Debug, Structural)]
pub struct Star {
    pub x: u32,
    pub y: u32,
    pub light: u8,
}

/// Does the star light the cell? A star is two by two pixels, cut at the edges;
/// its column is kept on the picture, its row wraps round.
pub open spec fn star_covers(star: Star, w: int, h: int, x: int, y: int) -> bool {
    let sx = if star.x < w - 1 {
        star.x as int
    } else {
        w - 1
    };
    let sy = star.y as int % h;
    (x == sx || x == sx + 1) && (y == sy || y == sy + 1)
}

/// The pixel of a star.
pub open spec fn star_pixel(star: Star) -> Rgba {
    Rgba { r: star.light, g: star.light, b: star.light, a: 255 }
}

/// The pixel of a cell once the first `n` stars shine.
pub open spec fn stars_pixel(
    stars: Seq<Star>,
    n: nat,
    base: Rgba,
    w: int,
    h: int,
    x: int,
    y: int,
) -> Rgba
    decreases n,
{
    if n == 0 {
        base
    } else if star_covers(stars[n - 1], w, h, x, y) {
        star_pixel(stars[n - 1])
    } else {
        stars_pixel(stars, (n - 1) as nat, base, w, h, x, y)
    }
}

/// Draws one star.
fn draw_star(img: &mut RgbaImage, star: Star)
    requires
        old(img)@.wf(),
        old(img)@.width > 0,
        old(img)@.height > 0,
    ensures
        final(img)@.wf(),
        final(img)@.same_size(old(img)@),
        forall|x: int, y: int|
            old(img)@.has(x, y) ==> #[trigger] final(img)@.at(x, y) == (if star_covers(
                star,
                old(img)@.width as int,
                old(img)@.height as int,
                x,
                y,
            ) {
                star_pixel(star)
            } else {
                old(img)@.at(x, y)
            }),
{
    let (w, h) = img.dimensions();
    let p = Rgba::new(star.light, star.light, star.light, 255);
    let x: u32 = if star.x < w - 1 {
        star.x
    } else {
        w - 1
    };
    let y: u32 = star.y % h;
    let x1: u32 = if x < w - 1 {
        x + 1
    } else {
        w - 1
    };
    let y1: u32 = if y < h - 1 {
        y + 1
    } else {
        h - 1
    };
    let ghost g0 = img@;
    img.put_pixel(x, y, p);
    let ghost g1 = img@;
    img.put_pixel(x1, y, p);
    let ghost g2 = img@;
    img.put_pixel(x, y1, p);
    let ghost g3 = img@;
    img.put_pixel(x1, y1, p);
    assert forall|i: int, j: int| g0.has(i, j) implies #[trigger] img@.at(i, j) == (if star_covers(
        star,
        w as int,
        h as int,
        i,
        j,
    ) {
        star_pixel(star)
    } else {
        g0.at(i, j)
    }) by {
        lemma_set_at(g0, x as int, y as int, p, i, j);
        lemma_set_at(g1, x1 as int, y as int, p, i, j);
        lemma_set_at(g2, x as int, y1 as int, p, i, j);
        lemma_set_at(g3, x1 as int, y1 as int, p, i, j);
    }
}

/// Draws the stars in their order.
fn draw_stars(img: &mut RgbaImage, stars: &Vec<Star>)
    requires
        old(img)@.wf(),
        old(img)@.width > 0,
        old(img)@.height > 0,
    ensures
        final(img)@.wf(),
        final(img)@.same_size(old(img)@),
        forall|x: int, y: int|
            old(img)@.has(x, y) ==> #[trigger] final(img)@.at(x, y) == stars_pixel(
                stars@,
                stars@.len(),
                old(img)@.at(x, y),
                old(img)@.width as int,
                old(img)@.height as int,
                x,
                y,
            ),
{
    let ghost before = img@;
    for k in 0..stars.len()
        invariant
            before.wf(),
            before.width > 0,
            before.height > 0,
            img@.wf(),
            img@.same_size(before),
            forall|i: int, j: int|
                before.has(i, j) ==> #[trigger] img@.at(i, j) == stars_pixel(
                    stars@,
                    k as nat,
                    before.at(i, j),
                    before.width as int,
                    before.height as int,
                    i,
                    j,
                ),
    {
        let ghost prev = img@;
        draw_star(img, stars[k]);
        assert forall|i: int, j: int| before.has(i, j) implies #[trigger] img@.at(i, j)
            == stars_pixel(
            stars@,
            (k + 1) as nat,
            before.at(i, j),
            before.width as int,
            before.height as int,
            i,
            j,
        ) by {
            assert(prev.has(i, j));
            assert(prev.at(i, j) == stars_pixel(
                stars@,
                k as nat,
                before.at(i, j),
                before.width as int,
                before.height as int,
                i,
                j,
            ));
        }
    }
}

/// The cells that a glowing dot may reach: its first column and row, and its
/// last ones. A dot without size or light is not lit.
#[derive(Clone, Copy, PartialEq, Eq, Debug, Structural)]
pub struct Dot {
    pub x0: u32,
    pub y0: u32,
    pub x1: u32,
    pub y1: u32,
    pub lit: bool,
}

/// Can the dot reach the cell?
pub open spec fn dot_reaches(dot: Dot, x: int, y: int) -> bool {
    dot.lit && dot.x0 <= x <= dot.x1 && dot.y0 <= y <= dot.y1
}

/// A pixel with light on it. Where the light is too faint it stays as it is;
/// elsewhere it takes the colour of the light and the greater of the alphas.
pub open spec fn lightened(p: Rgba, light: Option<Rgba>) -> Rgba {
    match light {
        None => p,
        Some(q) => Rgba {
            a: if q.a > p.a {
                q.a
            } else {
                p.a
            },
            ..q
        },
    }
}

/// What dot `k` may make of a pixel.
pub open spec fn glow_result<B: Fn(usize, u32, u32, Rgba) -> Option<Rgba>>(
    light: B,
    k: int,
    x: int,
    y: int,
    p: Rgba,
    after: Rgba,
) -> bool {
    exists|q: Option<Rgba>| #[trigger]
        call_ensures(light, (k as usize, x as u32, y as u32, p), q) && after == lightened(p, q)
}

/// One picture becomes another when dot `k` glows on it.
pub open spec fn glowed<B: Fn(usize, u32, u32, Rgba) -> Option<Rgba>>(
    before: Picture,
    after: Picture,
    dot: Dot,
    k: int,
    light: B,
) -> bool {
    &&& after.wf()
    &&& after.same_size(before)
    &&& forall|x: int, y: int|
        before.has(x, y) ==> if dot_reaches(dot, x, y) {
            glow_result(light, k, x, y, before.at(x, y), #[trigger] after.at(x, y))
        } else {
            after.at(x, y) == before.at(x, y)
        }
}

/// Lets dot `k` glow on the picture. `light` says what the dot's light makes
/// of a pixel, or `None` where it is too faint.
pub fn glow<B: Fn(usize, u32, u32, Rgba) -> Option<Rgba>>(
    img: &mut RgbaImage,
    dot: Dot,
    k: usize,
    light: &B,
)
    requires
        old(img)@.wf(),
        dot.lit ==> old(img)@.width > 0 && old(img)@.height > 0,
        forall|i: usize, x: u32, y: u32, p: Rgba| call_requires(*light, (i, x, y, p)),
    ensures
        glowed(old(img)@, final(img)@, dot, k as int, *light),
{
    let (w, h) = img.dimensions();
    if !dot.lit {
        return;
    }
    let ghost before = img@;
    let x1: u32 = if dot.x1 < w - 1 {
        dot.x1
    } else {
        w - 1
    };
    let y1: u32 = if dot.y1 < h - 1 {
        dot.y1
    } else {
        h - 1
    };
    let mut y: u32 = dot.y0;
    while y <= y1
        invariant
            before.wf(),
            w == before.width,
            h == before.height,
            w > 0,
            h > 0,
            dot.lit,
            x1 == if dot.x1 < w - 1 { dot.x1 } else { (w - 1) as u32 },
            y1 == if dot.y1 < h - 1 { dot.y1 } else { (h - 1) as u32 },
            dot.y0 <= y,
            img@.wf(),
            img@.same_size(before),
            forall|i: usize, a: u32, b: u32, p: Rgba| call_requires(*light, (i, a, b, p)),
            forall|i: int, j: int|
                before.has(i, j) ==> if dot_reaches(dot, i, j) && j < y {
                    glow_result(*light, k as int, i, j, before.at(i, j), #[trigger] img@.at(i, j))
                } else {
                    img@.at(i, j) == before.at(i, j)
                },
        decreases y1 + 1 - y,
    {
        let mut x: u32 = dot.x0;
        while x <= x1
            invariant
                before.wf(),
                w == before.width,
                h == before.height,
                w > 0,
                h > 0,
                dot.lit,
                x1 == if dot.x1 < w - 1 { dot.x1 } else { (w - 1) as u32 },
                y1 == if dot.y1 < h - 1 { dot.y1 } else { (h - 1) as u32 },
                dot.y0 <= y <= y1,
                dot.x0 <= x,
                img@.wf(),
                img@.same_size(before),
                forall|i: usize, a: u32, b: u32, p: Rgba| call_requires(*light, (i, a, b, p)),
                forall|i: int, j: int|
                    before.has(i, j) ==> if dot_reaches(dot, i, j) && (j < y || (j == y && i < x)) {
                        glow_result(*light, k as int, i, j, before.at(i, j), #[trigger] img@.at(i, j))
                    } else {
                        img@.at(i, j) == before.at(i, j)
                    },
            decreases x1 + 1 - x,
        {
            let ghost prev = img@;
            let p = img.get_pixel(x, y);
            let lit = light(k, x, y, p);
            let q = match lit {
                None => p,
                Some(c) => Rgba::new(
                    c.r,
                    c.g,
                    c.b,
                    if c.a > p.a {
                        c.a
                    } else {
                        p.a
                    },
                ),
            };
            img.put_pixel(x, y, q);
            proof {
                assert(prev.at(x as int, y as int) == before.at(x as int, y as int));
                assert(q == lightened(p, lit));
                assert(glow_result(*light, k as int, x as int, y as int, p, q));
                assert forall|i: int, j: int| before.has(i, j) implies if dot_reaches(dot, i, j) && (j
                    < y || (j == y && i < x + 1)) {
                    glow_result(*light, k as int, i, j, before.at(i, j), #[trigger] img@.at(i, j))
                } else {
                    img@.at(i, j) == before.at(i, j)
                } by {
                    lemma_set_at(prev, x as int, y as int, q, i, j);
                }
            }
            x = x + 1;
        }
        y = y + 1;
    }
}

/// The pictures that a canvas goes through while the dots glow on it one after
/// another.
pub open spec fn glow_steps<B: Fn(usize, u32, u32, Rgba) -> Option<Rgba>>(
    steps: Seq<Picture>,
    dots: Seq<Dot>,
    light: B,
) -> bool {
    &&& steps.len() == dots.len() + 1
    &&& forall|k: int|
        0 <= k < dots.len() ==> glowed(#[trigger] steps[k], steps[k + 1], dots[k], k, light)
}

/// Lets the dots glow in their order.
fn draw_dots<B: Fn(usize, u32, u32, Rgba) -> Option<Rgba>>(
    img: &mut RgbaImage,
    dots: &Vec<Dot>,
    light: &B,
)
    requires
        old(img)@.wf(),
        forall|k: int|
            0 <= k < dots@.len() && (#[trigger] dots@[k]).lit ==> old(img)@.width > 0
                && old(img)@.height > 0,
        forall|i: usize, x: u32, y: u32, p: Rgba| call_requires(*light, (i, x, y, p)),
    ensures
        final(img)@.wf(),
        final(img)@.same_size(old(img)@),
        exists|steps: Seq<Picture>| #[trigger]
            glow_steps(steps, dots@, *light) && steps[0] == old(img)@ && steps.last() == final(img)@,
{
    let ghost before = img@;
    let ghost mut steps: Seq<Picture> = seq![img@];
    for k in 0..dots.len()
        invariant
            before.wf(),
            forall|j: int|
                0 <= j < dots@.len() && (#[trigger] dots@[j]).lit ==> before.width > 0
                    && before.height > 0,
            img@.wf(),
            img@.same_size(before),
            forall|i: usize, x: u32, y: u32, p: Rgba| call_requires(*light, (i, x, y, p)),
            steps.len() == k + 1,
            steps[0] == before,
            steps.last() == img@,
            forall|j: int|
                0 <= j < k ==> glowed(#[trigger] steps[j], steps[j + 1], dots@[j], j, *light),
    {
        glow(img, dots[k], k, light);
        proof {
            let old_steps = steps;
            steps = steps.push(img@);
            assert forall|j: int| 0 <= j < k + 1 implies glowed(
                #[trigger] steps[j],
                steps[j + 1],
                dots@[j],
                j,
                *light,
            ) by {
                if j < k {
                    assert(glowed(old_steps[j], old_steps[j + 1], dots@[j], j, *light));
                }
            }
        }
    }
    assert(glow_steps(steps, dots@, *light));
}

/// Colours every pixel by its place, opaquely.
fn draw_waves<C: Fn(u32, u32) -> [u8; 3]>(img: &mut RgbaImage, wave: &C)
    requires
        old(img)@.wf(),
        forall|x: u32, y: u32| call_requires(*wave, (x, y)),
    ensures
        final(img)@.wf(),
        final(img)@.same_size(old(img)@),
        forall|x: int, y: int|
            old(img)@.has(x, y) ==> wave_result(*wave, x, y, #[trigger] final(img)@.at(x, y)),
{
    let (w, h) = img.dimensions();
    let ghost before = img@;
    for y in 0..h
        invariant
            before.wf(),
            w == before.width,
            h == before.height,
            img@.wf(),
            img@.same_size(before),
            forall|i: u32, j: u32| call_requires(*wave, (i, j)),
            forall|i: int, j: int|
                before.has(i, j) && j < y ==> wave_result(*wave, i, j, #[trigger] img@.at(i, j)),
    {
        for x in 0..w
            invariant
                before.wf(),
                w == before.width,
                h == before.height,
                y < h,
                img@.wf(),
                img@.same_size(before),
                forall|i: u32, j: u32| call_requires(*wave, (i, j)),
                forall|i: int, j: int|
                    before.has(i, j) && (j < y || (j == y && i < x)) ==> wave_result(
                        *wave,
                        i,
                        j,
                        #[trigger] img@.at(i, j),
                    ),
        {
            let c = wave(x, y);
            let p = Rgba::new(c[0], c[1], c[2], 255);
            let ghost prev = img@;
            img.put_pixel(x, y, p);
            proof {
                assert(p == solid(c));
                assert(wave_result(*wave, x as int, y as int, p));
                assert forall|i: int, j: int| before.has(i, j) && (j < y || (j == y && i < x + 1)) implies
                    wave_result(*wave, i, j, #[trigger] img@.at(i, j)) by {
                    lemma_set_at(prev, x as int, y as int, p, i, j);
                    if !(i == x && j == y) {
                        assert(wave_result(*wave, i, j, prev.at(i, j)));
                    }
                }
            }
        }
    }
}

/// What a wave may make of a cell.
pub open spec fn wave_result<C: Fn(u32, u32) -> [u8; 3]>(wave: C, x: int, y: int, p: Rgba) -> bool {
    exists|c: [u8; 3]| #[trigger] call_ensures(wave, (x as u32, y as u32), c) && p == solid(c)
}

/// What a visualizer draws, apart from what it colours by place: its bars, its
/// stars and its dots.
pub struct Scene {
    pub bars: Vec<Bar>,
    pub stars: Vec<Star>,
    pub dots: Vec<Dot>,
}

/// The pixel of an empty canvas: transparent under particles, else a dark and
/// opaque one.
pub open spec fn canvas_pixel(kind: VizKind) -> Rgba {
    if overlay(kind) {
        Rgba { r: 0, g: 0, b: 0, a: 0 }
    } else {
        backdrop_pixel()
    }
}

/// The dark, opaque pixel of a backdrop without a picture.
pub open spec fn backdrop_pixel() -> Rgba {
    Rgba { r: 10, g: 12, b: 18, a: 255 }
}

/// Every pixel of the picture is `p`.
pub open spec fn is_plain(pic: Picture, p: Rgba) -> bool {
    pic.wf() && forall|x: int, y: int| pic.has(x, y) ==> #[trigger] pic.at(x, y) == p
}

/// `r` is what the visualizer shows.
pub open spec fn is_viz<
    C: Fn(u32, u32) -> [u8; 3],
    B: Fn(usize, u32, u32, Rgba) -> Option<Rgba>,
>(r: Picture, kind: VizKind, scene: Scene, wave: C, light: B) -> bool {
    match kind {
        VizKind::Bars => forall|x: int, y: int|
            r.has(x, y) ==> #[trigger] r.at(x, y) == bars_pixel(
                scene.bars@,
                scene.bars@.len(),
                canvas_pixel(kind),
                r.height as int,
                x,
                y,
            ),
        VizKind::Starfield => forall|x: int, y: int|
            r.has(x, y) ==> #[trigger] r.at(x, y) == stars_pixel(
                scene.stars@,
                scene.stars@.len(),
                canvas_pixel(kind),
                r.width as int,
                r.height as int,
                x,
                y,
            ),
        VizKind::Waves => forall|x: int, y: int|
            r.has(x, y) ==> wave_result(wave, x, y, #[trigger] r.at(x, y)),
        _ => exists|steps: Seq<Picture>| #[trigger]
            glow_steps(steps, scene.dots@, light) && steps[0].same_size(r) && is_plain(
                steps[0],
                canvas_pixel(kind),
            ) && steps.last() == r,
    }
}

/// Renders one visualizer frame of `w` by `h` pixels. Stars and lit particles
/// need a canvas that has pixels.
pub fn render_viz<C: Fn(u32, u32) -> [u8; 3], B: Fn(usize, u32, u32, Rgba) -> Option<Rgba>>(
    w: u32,
    h: u32,
    kind: VizKind,
    scene: &Scene,
    wave: C,
    light: B,
) -> (r: RgbaImage)
    requires
        can_hold(w as int, h as int),
        kind is Starfield ==> w > 0 && h > 0,
        overlay(kind) ==> forall|k: int|
            0 <= k < scene.dots@.len() && (#[trigger] scene.dots@[k]).lit ==> w > 0 && h > 0,
        forall|x: u32, y: u32| call_requires(wave, (x, y)),
        forall|k: usize, x: u32, y: u32, p: Rgba| call_requires(light, (k, x, y, p)),
    ensures
        r@.wf(),
        r@.width == w,
        r@.height == h,
        is_viz(r@, kind, *scene, wave, light),
{
    let base = if kind.is_overlay() {
        Rgba::new(0, 0, 0, 0)
    } else {
        Rgba::new(10, 12, 18, 255)
    };
    let mut img = RgbaImage::from_pixel(w, h, base);
    assert(is_plain(img@, canvas_pixel(kind)));
    match kind {
        VizKind::Bars => {
            let ghost plain = img@;
            draw_bars(&mut img, &scene.bars);
            assert forall|x: int, y: int| img@.has(x, y) implies #[trigger] img@.at(x, y)
                == bars_pixel(
                scene.bars@,
                scene.bars@.len(),
                canvas_pixel(kind),
                img@.height as int,
                x,
                y,
            ) by {
                assert(plain.at(x, y) == canvas_pixel(kind));
            }
        },
        VizKind::Waves => {
            draw_waves(&mut img, &wave);
        },
        VizKind::Starfield => {
            let ghost plain = img@;
            draw_stars(&mut img, &scene.stars);
            assert forall|x: int, y: int| img@.has(x, y) implies #[trigger] img@.at(x, y)
                == stars_pixel(
                scene.stars@,
                scene.stars@.len(),
                canvas_pixel(kind),
                img@.width as int,
                img@.height as int,
                x,
                y,
            ) by {
                assert(plain.at(x, y) == canvas_pixel(kind));
            }
        },
        VizKind::Fireflies | VizKind::Snow | VizKind::Embers => {
            draw_dots(&mut img, &scene.dots, &light);
        },
    }
    img
}

proof fn lemma_bars_opaque(bars: Seq<Bar>, n: nat, base: Rgba, h: int, x: int, y: int)
    requires
        base.a == 255,
    ensures
        bars_pixel(bars, n, base, h, x, y).a == 255,
    decreases n,
{
    if n > 0 {
        lemma_bars_opaque(bars, (n - 1) as nat, base, h, x, y);
    }
}

proof fn lemma_stars_opaque(stars: Seq<Star>, n: nat, base: Rgba, w: int, h: int, x: int, y: int)
    requires
        base.a == 255,
    ensures
        stars_pixel(stars, n, base, w, h, x, y).a == 255,
    decreases n,
{
    if n > 0 {
        lemma_stars_opaque(stars, (n - 1) as nat, base, w, h, x, y);
    }
}

/// A visualizer that is no overlay is opaque everywhere.
pub proof fn lemma_backdrops_are_opaque<
    C: Fn(u32, u32) -> [u8; 3],
    B: Fn(usize, u32, u32, Rgba) -> Option<Rgba>,
>(r: Picture, kind: VizKind, scene: Scene, wave: C, light: B, x: int, y: int)
    requires
        !overlay(kind),
        is_viz(r, kind, scene, wave, light),
        r.has(x, y),
    ensures
        r.at(x, y).a == 255,
{
    match kind {
        VizKind::Bars => {
            lemma_bars_opaque(
                scene.bars@,
                scene.bars@.len(),
                canvas_pixel(kind),
                r.height as int,
                x,
                y,
            );
            assert(r.at(x, y) == bars_pixel(
                scene.bars@,
                scene.bars@.len(),
                canvas_pixel(kind),
                r.height as int,
                x,
                y,
            ));
        },
        VizKind::Starfield => {
            lemma_stars_opaque(
                scene.stars@,
                scene.stars@.len(),
                canvas_pixel(kind),
                r.width as int,
                r.height as int,
                x,
                y,
            );
            assert(r.at(x, y) == stars_pixel(
                scene.stars@,
                scene.stars@.len(),
                canvas_pixel(kind),
                r.width as int,
                r.height as int,
                x,
                y,
            ));
        },
        _ => {
            assert(wave_result(wave, x, y, r.at(x, y)));
        },
    }
}

/// A glowing dot never makes a pixel more transparent.
pub proof fn lemma_glow_keeps_alpha<B: Fn(usize, u32, u32, Rgba) -> Option<Rgba>>(
    before: Picture,
    after: Picture,
    dot: Dot,
    k: int,
    light: B,
    x: int,
    y: int,
)
    requires
        glowed(before, after, dot, k, light),
        before.has(x, y),
    ensures
        after.at(x, y).a >= before.at(x, y).a,
{
    if dot_reaches(dot, x, y) {
        assert(glow_result(light, k, x, y, before.at(x, y), after.at(x, y)));
    } else {
        assert(after.at(x, y) == before.at(x, y));
    }
}

/// A particle overlay is transparent wherever none of its dots reaches.
pub proof fn lemma_overlay_is_clear_between_dots<
    C: Fn(u32, u32) -> [u8; 3],
    B: Fn(usize, u32, u32, Rgba) -> Option<Rgba>,
>(r: Picture, kind: VizKind, scene: Scene, wave: C, light: B, x: int, y: int)
    requires
        overlay(kind),
        is_viz(r, kind, scene, wave, light),
        r.has(x, y),
        forall|k: int| 0 <= k < scene.dots@.len() ==> !dot_reaches(#[trigger] scene.dots@[k], x, y),
    ensures
        r.at(x, y) == (Rgba { r: 0, g: 0, b: 0, a: 0 }),
{
    let steps = choose|steps: Seq<Picture>| #[trigger]
        glow_steps(steps, scene.dots@, light) && steps[0].same_size(r) && is_plain(
            steps[0],
            canvas_pixel(kind),
        ) && steps.last() == r;
    lemma_steps_leave(steps, scene.dots@, light, scene.dots@.len(), x, y);
    assert(steps[0].at(x, y) == canvas_pixel(kind));
}

proof fn lemma_steps_leave<B: Fn(usize, u32, u32, Rgba) -> Option<Rgba>>(
    steps: Seq<Picture>,
    dots: Seq<Dot>,
    light: B,
    n: nat,
    x: int,
    y: int,
)
    requires
        glow_steps(steps, dots, light),
        n <= dots.len(),
        steps[0].has(x, y),
        forall|k: int| 0 <= k < dots.len() ==> !dot_reaches(#[trigger] dots[k], x, y),
    ensures
        steps[n as int].has(x, y),
        steps[n as int].at(x, y) == steps[0].at(x, y),
    decreases n,
{
    if n > 0 {
        lemma_steps_leave(steps, dots, light, (n - 1) as nat, x, y);
        let k = n - 1;
        assert(glowed(steps[k], steps[k + 1], dots[k], k, light));
        assert(!dot_reaches(dots[k], x, y));
        assert(steps[k + 1].at(x, y) == steps[k].at(x, y));
    }
}

/// The light gives no colour without giving alpha.
pub open spec fn lights_with_alpha<B: Fn(usize, u32, u32, Rgba) -> Option<Rgba>>(light: B) -> bool {
    forall|k: usize, x: u32, y: u32, p: Rgba, q: Rgba|
        #[trigger] call_ensures(light, (k, x, y, p), Some(q)) && q.a == 0 ==> q == (Rgba {
            r: 0,
            g: 0,
            b: 0,
            a: 0,
        })
}

/// A particle overlay has no hidden colours: a pixel without alpha is as clear as
/// the canvas was, where the light gives no colour without alpha.
pub proof fn lemma_overlay_hides_no_color<
    C: Fn(u32, u32) -> [u8; 3],
    B: Fn(usize, u32, u32, Rgba) -> Option<Rgba>,
>(r: Picture, kind: VizKind, scene: Scene, wave: C, light: B, x: int, y: int)
    requires
        overlay(kind),
        is_viz(r, kind, scene, wave, light),
        lights_with_alpha(light),
        r.has(x, y),
        r.at(x, y).a == 0,
    ensures
        r.at(x, y) == (Rgba { r: 0, g: 0, b: 0, a: 0 }),
{
    let steps = choose|steps: Seq<Picture>| #[trigger]
        glow_steps(steps, scene.dots@, light) && steps[0].same_size(r) && is_plain(
            steps[0],
            canvas_pixel(kind),
        ) && steps.last() == r;
    assert(steps[0].at(x, y) == canvas_pixel(kind));
    lemma_steps_hide_no_color(steps, scene.dots@, light, scene.dots@.len(), x, y);
}

proof fn lemma_steps_hide_no_color<B: Fn(usize, u32, u32, Rgba) -> Option<Rgba>>(
    steps: Seq<Picture>,
    dots: Seq<Dot>,
    light: B,
    n: nat,
    x: int,
    y: int,
)
    requires
        glow_steps(steps, dots, light),
        lights_with_alpha(light),
        n <= dots.len(),
        steps[0].has(x, y),
        steps[0].at(x, y) == (Rgba { r: 0, g: 0, b: 0, a: 0 }),
    ensures
        steps[n as int].has(x, y),
        steps[n as int].at(x, y).a == 0 ==> steps[n as int].at(x, y) == (Rgba {
            r: 0,
            g: 0,
            b: 0,
            a: 0,
        }),
    decreases n,
{
    if n > 0 {
        let k = n - 1;
        lemma_steps_hide_no_color(steps, dots, light, k as nat, x, y);
        assert(glowed(steps[k], steps[k + 1], dots[k], k, light));
        if dot_reaches(dots[k], x, y) {
            assert(glow_result(light, k, x, y, steps[k].at(x, y), steps[k + 1].at(x, y)));
        } else {
            assert(steps[k + 1].at(x, y) == steps[k].at(x, y));
        }
    }
}

/// What the names of the kinds stand for; a name that stands for none gives bars.
pub proof fn lemma_viz_by_name(kind: VizKind, value: Seq<char>)
    ensures
        viz_value(VizKind::Bars) == "bars"@,
        viz_value(VizKind::Waves) == "waves"@,
        viz_value(VizKind::Starfield) == "stars"@,
        viz_value(VizKind::Fireflies) == "fireflies"@,
        viz_value(VizKind::Snow) == "snow"@,
        viz_value(VizKind::Embers) == "embers"@,
        viz_of(value) == kind && !(kind is Bars) ==> value == viz_value(kind),
        (forall|k: VizKind| value != #[trigger] viz_value(k)) ==> viz_of(value) == VizKind::Bars,
{
    assert(viz_value(VizKind::Waves) == "waves"@);
    assert(viz_value(VizKind::Starfield) == "stars"@);
    assert(viz_value(VizKind::Fireflies) == "fireflies"@);
    assert(viz_value(VizKind::Snow) == "snow"@);
    assert(viz_value(VizKind::Embers) == "embers"@);
}

/// A colour on the wheel: as the hue goes round, the strong channel is red, green and
/// blue for two sectors each, from the sector before the channel's own; the weak
/// channel is the one opposite, and the third channel lies between.
pub proof fn lemma_wheel_turns(sector: u32, strong: u8, between: u8, weak: u8)
    requires
        sector < 6,
    ensures
        ({
            let c = wheel_color(sector, strong, between, weak);
            let high = ((sector + 1) / 2) % 3;
            let low = (sector / 2 + 2) % 3;
            &&& c.len() == 3
            &&& c[high] == strong
            &&& c[low] == weak
            &&& c[3 - high - low] == between
        }),
{
}

proof fn lemma_last_bar(bars: Seq<Bar>, n: nat, base: Rgba, h: int, x: int, y: int)
    requires
        n <= bars.len(),
    ensures
        (forall|k: int|
            0 <= k < n ==> !((#[trigger] bars[k]).x0 <= x < bars[k].x1 && h - bars[k].height <= y))
            ==> bars_pixel(bars, n, base, h, x, y) == base,
        forall|k: int|
            #![trigger bars[k]]
            0 <= k < n && bars[k].x0 <= x < bars[k].x1 && h - bars[k].height <= y && (forall|j: int|
                k < j < n ==> !((#[trigger] bars[j]).x0 <= x < bars[j].x1 && h - bars[j].height <= y))
                ==> bars_pixel(bars, n, base, h, x, y) == solid(bars[k].color),
    decreases n,
{
    if n > 0 {
        lemma_last_bar(bars, (n - 1) as nat, base, h, x, y);
        assert(bars[n - 1] == bars[n - 1]);
    }
}

/// A bar stands on the lower edge of the picture, as high as it is, in its own columns
/// and its own colour, before the bars that come earlier; the rest is the dark backdrop.
pub proof fn lemma_bars_stand<
    C: Fn(u32, u32) -> [u8; 3],
    B: Fn(usize, u32, u32, Rgba) -> Option<Rgba>,
>(r: Picture, scene: Scene, wave: C, light: B, x: int, y: int)
    requires
        is_viz(r, VizKind::Bars, scene, wave, light),
        r.has(x, y),
    ensures
        (forall|k: int|
            0 <= k < scene.bars@.len() ==> !((#[trigger] scene.bars@[k]).x0 <= x < scene.bars@[k].x1
                && r.height - scene.bars@[k].height <= y)) ==> r.at(x, y) == (Rgba {
            r: 10,
            g: 12,
            b: 18,
            a: 255,
        }),
        forall|k: int|
            #![trigger scene.bars@[k]]
            0 <= k < scene.bars@.len() && scene.bars@[k].x0 <= x < scene.bars@[k].x1 && r.height
                - scene.bars@[k].height <= y && (forall|j: int|
                k < j < scene.bars@.len() ==> !((#[trigger] scene.bars@[j]).x0 <= x
                    < scene.bars@[j].x1 && r.height - scene.bars@[j].height <= y)) ==> r.at(x, y) == (
            Rgba {
                r: scene.bars@[k].color@[0],
                g: scene.bars@[k].color@[1],
                b: scene.bars@[k].color@[2],
                a: 255,
            }),
{
    lemma_last_bar(
        scene.bars@,
        scene.bars@.len(),
        canvas_pixel(VizKind::Bars),
        r.height as int,
        x,
        y,
    );
    assert(r.at(x, y) == r.at(x, y));
}

/// A star is a square of two by two cells: its column, held inside the picture, its row,
/// which goes round the picture's height, and the next of both.
pub open spec fn star_lies(star: Star, w: int, h: int, x: int, y: int) -> bool {
    &&& 0 <= x - (if star.x >= w {
        w - 1
    } else {
        star.x as int
    }) <= 1
    &&& 0 <= y - star.y as int % h <= 1
}

proof fn lemma_last_star(stars: Seq<Star>, n: nat, base: Rgba, w: int, h: int, x: int, y: int)
    requires
        n <= stars.len(),
    ensures
        (forall|k: int| 0 <= k < n ==> !#[trigger] star_lies(stars[k], w, h, x, y)) ==> stars_pixel(
            stars,
            n,
            base,
            w,
            h,
            x,
            y,
        ) == base,
        forall|k: int|
            0 <= k < n && #[trigger] star_lies(stars[k], w, h, x, y) && (forall|j: int|
                k < j < n ==> !#[trigger] star_lies(stars[j], w, h, x, y)) ==> stars_pixel(
                stars,
                n,
                base,
                w,
                h,
                x,
                y,
            ) == star_pixel(stars[k]),
    decreases n,
{
    if n > 0 {
        lemma_last_star(stars, (n - 1) as nat, base, w, h, x, y);
        assert(star_lies(stars[n - 1], w, h, x, y) == star_covers(stars[n - 1], w, h, x, y));
    }
}

/// A cell of the starfield shows the grey of the last star that lies in it, and the dark
/// backdrop where none does.
pub proof fn lemma_stars_shine<
    C: Fn(u32, u32) -> [u8; 3],
    B: Fn(usize, u32, u32, Rgba) -> Option<Rgba>,
>(r: Picture, scene: Scene, wave: C, light: B, x: int, y: int)
    requires
        is_viz(r, VizKind::Starfield, scene, wave, light),
        r.has(x, y),
    ensures
        (forall|k: int|
            0 <= k < scene.stars@.len() ==> !#[trigger] star_lies(
                scene.stars@[k],
                r.width as int,
                r.height as int,
                x,
                y,
            )) ==> r.at(x, y) == (Rgba { r: 10, g: 12, b: 18, a: 255 }),
        forall|k: int|
            0 <= k < scene.stars@.len() && #[trigger] star_lies(
                scene.stars@[k],
                r.width as int,
                r.height as int,
                x,
                y,
            ) && (forall|j: int|
                k < j < scene.stars@.len() ==> !#[trigger] star_lies(
                    scene.stars@[j],
                    r.width as int,
                    r.height as int,
                    x,
                    y,
                )) ==> {
                &&& r.at(x, y).r == scene.stars@[k].light
                &&& r.at(x, y).g == scene.stars@[k].light
                &&& r.at(x, y).b == scene.stars@[k].light
                &&& r.at(x, y).a == 255
            },
{
    lemma_last_star(
        scene.stars@,
        scene.stars@.len(),
        canvas_pixel(VizKind::Starfield),
        r.width as int,
        r.height as int,
        x,
        y,
    );
    assert(r.at(x, y) == r.at(x, y));
}

/// A cell of the waves shows, opaque, the colour that `wave` gives for that very cell.
pub proof fn lemma_waves_flow<
    C: Fn(u32, u32) -> [u8; 3],
    B: Fn(usize, u32, u32, Rgba) -> Option<Rgba>,
>(r: Picture, scene: Scene, wave: C, light: B, x: u32, y: u32)
    requires
        is_viz(r, VizKind::Waves, scene, wave, light),
        r.has(x as int, y as int),
    ensures
        r.at(x as int, y as int).a == 255,
        exists|c: [u8; 3]|
            {
                &&& #[trigger] call_ensures(wave, (x, y), c)
                &&& r.at(x as int, y as int).r == c@[0]
                &&& r.at(x as int, y as int).g == c@[1]
                &&& r.at(x as int, y as int).b == c@[2]
            },
{
    assert(wave_result(wave, x as int, y as int, r.at(x as int, y as int)));
}

/// A cell of floating particles starts out transparent and goes from dot to dot, in order:
/// a lit dot whose box holds the cell shows it, with its place, to `light`, and what
/// `light` gives takes the cell's colour, while the alpha never falls; other dots, and
/// those for which `light` gives nothing, leave the cell alone.
pub proof fn lemma_particles_gather<
    C: Fn(u32, u32) -> [u8; 3],
    B: Fn(usize, u32, u32, Rgba) -> Option<Rgba>,
>(
    r: Picture,
    kind: VizKind,
    scene: Scene,
    wave: C,
    light: B,
    x: u32,
    y: u32,
) -> (seen: Seq<Rgba>)
    requires
        kind is Fireflies || kind is Snow || kind is Embers,
        is_viz(r, kind, scene, wave, light),
        r.has(x as int, y as int),
    ensures
        seen.len() == scene.dots@.len() + 1,
        seen[0] == (Rgba { r: 0, g: 0, b: 0, a: 0 }),
        seen.last() == r.at(x as int, y as int),
        forall|k: int|
            #![trigger scene.dots@[k]]
            0 <= k < scene.dots@.len() ==> {
                let d = scene.dots@[k];
                let p = seen[k];
                if d.lit && d.x0 <= x && x <= d.x1 && d.y0 <= y && y <= d.y1 {
                    exists|q: Option<Rgba>|
                        {
                            &&& #[trigger] call_ensures(light, (k as usize, x, y, p), q)
                            &&& q is None ==> seen[k + 1] == p
                            &&& q matches Some(l) ==> {
                                &&& seen[k + 1].r == l.r && seen[k + 1].g == l.g && seen[k + 1].b == l.b
                                &&& seen[k + 1].a == if l.a > p.a {
                                    l.a
                                } else {
                                    p.a
                                }
                            }
                        }
                } else {
                    seen[k + 1] == p
                }
            },
{
    let steps = choose|steps: Seq<Picture>| #[trigger]
        glow_steps(steps, scene.dots@, light) && steps[0].same_size(r) && is_plain(
            steps[0],
            canvas_pixel(kind),
        ) && steps.last() == r;
    let cx = x as int;
    let cy = y as int;
    let seen = Seq::new(steps.len(), |k: int| steps[k].at(cx, cy));
    assert(steps[0].has(cx, cy));
    assert(seen[0] == steps[0].at(cx, cy));
    assert forall|k: int| 0 <= k < steps.len() implies (#[trigger] steps[k]).same_size(r) by {
        lemma_glow_sizes(steps, scene.dots@, light, k);
    }
    assert forall|k: int|
        #![trigger scene.dots@[k]]
        0 <= k < scene.dots@.len() implies {
        let d = scene.dots@[k];
        let p = seen[k];
        if d.lit && d.x0 <= x && x <= d.x1 && d.y0 <= y && y <= d.y1 {
            exists|q: Option<Rgba>|
                {
                    &&& #[trigger] call_ensures(light, (k as usize, x, y, p), q)
                    &&& q is None ==> seen[k + 1] == p
                    &&& q matches Some(l) ==> {
                        &&& seen[k + 1].r == l.r && seen[k + 1].g == l.g && seen[k + 1].b == l.b
                        &&& seen[k + 1].a == if l.a > p.a {
                            l.a
                        } else {
                            p.a
                        }
                    }
                }
        } else {
            seen[k + 1] == p
        }
    } by {
        assert(glowed(steps[k], steps[k + 1], scene.dots@[k], k, light));
        assert(steps[k].has(cx, cy));
        assert(seen[k] == steps[k].at(cx, cy));
        assert(seen[k + 1] == steps[k + 1].at(cx, cy));
        if dot_reaches(scene.dots@[k], cx, cy) {
            assert(glow_result(light, k, cx, cy, steps[k].at(cx, cy), steps[k + 1].at(cx, cy)));
            let q = choose|q: Option<Rgba>| #[trigger]
                call_ensures(light, (k as usize, cx as u32, cy as u32, steps[k].at(cx, cy)), q)
                    && steps[k + 1].at(cx, cy) == lightened(steps[k].at(cx, cy), q);
            assert(call_ensures(light, (k as usize, x, y, seen[k]), q));
        }
    }
    seen
}

proof fn lemma_glow_sizes<B: Fn(usize, u32, u32, Rgba) -> Option<Rgba>>(
    steps: Seq<Picture>,
    dots: Seq<Dot>,
    light: B,
    k: int,
)
    requires
        glow_steps(steps, dots, light),
        0 <= k < steps.len(),
    ensures
        steps[k].same_size(steps[0]),
    decreases k,
{
    if k > 0 {
        lemma_glow_sizes(steps, dots, light, k - 1);
        assert(glowed(steps[k - 1], steps[k - 1 + 1], dots[k - 1], k - 1, light));
    }
}

/// The scattered numbers: two multiplications in thirty-two bits, each followed by
/// folding the upper bits onto the lower ones, and then the last four digits.
pub proof fn lemma_scatter(n: u32, a: u32, c: u32)
    requires
        a == (n * 0x9E37_79B1) % 0x1_0000_0000,
        c == ((a ^ (a >> 16)) * 0x85EB_CA77) % 0x1_0000_0000,
    ensures
        scramble(n) == (c ^ (c >> 13)) % 10_000,
{
}

} // verus!
