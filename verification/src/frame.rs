//! One frame of the clip: blink, talk, and the backdrop behind the character.

use vstd::prelude::*;

use crate::blink::{
    extents, eye_closes, lemma_lid_cell, lemma_warp_keeps_alpha, lid_column, lid_covers, lid_result,
    warp_eye, warped, LidColumn,
};
use crate::canvas::{lemma_cell_of_index, lemma_same_cells, Picture, Rgba, RgbaImage};
use crate::compose::{lemma_over_ends, over, over_picture};
use crate::motion::BgMotion;
use crate::poly::{Mask, Poly};
use crate::talk::{jaw_drop, jaw_dropped, lemma_jaw_cell};
use crate::viz::{backdrop_pixel, is_viz, lemma_backdrops_are_opaque, overlay, Scene, VizKind};

verus! {

/// Everything that a frame is rendered from, apart from the pictures. Times,
/// coordinates and amounts are of a type that the library only carries.
pub struct RenderCfg<S> {
    pub blink_on: bool,
    pub eye_polys: Vec<Poly<S>>,
    pub blink_starts: Vec<S>,
    pub talk_on: bool,
    pub mouth_poly: Poly<S>,
    pub jaw_pct: S,
    pub talk_amount: S,
    pub inner_color: [u8; 3],
    /// Loudness per frame; without it the mouth follows a rhythm of its own.
    pub talk_env: Option<Vec<S>>,
    pub fps: S,
    pub viz_on: bool,
    pub viz_kind: VizKind,
    pub viz_speed: S,
    pub viz_hue: S,
    pub bg_motion: BgMotion,
    pub bg_motion_speed: S,
    pub bg_motion_amount: S,
}

/// `r` is the outline `p` with every coordinate scaled.
pub open spec fn scaled_poly<S, F: Fn(S) -> S>(p: Seq<(S, S)>, r: Seq<(S, S)>, scale: F) -> bool {
    &&& r.len() == p.len()
    &&& forall|i: int|
        0 <= i < p.len() ==> call_ensures(scale, (p[i].0,), (#[trigger] r[i]).0) && call_ensures(
            scale,
            (p[i].1,),
            r[i].1,
        )
}

fn scale_poly<S: Copy, F: Fn(S) -> S>(p: &Poly<S>, scale: &F) -> (r: Poly<S>)
    requires
        forall|s: S| call_requires(*scale, (s,)),
    ensures
        scaled_poly(p@, r@, *scale),
{
    let mut r: Poly<S> = Vec::new();
    for i in 0..p.len()
        invariant
            forall|s: S| call_requires(*scale, (s,)),
            r@.len() == i,
            forall|j: int|
                0 <= j < i ==> call_ensures(*scale, (p@[j].0,), (#[trigger] r@[j]).0) && call_ensures(
                    *scale,
                    (p@[j].1,),
                    r@[j].1,
                ),
    {
        let (x, y) = p[i];
        let sx = scale(x);
        let sy = scale(y);
        r.push((sx, sy));
    }
    r
}

fn copy_all<T: Copy>(v: &Vec<T>) -> (r: Vec<T>)
    ensures
        r@ == v@,
{
    let mut r: Vec<T> = Vec::new();
    for i in 0..v.len()
        invariant
            r@ == v@.take(i as int),
    {
        r.push(v[i]);
        assert(v@.take(i + 1) =~= v@.take(i as int).push(v@[i as int]));
    }
    assert(v@.take(v@.len() as int) =~= v@);
    r
}

/// What the mouth follows in a frame: the loudness of the frame, `rest` past
/// the end of the sound, or `rhythm` where there is no sound.
pub open spec fn talk_source<S>(env: Option<Seq<S>>, frame: int, rest: S, rhythm: S) -> S {
    match env {
        Some(e) => if frame < e.len() {
            e[frame]
        } else {
            rest
        },
        None => rhythm,
    }
}

/// The loudness per frame, if there is any.
pub open spec fn envelope<S>(env: Option<Vec<S>>) -> Option<Seq<S>> {
    match env {
        Some(e) => Some(e@),
        None => None,
    }
}

/// `r` holds the same settings as `c`, with every outline scaled.
pub open spec fn is_scaled_cfg<S, F: Fn(S) -> S>(c: RenderCfg<S>, r: RenderCfg<S>, scale: F) -> bool {
    &&& r.eye_polys@.len() == c.eye_polys@.len()
    &&& forall|i: int|
        0 <= i < c.eye_polys@.len() ==> scaled_poly(
            c.eye_polys@[i]@,
            (#[trigger] r.eye_polys@[i])@,
            scale,
        )
    &&& scaled_poly(c.mouth_poly@, r.mouth_poly@, scale)
    &&& r.blink_on == c.blink_on
    &&& r.blink_starts@ == c.blink_starts@
    &&& r.talk_on == c.talk_on
    &&& r.jaw_pct == c.jaw_pct
    &&& r.talk_amount == c.talk_amount
    &&& r.inner_color == c.inner_color
    &&& envelope(r.talk_env) == envelope(c.talk_env)
    &&& r.fps == c.fps
    &&& r.viz_on == c.viz_on
    &&& r.viz_kind == c.viz_kind
    &&& r.viz_speed == c.viz_speed
    &&& r.viz_hue == c.viz_hue
    &&& r.bg_motion == c.bg_motion
    &&& r.bg_motion_speed == c.bg_motion_speed
    &&& r.bg_motion_amount == c.bg_motion_amount
}

impl<S: Copy> RenderCfg<S> {
    /// The same settings with every outline scaled, for rendering on a picture
    /// of another size.
    pub fn scaled<F: Fn(S) -> S>(&self, scale: F) -> (r: RenderCfg<S>)
        requires
            forall|s: S| call_requires(scale, (s,)),
        ensures
            is_scaled_cfg(*self, r, scale),
    {
        let mut eye_polys: Vec<Poly<S>> = Vec::new();
        for i in 0..self.eye_polys.len()
            invariant
                forall|s: S| call_requires(scale, (s,)),
                eye_polys@.len() == i,
                forall|j: int|
                    0 <= j < i ==> scaled_poly(
                        self.eye_polys@[j]@,
                        (#[trigger] eye_polys@[j])@,
                        scale,
                    ),
        {
            let p = scale_poly(&self.eye_polys[i], &scale);
            eye_polys.push(p);
        }
        RenderCfg {
            blink_on: self.blink_on,
            eye_polys,
            blink_starts: copy_all(&self.blink_starts),
            talk_on: self.talk_on,
            mouth_poly: scale_poly(&self.mouth_poly, &scale),
            jaw_pct: self.jaw_pct,
            talk_amount: self.talk_amount,
            inner_color: self.inner_color,
            talk_env: match &self.talk_env {
                Some(e) => Some(copy_all(e)),
                None => None,
            },
            fps: self.fps,
            viz_on: self.viz_on,
            viz_kind: self.viz_kind,
            viz_speed: self.viz_speed,
            viz_hue: self.viz_hue,
            bg_motion: self.bg_motion,
            bg_motion_speed: self.bg_motion_speed,
            bg_motion_amount: self.bg_motion_amount,
        }
    }

    /// What the mouth follows in frame `frame`.
    pub fn talk_level(&self, frame: usize, rest: S, rhythm: S) -> (r: S)
        ensures
            r == talk_source(envelope(self.talk_env), frame as int, rest, rhythm),
    {
        match &self.talk_env {
            Some(e) => if frame < e.len() {
                e[frame]
            } else {
                rest
            },
            None => rhythm,
        }
    }
}

/// The eyes are drawn at all: blinking is on, an eye has been traced, and the
/// lids have moved.
pub open spec fn blinks<S>(cfg: RenderCfg<S>, closing: bool) -> bool {
    cfg.blink_on && cfg.eye_polys@.len() > 0 && closing
}

/// The pictures that a frame goes through while its eyes close one after
/// another. Each lid looks at the picture with open eyes.
pub open spec fn lid_steps<S, F: Fn(usize, LidColumn, u32, u32, Rgba) -> Rgba>(
    steps: Seq<Picture>,
    open: Picture,
    polys: Seq<Poly<S>>,
    eyes: Seq<Option<Mask>>,
    lid: F,
) -> bool {
    &&& steps.len() == eyes.len() + 1
    &&& steps[0] == open
    &&& forall|k: int|
        0 <= k < eyes.len() ==> warped(
            #[trigger] steps[k],
            steps[k + 1],
            open,
            polys[k]@.len() as int,
            true,
            eyes[k],
            lid,
            k,
        )
}

/// `after` is the picture once the eyes have blinked.
pub open spec fn blinked<S, F: Fn(usize, LidColumn, u32, u32, Rgba) -> Rgba>(
    open: Picture,
    after: Picture,
    cfg: RenderCfg<S>,
    closing: bool,
    eyes: Seq<Option<Mask>>,
    lid: F,
) -> bool {
    if blinks(cfg, closing) {
        exists|steps: Seq<Picture>| #[trigger]
            lid_steps(steps, open, cfg.eye_polys@, eyes, lid) && steps.last() == after
    } else {
        after == open
    }
}

/// The picture once the mouth has moved.
pub open spec fn talked<S>(
    pic: Picture,
    cfg: RenderCfg<S>,
    talking: bool,
    mouth: Option<Mask>,
    drop: int,
) -> Picture {
    if cfg.talk_on && cfg.mouth_poly@.len() >= 3 {
        jaw_dropped(pic, cfg.mouth_poly@.len() as int, talking, mouth, drop, cfg.inner_color)
    } else {
        pic
    }
}

/// A picture of one colour.
pub open spec fn plain_picture(width: nat, height: nat, p: Rgba) -> Picture {
    Picture { width, height, px: Seq::new(width * height, |i: int| p) }
}

/// What lies behind a character of the given size, from the bottom up: an
/// opaque visualizer, the background picture, floating particles. Particles
/// without a picture behind them float over a dark canvas.
pub open spec fn backdrop(
    width: nat,
    height: nat,
    viz_on: bool,
    kind: VizKind,
    viz: Option<Picture>,
    bg: Option<Picture>,
) -> Option<Picture> {
    let below = if viz_on && !overlay(kind) {
        viz
    } else {
        None
    };
    let with_bg = match (below, bg) {
        (Some(b), Some(g)) => Some(over_picture(b, g)),
        (None, Some(g)) => Some(g),
        (b, None) => b,
    };
    if viz_on && overlay(kind) {
        let under = match with_bg {
            Some(b) => b,
            None => plain_picture(width, height, backdrop_pixel()),
        };
        Some(over_picture(under, viz->0))
    } else {
        with_bg
    }
}

/// The character in front of what lies behind it.
pub open spec fn shown(frame: Picture, behind: Option<Picture>) -> Picture {
    match behind {
        Some(b) => over_picture(b, frame),
        None => frame,
    }
}

/// `r` is a frame of these layers: the eyes close, the mouth moves, and the
/// character stands in front of what lies behind it.
pub open spec fn is_frame<S, F: Fn(usize, LidColumn, u32, u32, Rgba) -> Rgba>(
    base: Picture,
    cfg: RenderCfg<S>,
    closing: bool,
    eyes: Seq<Option<Mask>>,
    lid: F,
    talking: bool,
    mouth: Option<Mask>,
    drop: int,
    viz: Option<Picture>,
    bg: Option<Picture>,
    r: Picture,
) -> bool {
    exists|eyes_done: Picture| #[trigger]
        blinked(base, eyes_done, cfg, closing, eyes, lid) && r == shown(
            talked(eyes_done, cfg, talking, mouth, drop),
            backdrop(base.width, base.height, cfg.viz_on, cfg.viz_kind, viz, bg),
        )
}

/// The picture behind an optional reference.
pub open spec fn picture_of(img: Option<&RgbaImage>) -> Option<Picture> {
    match img {
        Some(i) => Some(i@),
        None => None,
    }
}

/// The mask behind an optional reference.
pub open spec fn mask_of(mask: Option<&Mask>) -> Option<Mask> {
    match mask {
        Some(m) => Some(*m),
        None => None,
    }
}

/// Closes the eyes of a picture, one after another.
fn blink_all<S, F: Fn(usize, LidColumn, u32, u32, Rgba) -> Rgba>(
    base: &RgbaImage,
    cfg: &RenderCfg<S>,
    closing: bool,
    eyes: &Vec<Option<Mask>>,
    lid: &F,
) -> (r: RgbaImage)
    requires
        base@.wf(),
        eyes@.len() == cfg.eye_polys@.len(),
        forall|k: int|
            0 <= k < eyes@.len() ==> ((#[trigger] eyes@[k]) matches Some(m) ==> m.wf() && m.fits(
                base@.width,
                base@.height,
            )),
        forall|n: usize, c: LidColumn, x: u32, y: u32, p: Rgba|
            call_requires(*lid, (n, c, x, y, p)),
    ensures
        r@.wf(),
        r@.same_size(base@),
        blinked(base@, r@, *cfg, closing, eyes@, *lid),
{
    let mut frame = base.clone();
    if !cfg.blink_on || cfg.eye_polys.len() == 0 || !closing {
        return frame;
    }
    let ghost mut steps: Seq<Picture> = seq![frame@];
    for k in 0..eyes.len()
        invariant
            base@.wf(),
            frame@.wf(),
            frame@.same_size(base@),
            eyes@.len() == cfg.eye_polys@.len(),
            forall|j: int|
                0 <= j < eyes@.len() ==> ((#[trigger] eyes@[j]) matches Some(m) ==> m.wf() && m.fits(
                    base@.width,
                    base@.height,
                )),
            forall|n: usize, c: LidColumn, x: u32, y: u32, p: Rgba|
                call_requires(*lid, (n, c, x, y, p)),
            steps.len() == k + 1,
            steps[0] == base@,
            steps.last() == frame@,
            forall|j: int|
                0 <= j < k ==> warped(
                    #[trigger] steps[j],
                    steps[j + 1],
                    base@,
                    cfg.eye_polys@[j]@.len() as int,
                    true,
                    eyes@[j],
                    *lid,
                    j,
                ),
    {
        let mask: Option<&Mask> = match &eyes[k] {
            Some(m) => Some(m),
            None => None,
        };
        proof {
            if let Some(m) = eyes@[k as int] {
                assert forall|x: int, y: int| #[trigger] lid_covers(base@, m, x, y) implies frame@.has(
                    x,
                    y,
                ) by {
                    m.lemma_area(x, y);
                }
            }
        }
        warp_eye(&mut frame, base, cfg.eye_polys[k].len(), true, mask, lid, k);
        proof {
            let before = steps;
            steps = steps.push(frame@);
            assert forall|j: int| 0 <= j < k + 1 implies warped(
                #[trigger] steps[j],
                steps[j + 1],
                base@,
                cfg.eye_polys@[j]@.len() as int,
                true,
                eyes@[j],
                *lid,
                j,
            ) by {
                if j < k {
                    assert(warped(
                        before[j],
                        before[j + 1],
                        base@,
                        cfg.eye_polys@[j]@.len() as int,
                        true,
                        eyes@[j],
                        *lid,
                        j,
                    ));
                }
            }
        }
    }
    assert(lid_steps(steps, base@, cfg.eye_polys@, eyes@, *lid));
    frame
}

/// Renders one frame: the eyes blink, then the mouth moves, then the character
/// is laid over the backdrop. `closing` says that the lids have moved, `eyes`
/// holds the mask of every traced eye and `lid` colours closing eyes; `talking`
/// says that the mouth is open, by `drop` rows; `viz` is the visualizer's frame,
/// and `bg` the background picture after its camera move, both of the
/// character's size.
pub fn render_frame<S, F: Fn(usize, LidColumn, u32, u32, Rgba) -> Rgba>(
    base: &RgbaImage,
    cfg: &RenderCfg<S>,
    closing: bool,
    eyes: &Vec<Option<Mask>>,
    lid: &F,
    talking: bool,
    mouth: Option<&Mask>,
    drop: u32,
    viz: Option<&RgbaImage>,
    bg: Option<&RgbaImage>,
) -> (r: RgbaImage)
    requires
        base@.wf(),
        eyes@.len() == cfg.eye_polys@.len(),
        forall|k: int|
            0 <= k < eyes@.len() ==> ((#[trigger] eyes@[k]) matches Some(m) ==> m.wf() && m.fits(
                base@.width,
                base@.height,
            )),
        forall|n: usize, c: LidColumn, x: u32, y: u32, p: Rgba|
            call_requires(*lid, (n, c, x, y, p)),
        mouth matches Some(m) ==> m.wf() && m.fits(base@.width, base@.height),
        cfg.viz_on ==> viz is Some,
        viz matches Some(v) ==> v@.wf(),
        bg matches Some(g) ==> g@.wf(),
    ensures
        r@.wf(),
        is_frame(
            base@,
            *cfg,
            closing,
            eyes@,
            *lid,
            talking,
            mask_of(mouth),
            drop as int,
            picture_of(viz),
            picture_of(bg),
            r@,
        ),
{
    let mut frame = blink_all(base, cfg, closing, eyes, lid);
    if cfg.talk_on && cfg.mouth_poly.len() >= 3 {
        frame = jaw_drop(&frame, cfg.mouth_poly.len(), talking, mouth, drop, cfg.inner_color);
    }
    let (w, h) = frame.dimensions();
    let mut behind: Option<RgbaImage> = None;
    if cfg.viz_on && !cfg.viz_kind.is_overlay() {
        if let Some(v) = viz {
            behind = Some(v.clone());
        }
    }
    if let Some(g) = bg {
        behind = match behind {
            Some(b) => {
                let mut b = b;
                over(&mut b, g);
                Some(b)
            },
            None => Some(g.clone()),
        };
    }
    if cfg.viz_on && cfg.viz_kind.is_overlay() {
        if let Some(v) = viz {
            let mut b = match behind {
                Some(b) => b,
                None => {
                    let plain = RgbaImage::from_pixel(w, h, Rgba::new(10, 12, 18, 255));
                    assert(plain@.px =~= plain_picture(
                        base@.width,
                        base@.height,
                        backdrop_pixel(),
                    ).px);
                    plain
                },
            };
            over(&mut b, v);
            behind = Some(b);
        }
    }
    assert(match behind {
        Some(b) => Some(b@),
        None => None,
    } == backdrop(
        base@.width,
        base@.height,
        cfg.viz_on,
        cfg.viz_kind,
        picture_of(viz),
        picture_of(bg),
    ));
    match behind {
        Some(b) => {
            let mut b = b;
            over(&mut b, &frame);
            b
        },
        None => frame,
    }
}

proof fn lemma_steps_keep_alpha<S, F: Fn(usize, LidColumn, u32, u32, Rgba) -> Rgba>(
    steps: Seq<Picture>,
    open: Picture,
    polys: Seq<Poly<S>>,
    eyes: Seq<Option<Mask>>,
    lid: F,
    n: nat,
    x: int,
    y: int,
)
    requires
        lid_steps(steps, open, polys, eyes, lid),
        n <= eyes.len(),
        open.has(x, y),
    ensures
        steps[n as int].same_size(open),
        steps[n as int].at(x, y).a == open.at(x, y).a,
    decreases n,
{
    if n > 0 {
        lemma_steps_keep_alpha(steps, open, polys, eyes, lid, (n - 1) as nat, x, y);
        let k = n - 1;
        assert(warped(
            steps[k],
            steps[k + 1],
            open,
            polys[k]@.len() as int,
            true,
            eyes[k],
            lid,
            k,
        ));
        lemma_warp_keeps_alpha(
            steps[k],
            steps[k + 1],
            open,
            polys[k]@.len() as int,
            true,
            eyes[k],
            lid,
            k,
            x,
            y,
        );
    }
}

/// Blinking keeps every pixel's alpha.
pub proof fn lemma_blink_keeps_alpha<S, F: Fn(usize, LidColumn, u32, u32, Rgba) -> Rgba>(
    open: Picture,
    after: Picture,
    cfg: RenderCfg<S>,
    closing: bool,
    eyes: Seq<Option<Mask>>,
    lid: F,
    x: int,
    y: int,
)
    requires
        blinked(open, after, cfg, closing, eyes, lid),
        open.has(x, y),
    ensures
        after.at(x, y).a == open.at(x, y).a,
{
    if blinks(cfg, closing) {
        let steps = choose|steps: Seq<Picture>| #[trigger]
            lid_steps(steps, open, cfg.eye_polys@, eyes, lid) && steps.last() == after;
        lemma_steps_keep_alpha(steps, open, cfg.eye_polys@, eyes, lid, eyes.len(), x, y);
    }
}

proof fn lemma_steps_keep_size<S, F: Fn(usize, LidColumn, u32, u32, Rgba) -> Rgba>(
    steps: Seq<Picture>,
    open: Picture,
    polys: Seq<Poly<S>>,
    eyes: Seq<Option<Mask>>,
    lid: F,
    n: nat,
)
    requires
        open.wf(),
        lid_steps(steps, open, polys, eyes, lid),
        n <= eyes.len(),
    ensures
        steps[n as int].wf(),
        steps[n as int].same_size(open),
    decreases n,
{
    if n > 0 {
        lemma_steps_keep_size(steps, open, polys, eyes, lid, (n - 1) as nat);
        let k = n - 1;
        assert(warped(
            steps[k],
            steps[k + 1],
            open,
            polys[k]@.len() as int,
            true,
            eyes[k],
            lid,
            k,
        ));
    }
}

/// A frame has the size of the character, where the background picture and the
/// visualizer's frame have it.
pub proof fn lemma_frame_size<S, F: Fn(usize, LidColumn, u32, u32, Rgba) -> Rgba>(
    base: Picture,
    eyes_done: Picture,
    cfg: RenderCfg<S>,
    closing: bool,
    eyes: Seq<Option<Mask>>,
    lid: F,
    talking: bool,
    mouth: Option<Mask>,
    drop: int,
    viz: Option<Picture>,
    bg: Option<Picture>,
)
    requires
        base.wf(),
        blinked(base, eyes_done, cfg, closing, eyes, lid),
        cfg.viz_on ==> viz is Some,
        viz matches Some(v) ==> v.same_size(base),
        bg matches Some(g) ==> g.same_size(base),
    ensures
        shown(
            talked(eyes_done, cfg, talking, mouth, drop),
            backdrop(base.width, base.height, cfg.viz_on, cfg.viz_kind, viz, bg),
        ).same_size(base),
{
    if blinks(cfg, closing) {
        let steps = choose|steps: Seq<Picture>| #[trigger]
            lid_steps(steps, base, cfg.eye_polys@, eyes, lid) && steps.last() == eyes_done;
        lemma_steps_keep_size(steps, base, cfg.eye_polys@, eyes, lid, eyes.len());
    }
}

/// With every layer off the frame is the character as it was.
pub proof fn lemma_layers_off<S, F: Fn(usize, LidColumn, u32, u32, Rgba) -> Rgba>(
    base: Picture,
    eyes_done: Picture,
    cfg: RenderCfg<S>,
    closing: bool,
    eyes: Seq<Option<Mask>>,
    lid: F,
    talking: bool,
    mouth: Option<Mask>,
    drop: int,
    viz: Option<Picture>,
)
    requires
        !cfg.blink_on,
        !cfg.talk_on,
        !cfg.viz_on,
        blinked(base, eyes_done, cfg, closing, eyes, lid),
    ensures
        shown(
            talked(eyes_done, cfg, talking, mouth, drop),
            backdrop(base.width, base.height, cfg.viz_on, cfg.viz_kind, viz, None),
        ) == base,
{
}

/// The character stands in front: where it is opaque only it is seen, and
/// where it is transparent only what lies behind it.
pub proof fn lemma_character_in_front(frame: Picture, behind: Picture, i: int)
    requires
        0 <= i < frame.px.len(),
        i < behind.px.len(),
    ensures
        frame.px[i].a == 255 ==> shown(frame, Some(behind)).px[i] == (Rgba {
            a: behind.px[i].a,
            ..frame.px[i]
        }),
        frame.px[i].a == 0 ==> shown(frame, Some(behind)).px[i] == behind.px[i],
{
    lemma_over_ends(behind, frame, i);
}

/// Over an opaque backdrop the frame is opaque everywhere.
pub proof fn lemma_opaque_backdrop_fills(frame: Picture, behind: Picture)
    requires
        forall|i: int| 0 <= i < behind.px.len() ==> (#[trigger] behind.px[i]).a == 255,
    ensures
        forall|i: int|
            0 <= i < behind.px.len() ==> (#[trigger] shown(frame, Some(behind)).px[i]).a == 255,
{
}

/// An opaque background picture hides an opaque visualizer, and lies under
/// floating particles: where these are transparent the picture is seen.
pub proof fn lemma_backdrop_order(
    width: nat,
    height: nat,
    kind: VizKind,
    viz: Picture,
    bg: Picture,
    i: int,
)
    requires
        0 <= i < bg.px.len(),
        i < viz.px.len(),
    ensures
        !overlay(kind) && bg.px[i].a == 255 && viz.px[i].a == 255 ==> backdrop(
            width,
            height,
            true,
            kind,
            Some(viz),
            Some(bg),
        )->0.px[i] == bg.px[i],
        overlay(kind) && viz.px[i].a == 0 ==> backdrop(
            width,
            height,
            true,
            kind,
            Some(viz),
            Some(bg),
        )->0.px[i] == bg.px[i],
{
    lemma_over_ends(viz, bg, i);
    lemma_over_ends(bg, viz, i);
}

/// The lids colour a pixel in one way only: what they are given settles what
/// they give.
pub open spec fn colors_one_way<F: Fn(usize, LidColumn, u32, u32, Rgba) -> Rgba>(lid: F) -> bool {
    forall|k: usize, c: LidColumn, x: u32, y: u32, o: Rgba, p: Rgba, q: Rgba|
        #![trigger call_ensures(lid, (k, c, x, y, o), p), call_ensures(lid, (k, c, x, y, o), q)]
        call_ensures(lid, (k, c, x, y, o), p) && call_ensures(lid, (k, c, x, y, o), q) ==> p == q
}

/// Lids that colour in one way make one picture of a picture.
proof fn lemma_one_warp<F: Fn(usize, LidColumn, u32, u32, Rgba) -> Rgba>(
    before: Picture,
    a: Picture,
    b: Picture,
    open: Picture,
    vertices: int,
    mask: Option<Mask>,
    lid: F,
    k: int,
)
    requires
        colors_one_way(lid),
        warped(before, a, open, vertices, true, mask, lid, k),
        warped(before, b, open, vertices, true, mask, lid, k),
    ensures
        a == b,
{
    if eye_closes(vertices, true, mask) {
        assert forall|x: int, y: int| a.has(x, y) implies #[trigger] a.at(x, y) == b.at(x, y) by {
            assert(before.has(x, y));
            if lid_covers(open, mask->0, x, y) {
                assert(lid_result(open, mask->0, lid, k, x, y, a.at(x, y)));
                assert(lid_result(open, mask->0, lid, k, x, y, b.at(x, y)));
            }
        }
        lemma_same_cells(a, b);
    }
}

proof fn lemma_one_way_of_steps<S, F: Fn(usize, LidColumn, u32, u32, Rgba) -> Rgba>(
    a: Seq<Picture>,
    b: Seq<Picture>,
    open: Picture,
    polys: Seq<Poly<S>>,
    eyes: Seq<Option<Mask>>,
    lid: F,
    n: nat,
)
    requires
        colors_one_way(lid),
        lid_steps(a, open, polys, eyes, lid),
        lid_steps(b, open, polys, eyes, lid),
        n <= eyes.len(),
    ensures
        a[n as int] == b[n as int],
    decreases n,
{
    if n > 0 {
        let k = n - 1;
        lemma_one_way_of_steps(a, b, open, polys, eyes, lid, k as nat);
        let v = polys[k]@.len() as int;
        assert(warped(a[k], a[k + 1], open, v, true, eyes[k], lid, k));
        assert(warped(b[k], b[k + 1], open, v, true, eyes[k], lid, k));
        lemma_one_warp(a[k], a[k + 1], b[k + 1], open, v, eyes[k], lid, k);
    }
}

/// Two pictures of the same blink are the same, where the lids colour in one
/// way.
pub proof fn lemma_one_blink<S, F: Fn(usize, LidColumn, u32, u32, Rgba) -> Rgba>(
    open: Picture,
    a: Picture,
    b: Picture,
    cfg: RenderCfg<S>,
    closing: bool,
    eyes: Seq<Option<Mask>>,
    lid: F,
)
    requires
        colors_one_way(lid),
        blinked(open, a, cfg, closing, eyes, lid),
        blinked(open, b, cfg, closing, eyes, lid),
    ensures
        a == b,
{
    if blinks(cfg, closing) {
        let s = choose|steps: Seq<Picture>| #[trigger]
            lid_steps(steps, open, cfg.eye_polys@, eyes, lid) && steps.last() == a;
        let t = choose|steps: Seq<Picture>| #[trigger]
            lid_steps(steps, open, cfg.eye_polys@, eyes, lid) && steps.last() == b;
        lemma_one_way_of_steps(s, t, open, cfg.eye_polys@, eyes, lid, eyes.len());
    }
}

/// The same layers make the same frame, where the lids colour in one way.
pub proof fn lemma_one_frame<S, F: Fn(usize, LidColumn, u32, u32, Rgba) -> Rgba>(
    base: Picture,
    cfg: RenderCfg<S>,
    closing: bool,
    eyes: Seq<Option<Mask>>,
    lid: F,
    talking: bool,
    mouth: Option<Mask>,
    drop: int,
    viz: Option<Picture>,
    bg: Option<Picture>,
    a: Picture,
    b: Picture,
)
    requires
        colors_one_way(lid),
        is_frame(base, cfg, closing, eyes, lid, talking, mouth, drop, viz, bg, a),
        is_frame(base, cfg, closing, eyes, lid, talking, mouth, drop, viz, bg, b),
    ensures
        a == b,
{
    let p = choose|done: Picture| #[trigger]
        blinked(base, done, cfg, closing, eyes, lid) && a == shown(
            talked(done, cfg, talking, mouth, drop),
            backdrop(base.width, base.height, cfg.viz_on, cfg.viz_kind, viz, bg),
        );
    let q = choose|done: Picture| #[trigger]
        blinked(base, done, cfg, closing, eyes, lid) && b == shown(
            talked(done, cfg, talking, mouth, drop),
            backdrop(base.width, base.height, cfg.viz_on, cfg.viz_kind, viz, bg),
        );
    lemma_one_blink(base, p, q, cfg, closing, eyes, lid);
}

/// An opaque background picture of the character's size hides a visualizer that
/// is no overlay: the frame is the one that the visualizer switched off gives.
pub proof fn lemma_background_hides_visualizer<
    S,
    F: Fn(usize, LidColumn, u32, u32, Rgba) -> Rgba,
    C: Fn(u32, u32) -> [u8; 3],
    B: Fn(usize, u32, u32, Rgba) -> Option<Rgba>,
>(
    base: Picture,
    cfg: RenderCfg<S>,
    closing: bool,
    eyes: Seq<Option<Mask>>,
    lid: F,
    talking: bool,
    mouth: Option<Mask>,
    drop: int,
    viz: Picture,
    scene: Scene,
    wave: C,
    light: B,
    bg: Picture,
    no_viz: Option<Picture>,
    with: Picture,
    without: Picture,
)
    requires
        colors_one_way(lid),
        cfg.viz_on,
        !overlay(cfg.viz_kind),
        viz.wf(),
        viz.same_size(base),
        is_viz(viz, cfg.viz_kind, scene, wave, light),
        bg.wf(),
        bg.same_size(base),
        forall|i: int| 0 <= i < bg.px.len() ==> (#[trigger] bg.px[i]).a == 255,
        is_frame(
            base,
            cfg,
            closing,
            eyes,
            lid,
            talking,
            mouth,
            drop,
            Some(viz),
            Some(bg),
            with,
        ),
        is_frame(
            base,
            (RenderCfg { viz_on: false, ..cfg }),
            closing,
            eyes,
            lid,
            talking,
            mouth,
            drop,
            no_viz,
            Some(bg),
            without,
        ),
    ensures
        with == without,
{
    let off = RenderCfg { viz_on: false, ..cfg };
    let behind = backdrop(base.width, base.height, true, cfg.viz_kind, Some(viz), Some(bg));
    assert(behind == Some(bg)) by {
        assert forall|i: int| 0 <= i < bg.px.len() implies over_picture(viz, bg).px[i] == bg.px[i] by {
            lemma_over_ends(viz, bg, i);
            lemma_cell_of_index(viz, i);
            let w = viz.width as int;
            lemma_backdrops_are_opaque(viz, cfg.viz_kind, scene, wave, light, i % w, i / w);
        }
        assert(over_picture(viz, bg) =~= bg);
    }
    let p = choose|done: Picture| #[trigger]
        blinked(base, done, cfg, closing, eyes, lid) && with == shown(
            talked(done, cfg, talking, mouth, drop),
            behind,
        );
    let q = choose|done: Picture| #[trigger]
        blinked(base, done, off, closing, eyes, lid) && without == shown(
            talked(done, off, talking, mouth, drop),
            backdrop(base.width, base.height, false, cfg.viz_kind, no_viz, Some(bg)),
        );
    assert(blinked(base, q, cfg, closing, eyes, lid));
    lemma_one_blink(base, p, q, cfg, closing, eyes, lid);
}

/// Past the end of the sound the mouth is shut: where the level at rest does not
/// open it, the frame is the one that talking switched off gives. The rhythm
/// that stands in for missing sound plays no part.
pub proof fn lemma_mouth_shut_after_sound<S, F: Fn(usize, LidColumn, u32, u32, Rgba) -> Rgba>(
    base: Picture,
    cfg: RenderCfg<S>,
    closing: bool,
    eyes: Seq<Option<Mask>>,
    lid: F,
    opens: spec_fn(S) -> bool,
    frame: int,
    rest: S,
    rhythm: S,
    mouth: Option<Mask>,
    drop: int,
    viz: Option<Picture>,
    bg: Option<Picture>,
    with: Picture,
    without: Picture,
)
    requires
        colors_one_way(lid),
        cfg.talk_env is Some,
        frame >= cfg.talk_env->0@.len(),
        !opens(rest),
        is_frame(
            base,
            cfg,
            closing,
            eyes,
            lid,
            opens(talk_source(envelope(cfg.talk_env), frame, rest, rhythm)),
            mouth,
            drop,
            viz,
            bg,
            with,
        ),
        is_frame(
            base,
            (RenderCfg { talk_on: false, ..cfg }),
            closing,
            eyes,
            lid,
            opens(talk_source(envelope(cfg.talk_env), frame, rest, rhythm)),
            mouth,
            drop,
            viz,
            bg,
            without,
        ),
    ensures
        with == without,
{
    let off = RenderCfg { talk_on: false, ..cfg };
    let behind = backdrop(base.width, base.height, cfg.viz_on, cfg.viz_kind, viz, bg);
    let p = choose|done: Picture| #[trigger]
        blinked(base, done, cfg, closing, eyes, lid) && with == shown(
            talked(done, cfg, false, mouth, drop),
            behind,
        );
    let q = choose|done: Picture| #[trigger]
        blinked(base, done, off, closing, eyes, lid) && without == shown(
            talked(done, off, false, mouth, drop),
            behind,
        );
    assert(blinked(base, q, cfg, closing, eyes, lid));
    lemma_one_blink(base, p, q, cfg, closing, eyes, lid);
}

/// The lid of the eye `k` is seen in a cell: the eye has an outline of three points
/// or more, which covers the cell, the picture is more than faintly opaque there,
/// and the lid has a height in that column.
pub open spec fn lid_lies<S>(
    open: Picture,
    polys: Seq<Poly<S>>,
    eyes: Seq<Option<Mask>>,
    k: int,
    x: int,
    y: int,
) -> bool {
    &&& polys[k]@.len() >= 3
    &&& open.at(x, y).a > 8
    &&& eyes[k] matches Some(m) && m.covers(x, y) && (lid_column(
        extents(m),
        x - m.area().x0,
    ) matches Some(c) && c.top < c.bottom)
}

/// What the lid of the eye `k`, by its own outline and its own column, may leave in a
/// cell.
pub open spec fn lid_leaves<F: Fn(usize, LidColumn, u32, u32, Rgba) -> Rgba>(
    open: Picture,
    eyes: Seq<Option<Mask>>,
    lid: F,
    k: int,
    x: int,
    y: int,
    p: Rgba,
) -> bool {
    exists|q: Rgba|
        {
            &&& #[trigger] call_ensures(
                lid,
                (
                    k as usize,
                    lid_column(extents(eyes[k]->0), x - (eyes[k]->0).area().x0)->0,
                    x as u32,
                    y as u32,
                    open.at(x, y),
                ),
                q,
            )
            &&& p == (Rgba { r: q.r, g: q.g, b: q.b, a: open.at(x, y).a })
        }
}

proof fn lemma_last_lid<S, F: Fn(usize, LidColumn, u32, u32, Rgba) -> Rgba>(
    steps: Seq<Picture>,
    open: Picture,
    polys: Seq<Poly<S>>,
    eyes: Seq<Option<Mask>>,
    lid: F,
    n: int,
    x: int,
    y: int,
) -> (last: int)
    requires
        lid_steps(steps, open, polys, eyes, lid),
        0 <= n <= eyes.len(),
        open.has(x, y),
        forall|k: int| 0 <= k < eyes.len() ==> ((#[trigger] eyes[k]) matches Some(m) ==> m.wf()),
    ensures
        steps[n].same_size(open),
        -1 <= last < n,
        forall|k: int| last < k < n ==> !#[trigger] lid_lies(open, polys, eyes, k, x, y),
        last == -1 ==> steps[n].at(x, y) == open.at(x, y),
        last >= 0 ==> lid_lies(open, polys, eyes, last, x, y) && lid_leaves(
            open,
            eyes,
            lid,
            last,
            x,
            y,
            steps[n].at(x, y),
        ),
    decreases n,
{
    if n == 0 {
        -1
    } else {
        let before = lemma_last_lid(steps, open, polys, eyes, lid, n - 1, x, y);
        assert(warped(
            steps[n - 1],
            steps[n - 1 + 1],
            open,
            polys[n - 1]@.len() as int,
            true,
            eyes[n - 1],
            lid,
            n - 1,
        ));
        assert(eyes[n - 1] == eyes[n - 1]);
        lemma_lid_cell(
            steps[n - 1],
            steps[n],
            open,
            polys[n - 1]@.len() as int,
            true,
            eyes[n - 1],
            lid,
            n - 1,
            x,
            y,
        );
        if lid_lies(open, polys, eyes, n - 1, x, y) {
            n - 1
        } else {
            assert(steps[n].at(x, y) == steps[n - 1].at(x, y));
            before
        }
    }
}

/// Every eye that blinks is shut, each by its own outline: a cell in which the lids
/// of some eyes are seen holds what the last of those eyes' lids leaves there, and a
/// cell in which no lid is seen stays as it was.
pub proof fn lemma_every_eye_shuts<S, F: Fn(usize, LidColumn, u32, u32, Rgba) -> Rgba>(
    open: Picture,
    after: Picture,
    cfg: RenderCfg<S>,
    eyes: Seq<Option<Mask>>,
    lid: F,
    x: int,
    y: int,
)
    requires
        cfg.blink_on,
        blinked(open, after, cfg, true, eyes, lid),
        eyes.len() == cfg.eye_polys@.len(),
        open.has(x, y),
        forall|k: int| 0 <= k < eyes.len() ==> ((#[trigger] eyes[k]) matches Some(m) ==> m.wf()),
    ensures
        after.same_size(open),
        forall|k: int|
            0 <= k < eyes.len() && #[trigger] lid_lies(open, cfg.eye_polys@, eyes, k, x, y) && (forall|
                j: int,
            |
                k < j < eyes.len() ==> !#[trigger] lid_lies(open, cfg.eye_polys@, eyes, j, x, y))
                ==> lid_leaves(open, eyes, lid, k, x, y, after.at(x, y)),
        (exists|k: int|
            0 <= k < eyes.len() && #[trigger] lid_lies(open, cfg.eye_polys@, eyes, k, x, y))
            ==> exists|k: int|
            0 <= k < eyes.len() && #[trigger] lid_lies(open, cfg.eye_polys@, eyes, k, x, y)
                && lid_leaves(open, eyes, lid, k, x, y, after.at(x, y)),
        (forall|k: int|
            0 <= k < eyes.len() ==> !#[trigger] lid_lies(open, cfg.eye_polys@, eyes, k, x, y))
            ==> after.at(x, y) == open.at(x, y),
{
    if eyes.len() > 0 {
        let steps = choose|steps: Seq<Picture>| #[trigger]
            lid_steps(steps, open, cfg.eye_polys@, eyes, lid) && steps.last() == after;
        let last = lemma_last_lid(
            steps,
            open,
            cfg.eye_polys@,
            eyes,
            lid,
            eyes.len() as int,
            x,
            y,
        );
        assert(steps[eyes.len() as int] == after);
    }
}

/// Open eyes, eyes that are not to blink and a picture without eyes stay as they are.
pub proof fn lemma_eyes_stay_open<S, F: Fn(usize, LidColumn, u32, u32, Rgba) -> Rgba>(
    open: Picture,
    after: Picture,
    cfg: RenderCfg<S>,
    closing: bool,
    eyes: Seq<Option<Mask>>,
    lid: F,
)
    requires
        blinked(open, after, cfg, closing, eyes, lid),
        !closing || !cfg.blink_on || cfg.eye_polys@.len() == 0,
    ensures
        after == open,
{
}

/// The mouth of a talking figure, cell by cell: where talking is on, the outline has
/// three points or more, and the jaw has dropped, the outline's content is seen
/// `drop` rows lower and the colour of the mouth's inside where it was; else nothing
/// changes.
pub proof fn lemma_mouth_cell<S>(
    pic: Picture,
    cfg: RenderCfg<S>,
    talking: bool,
    mouth: Option<Mask>,
    drop: int,
    x: int,
    y: int,
)
    requires
        pic.wf(),
        pic.has(x, y),
    ensures
        !cfg.talk_on || cfg.mouth_poly@.len() < 3 || !talking || mouth is None || drop < 1 ==> talked(
            pic,
            cfg,
            talking,
            mouth,
            drop,
        ) == pic,
        cfg.talk_on && cfg.mouth_poly@.len() >= 3 && talking && drop >= 1 ==> (mouth matches Some(m)
            ==> ({
            let r = talked(pic, cfg, talking, mouth, drop).at(x, y);
            if m.covers(x, y - drop) && pic.at(x, y - drop).a > 0 {
                r == pic.at(x, y - drop)
            } else if m.covers(x, y) {
                r == (Rgba {
                    r: cfg.inner_color@[0],
                    g: cfg.inner_color@[1],
                    b: cfg.inner_color@[2],
                    a: 255,
                })
            } else {
                r == pic.at(x, y)
            }
        })),
{
    if mouth is Some {
        lemma_jaw_cell(
            pic,
            cfg.mouth_poly@.len() as int,
            talking,
            mouth->0,
            drop,
            cfg.inner_color,
            x,
            y,
        );
    }
}

/// What lies behind the figure. Floating particles lie over the background picture, or
/// over the dark backdrop where there is none; every other visualizer lies under the
/// background picture. A visualizer that is off is not seen, and with neither there
/// is nothing.
pub proof fn lemma_what_lies_behind(
    width: nat,
    height: nat,
    kind: VizKind,
    viz: Option<Picture>,
    seen: Picture,
    bg: Picture,
)
    ensures
        backdrop(width, height, false, kind, viz, None) is None,
        backdrop(width, height, false, kind, viz, Some(bg)) == Some(bg),
        kind is Fireflies || kind is Snow || kind is Embers ==> {
            &&& backdrop(width, height, true, kind, Some(seen), Some(bg)) == Some(
                over_picture(bg, seen),
            )
            &&& backdrop(width, height, true, kind, Some(seen), None) == Some(
                over_picture(
                    Picture {
                        width,
                        height,
                        px: Seq::new(width * height, |i: int| backdrop_pixel()),
                    },
                    seen,
                ),
            )
        },
        kind is Bars || kind is Waves || kind is Starfield ==> {
            &&& backdrop(width, height, true, kind, Some(seen), Some(bg)) == Some(
                over_picture(seen, bg),
            )
            &&& backdrop(width, height, true, kind, Some(seen), None) == Some(seen)
        },
{
}

/// A frame is the figure, with its lids lowered first and its mouth opened then, over
/// what lies behind it; on its own where nothing does.
pub proof fn lemma_frame_layers<S, F: Fn(usize, LidColumn, u32, u32, Rgba) -> Rgba>(
    base: Picture,
    cfg: RenderCfg<S>,
    closing: bool,
    eyes: Seq<Option<Mask>>,
    lid: F,
    talking: bool,
    mouth: Option<Mask>,
    drop: int,
    viz: Option<Picture>,
    bg: Option<Picture>,
    r: Picture,
)
    requires
        is_frame(base, cfg, closing, eyes, lid, talking, mouth, drop, viz, bg, r),
    ensures
        exists|lids: Picture|
            {
                let figure = talked(lids, cfg, talking, mouth, drop);
                &&& #[trigger] blinked(base, lids, cfg, closing, eyes, lid)
                &&& match backdrop(base.width, base.height, cfg.viz_on, cfg.viz_kind, viz, bg) {
                    None => r == figure,
                    Some(b) => r == over_picture(b, figure),
                }
            },
{
}

/// Scaling moves each point of an outline to the scaled column and the scaled row of
/// that same point; a scale that leaves numbers alone leaves every outline alone.
pub proof fn lemma_scaled_outline<S, F: Fn(S) -> S>(p: Seq<(S, S)>, r: Seq<(S, S)>, scale: F)
    requires
        scaled_poly(p, r, scale),
    ensures
        r.len() == p.len(),
        forall|i: int|
            0 <= i < p.len() ==> call_ensures(scale, ((#[trigger] p[i]).0,), r[i].0) && call_ensures(
                scale,
                (p[i].1,),
                r[i].1,
            ),
        (forall|s: S, t: S| #[trigger] call_ensures(scale, (s,), t) ==> s == t) ==> r == p,
{
    assert forall|i: int| 0 <= i < p.len() implies call_ensures(scale, ((#[trigger] p[i]).0,), r[i].0)
        && call_ensures(scale, (p[i].1,), r[i].1) by {
        assert(r[i] == r[i]);
    }
    if forall|s: S, t: S| #[trigger] call_ensures(scale, (s,), t) ==> s == t {
        assert forall|i: int| 0 <= i < p.len() implies r[i] == p[i] by {
            assert(call_ensures(scale, (p[i].0,), r[i].0));
        }
        assert(r =~= p);
    }
}

/// Scaling settings changes outlines only, and each outline from its own.
pub proof fn lemma_scaling_keeps_settings<S, F: Fn(S) -> S>(
    c: RenderCfg<S>,
    r: RenderCfg<S>,
    scale: F,
)
    requires
        is_scaled_cfg(c, r, scale),
        forall|s: S, t: S| #[trigger] call_ensures(scale, (s,), t) ==> s == t,
    ensures
        r.eye_polys@.len() == c.eye_polys@.len(),
        forall|i: int| 0 <= i < c.eye_polys@.len() ==> (#[trigger] r.eye_polys@[i])@ == c.eye_polys@[i]@,
        r.mouth_poly@ == c.mouth_poly@,
        r.blink_on == c.blink_on && r.talk_on == c.talk_on && r.viz_on == c.viz_on,
        r.blink_starts@ == c.blink_starts@,
        r.jaw_pct == c.jaw_pct && r.talk_amount == c.talk_amount && r.inner_color == c.inner_color,
        r.talk_env is Some <==> c.talk_env is Some,
        r.talk_env is Some ==> (r.talk_env->0)@ == (c.talk_env->0)@,
        r.fps == c.fps,
        r.viz_kind == c.viz_kind && r.viz_speed == c.viz_speed && r.viz_hue == c.viz_hue,
        r.bg_motion == c.bg_motion && r.bg_motion_speed == c.bg_motion_speed && r.bg_motion_amount
            == c.bg_motion_amount,
{
    assert forall|i: int| 0 <= i < c.eye_polys@.len() implies (#[trigger] r.eye_polys@[i])@
        == c.eye_polys@[i]@ by {
        lemma_scaled_outline(c.eye_polys@[i]@, r.eye_polys@[i]@, scale);
    }
    lemma_scaled_outline(c.mouth_poly@, r.mouth_poly@, scale);
}

/// With sound the mouth follows each frame's own loudness to the end of the sound and
/// rests behind it; without sound it follows the rhythm.
pub proof fn lemma_mouth_follows<S>(env: Seq<S>, frame: int, rest: S, rhythm: S)
    requires
        0 <= frame,
    ensures
        frame < env.len() ==> talk_source(Some(env), frame, rest, rhythm) == env[frame],
        frame >= env.len() ==> talk_source(Some(env), frame, rest, rhythm) == rest,
        talk_source(None, frame, rest, rhythm) == rhythm,
{
}

} // verus!
