//! Tracing eyes and the mouth: the polygons that the user draws, and what
//! pressing, dragging and deleting points does to them.

use vstd::prelude::*;

verus! {

/// The layers of a clip.
#[derive(Clone, Copy, PartialEq, Eq, Structural, Debug)]
pub enum Layer {
    Bg,
    BgImg,
    Blink,
    Talk,
    Viz,
}

impl Layer {
    /// The name that the user sees.
    pub fn name(self) -> (r: &'static str)
        ensures
            r@ == (match self {
                Layer::Bg => "BG Removal"@,
                Layer::BgImg => "BG Image"@,
                Layer::Blink => "Blink"@,
                Layer::Talk => "Talk"@,
                Layer::Viz => "Visualizer"@,
            }),
    {
        match self {
            Layer::Bg => "BG Removal",
            Layer::BgImg => "BG Image",
            Layer::Blink => "Blink",
            Layer::Talk => "Talk",
            Layer::Viz => "Visualizer",
        }
    }
}

/// A point of one of the polygons.
#[derive(Clone, Copy, PartialEq, Eq, Structural, Debug)]
pub enum DragTarget {
    /// A point of the eye that is being traced.
    CurEye(usize),
    /// A point of a finished eye.
    Eye(usize, usize),
    /// A point of the mouth.
    Mouth(usize),
}

/// How near the pointer is to each point: `None` out of reach, else a number
/// that grows with the distance.
pub struct Near {
    /// Is the pointer near enough to the first traced point to close the eye?
    pub closes: bool,
    pub pending: Vec<Option<u32>>,
    pub eyes: Vec<Vec<Option<u32>>>,
    pub mouth: Vec<Option<u32>>,
}

/// The distance to a point of the eyes, where it is in reach.
pub open spec fn eye_reach(near: Near, t: DragTarget) -> Option<u32> {
    match t {
        DragTarget::CurEye(i) => if i < near.pending@.len() {
            near.pending@[i as int]
        } else {
            None
        },
        DragTarget::Eye(e, i) => if e < near.eyes@.len() && i < near.eyes@[e as int]@.len() {
            near.eyes@[e as int]@[i as int]
        } else {
            None
        },
        DragTarget::Mouth(_) => None,
    }
}

/// The distance to a point of the mouth, where it is in reach.
pub open spec fn mouth_reach(near: Near, t: DragTarget) -> Option<u32> {
    match t {
        DragTarget::Mouth(i) => if i < near.mouth@.len() {
            near.mouth@[i as int]
        } else {
            None
        },
        _ => None,
    }
}

/// The distance to a point that can be grabbed on a layer.
pub open spec fn reach(near: Near, layer: Layer, t: DragTarget) -> Option<u32> {
    match layer {
        Layer::Blink => eye_reach(near, t),
        Layer::Talk => mouth_reach(near, t),
        _ => None,
    }
}

/// Is `a` listed before `b`? The traced eye comes first, then the finished eyes
/// in turn.
pub open spec fn listed_before(a: DragTarget, b: DragTarget) -> bool {
    match (a, b) {
        (DragTarget::CurEye(i), DragTarget::CurEye(j)) => i < j,
        (DragTarget::CurEye(_), _) => true,
        (DragTarget::Eye(e, i), DragTarget::Eye(f, j)) => e < f || (e == f && i < j),
        (DragTarget::Eye(..), DragTarget::Mouth(_)) => true,
        (DragTarget::Mouth(i), DragTarget::Mouth(j)) => i < j,
        _ => false,
    }
}

/// Is this the point that the pointer hits on a layer? It is in reach, no other
/// is nearer, and of those as near it is listed first.
pub open spec fn is_hit(near: Near, layer: Layer, t: DragTarget) -> bool {
    &&& reach(near, layer, t) is Some
    &&& forall|u: DragTarget|
        (#[trigger] reach(near, layer, u)) matches Some(d) ==> {
            &&& reach(near, layer, t)->0 <= d
            &&& listed_before(u, t) ==> reach(near, layer, t)->0 < d
        }
}

/// The hit, or that nothing is in reach.
pub open spec fn is_hit_or_none(near: Near, layer: Layer, hit: Option<DragTarget>) -> bool {
    match hit {
        Some(t) => is_hit(near, layer, t),
        None => forall|u: DragTarget| #[trigger] reach(near, layer, u) is None,
    }
}

/// At most one point is hit.
pub proof fn lemma_one_hit(near: Near, layer: Layer, a: DragTarget, b: DragTarget)
    requires
        is_hit(near, layer, a),
        is_hit(near, layer, b),
    ensures
        a == b,
{
    assert(reach(near, layer, a) is Some && reach(near, layer, b) is Some);
}

/// The first of the least distances in a list.
fn nearest(keys: &Vec<Option<u32>>) -> (r: Option<(u32, usize)>)
    ensures
        match r {
            Some((d, i)) => {
                &&& i < keys@.len()
                &&& keys@[i as int] == Some(d)
                &&& forall|j: int|
                    0 <= j < keys@.len() ==> ((#[trigger] keys@[j]) matches Some(e) ==> d <= e && (j
                        < i ==> d < e))
            },
            None => forall|j: int| 0 <= j < keys@.len() ==> #[trigger] keys@[j] is None,
        },
{
    let mut best: Option<(u32, usize)> = None;
    for k in 0..keys.len()
        invariant
            match best {
                Some((d, i)) => {
                    &&& i < k
                    &&& keys@[i as int] == Some(d)
                    &&& forall|j: int|
                        0 <= j < k ==> ((#[trigger] keys@[j]) matches Some(e) ==> d <= e && (j < i
                            ==> d < e))
                },
                None => forall|j: int| 0 <= j < k ==> #[trigger] keys@[j] is None,
            },
    {
        if let Some(e) = keys[k] {
            let closer = match best {
                Some((d, _)) => e < d,
                None => true,
            };
            if closer {
                best = Some((e, k));
            }
        }
    }
    best
}

/// The point that the pointer hits on a layer.
pub fn hit(near: &Near, layer: Layer) -> (r: Option<DragTarget>)
    ensures
        is_hit_or_none(*near, layer, r),
{
    match layer {
        Layer::Blink => hit_eye(near),
        Layer::Talk => match nearest(&near.mouth) {
            Some((_, i)) => Some(DragTarget::Mouth(i)),
            None => None,
        },
        _ => None,
    }
}

/// Nothing in the traced eye and the first `n` finished eyes is hit before `best`.
spec fn best_so_far(near: Near, n: int, best: Option<(u32, DragTarget)>) -> bool {
    &&& best matches Some((d, t)) ==> eye_reach(near, t) == Some(d) && (t matches DragTarget::Eye(
        e,
        _,
    ) ==> e < n)
    &&& forall|u: DragTarget|
        (u matches DragTarget::Eye(e, _) ==> e < n) ==> ((#[trigger] eye_reach(near, u)) matches Some(
            x,
        ) ==> (best matches Some((d, t)) && d <= x && (listed_before(u, t) ==> d < x)))
}

/// The point of the eyes that the pointer hits.
fn hit_eye(near: &Near) -> (r: Option<DragTarget>)
    ensures
        is_hit_or_none(*near, Layer::Blink, r),
{
    let mut best: Option<(u32, DragTarget)> = match nearest(&near.pending) {
        Some((d, i)) => Some((d, DragTarget::CurEye(i))),
        None => None,
    };
    for e in 0..near.eyes.len()
        invariant
            best_so_far(*near, e as int, best),
    {
        let found = nearest(&near.eyes[e]);
        if let Some((d, i)) = found {
            let closer = match best {
                Some((b, _)) => d < b,
                None => true,
            };
            if closer {
                best = Some((d, DragTarget::Eye(e, i)));
            }
        }
        proof {
            assert forall|u: DragTarget|
                (u matches DragTarget::Eye(f, _) ==> f < e + 1) && (#[trigger] eye_reach(*near, u)) is Some implies (
            best matches Some((d, t)) && d <= eye_reach(*near, u)->0 && (listed_before(u, t) ==> d
                < eye_reach(*near, u)->0)) by {
                match u {
                    DragTarget::Eye(f, i) => {
                        if f == e {
                            assert(near.eyes@[e as int]@[i as int] is Some);
                        }
                    },
                    _ => {},
                }
            }
        }
    }
    let r = match best {
        Some((_, t)) => Some(t),
        None => None,
    };
    proof {
        assert forall|u: DragTarget| (#[trigger] reach(*near, Layer::Blink, u)) is Some implies (
        best matches Some((d, t)) && d <= reach(*near, Layer::Blink, u)->0 && (listed_before(u, t)
            ==> d < reach(*near, Layer::Blink, u)->0)) by {
            assert(eye_reach(*near, u) is Some);
        }
    }
    r
}

/// What the polygons hold.
#[verifier::ext_equal]
pub struct Traced<P> {
    pub eyes: Seq<Seq<P>>,
    pub pending: Seq<P>,
    pub mouth: Seq<P>,
}

impl<P> Traced<P> {
    /// Every finished eye has an inside: at least three points.
    pub open spec fn wf(self) -> bool {
        forall|e: int| 0 <= e < self.eyes.len() ==> (#[trigger] self.eyes[e]).len() >= 3
    }

    /// The distances speak of these polygons, point by point.
    pub open spec fn matches_near(self, near: Near) -> bool {
        &&& near.pending@.len() == self.pending.len()
        &&& near.mouth@.len() == self.mouth.len()
        &&& near.eyes@.len() == self.eyes.len()
        &&& forall|e: int|
            0 <= e < self.eyes.len() ==> (#[trigger] near.eyes@[e])@.len() == self.eyes[e].len()
    }

    /// Does the polygon have this point?
    pub open spec fn has(self, t: DragTarget) -> bool {
        match t {
            DragTarget::CurEye(i) => i < self.pending.len(),
            DragTarget::Eye(e, i) => e < self.eyes.len() && i < self.eyes[e as int].len(),
            DragTarget::Mouth(i) => i < self.mouth.len(),
        }
    }

    /// The point itself.
    pub open spec fn point(self, t: DragTarget) -> P {
        match t {
            DragTarget::CurEye(i) => self.pending[i as int],
            DragTarget::Eye(e, i) => self.eyes[e as int][i as int],
            DragTarget::Mouth(i) => self.mouth[i as int],
        }
    }

    /// The points of the eye that is being traced are given up.
    pub open spec fn cancelled(self) -> Traced<P> {
        Traced { pending: Seq::empty(), ..self }
    }

    /// No eye is traced, finished or not.
    pub open spec fn without_eyes(self) -> Traced<P> {
        Traced { eyes: Seq::empty(), pending: Seq::empty(), mouth: self.mouth }
    }

    /// No mouth is traced.
    pub open spec fn without_mouth(self) -> Traced<P> {
        Traced { mouth: Seq::empty(), ..self }
    }

    /// The traced eye becomes a finished one; with fewer than three points it
    /// stays as it is.
    pub open spec fn finished(self) -> Traced<P> {
        if self.pending.len() >= 3 {
            Traced { eyes: self.eyes.push(self.pending), pending: Seq::empty(), ..self }
        } else {
            self
        }
    }

    /// A point is added to the polygon that a layer traces.
    pub open spec fn added(self, layer: Layer, p: P) -> Traced<P> {
        match layer {
            Layer::Blink => Traced { pending: self.pending.push(p), ..self },
            Layer::Talk => Traced { mouth: self.mouth.push(p), ..self },
            _ => self,
        }
    }

    /// The last point of the polygon that a layer traces is taken back.
    pub open spec fn undone(self, layer: Layer) -> Traced<P> {
        match layer {
            Layer::Blink => if self.pending.len() > 0 {
                Traced { pending: self.pending.drop_last(), ..self }
            } else {
                self
            },
            Layer::Talk => if self.mouth.len() > 0 {
                Traced { mouth: self.mouth.drop_last(), ..self }
            } else {
                self
            },
            _ => self,
        }
    }

    /// A point is moved to `p`; nothing moves where there is no such point.
    pub open spec fn moved(self, t: DragTarget, p: P) -> Traced<P> {
        if !self.has(t) {
            self
        } else {
            match t {
                DragTarget::CurEye(i) => Traced {
                    pending: self.pending.update(i as int, p),
                    ..self
                },
                DragTarget::Eye(e, i) => Traced {
                    eyes: self.eyes.update(e as int, self.eyes[e as int].update(i as int, p)),
                    ..self
                },
                DragTarget::Mouth(i) => Traced { mouth: self.mouth.update(i as int, p), ..self },
            }
        }
    }

    /// Does an eye go when this point is deleted, for want of points?
    pub open spec fn loses_eye(self, t: DragTarget) -> bool {
        t matches DragTarget::Eye(e, _) && self.eyes[e as int].len() <= 3
    }

    /// A point is deleted, and with it the eye that keeps fewer than three.
    pub open spec fn deleted(self, t: DragTarget) -> Traced<P> {
        match t {
            DragTarget::CurEye(i) => Traced { pending: self.pending.remove(i as int), ..self },
            DragTarget::Eye(e, i) => if self.loses_eye(t) {
                Traced { eyes: self.eyes.remove(e as int), ..self }
            } else {
                Traced {
                    eyes: self.eyes.update(e as int, self.eyes[e as int].remove(i as int)),
                    ..self
                }
            },
            DragTarget::Mouth(i) => Traced { mouth: self.mouth.remove(i as int), ..self },
        }
    }
}

/// What a press on the stage did.
#[derive(Clone, Copy, PartialEq, Eq, Structural, Debug)]
pub enum Press {
    /// Nothing is traced on this layer.
    Nothing,
    /// The eye was closed; so many eyes are finished.
    Finished(usize),
    /// A point was grabbed.
    Grabbed(DragTarget),
    /// A point was added to the traced eye; it has so many.
    EyePoint(usize),
    /// A point was added to the mouth; it has so many.
    MouthPoint(usize),
}

/// Is something traced on the layer?
pub open spec fn traces(layer: Layer) -> bool {
    layer == Layer::Blink || layer == Layer::Talk
}

/// A press at `p` gives this outcome and leaves these polygons.
pub open spec fn is_press<P>(
    before: Traced<P>,
    layer: Layer,
    near: Near,
    p: P,
    press: Press,
    after: Traced<P>,
) -> bool {
    if layer != Layer::Blink && layer != Layer::Talk {
        press is Nothing && after == before
    } else if layer == Layer::Blink && near.closes && before.pending.len() >= 3 {
        press == Press::Finished((before.eyes.len() + 1) as usize) && after == before.finished()
    } else if exists|t: DragTarget| #[trigger] is_hit(near, layer, t) {
        press matches Press::Grabbed(t) && is_hit(near, layer, t) && after == before
    } else {
        &&& after == before.added(layer, p)
        &&& layer == Layer::Blink ==> press == Press::EyePoint(after.pending.len() as usize)
        &&& layer == Layer::Talk ==> press == Press::MouthPoint(after.mouth.len() as usize)
    }
}

/// Deleting near the pointer takes the point that is hit, and else the last one
/// of the polygon that the layer traces.
pub open spec fn is_erase<P>(
    before: Traced<P>,
    layer: Layer,
    near: Near,
    eye_gone: bool,
    after: Traced<P>,
) -> bool {
    if exists|t: DragTarget| #[trigger] is_hit(near, layer, t) {
        exists|t: DragTarget| #[trigger]
            is_hit(near, layer, t) && after == before.deleted(t) && eye_gone == before.loses_eye(t)
    } else {
        after == before.undone(layer) && !eye_gone
    }
}

/// The polygons that the user traces. What a point is, is left to the caller.
pub struct Trace<P> {
    eyes: Vec<Vec<P>>,
    pending: Vec<P>,
    mouth: Vec<P>,
}

impl<P> View for Trace<P> {
    type V = Traced<P>;

    closed spec fn view(&self) -> Traced<P> {
        Traced {
            eyes: Seq::new(self.eyes@.len(), |e: int| self.eyes@[e]@),
            pending: self.pending@,
            mouth: self.mouth@,
        }
    }
}

impl<P> Trace<P> {
    /// Nothing is traced.
    pub fn new() -> (r: Trace<P>)
        ensures
            r@.wf(),
            r@ == (Traced::<P> { eyes: Seq::empty(), pending: Seq::empty(), mouth: Seq::empty() }),
    {
        let r = Trace { eyes: Vec::new(), pending: Vec::new(), mouth: Vec::new() };
        assert(r@.eyes =~= Seq::empty());
        r
    }

    /// The finished eyes.
    pub fn eyes(&self) -> (r: &Vec<Vec<P>>)
        ensures
            r@.len() == self@.eyes.len(),
            forall|e: int| 0 <= e < r@.len() ==> (#[trigger] r@[e])@ == self@.eyes[e],
    {
        &self.eyes
    }

    /// The eye that is being traced.
    pub fn pending(&self) -> (r: &Vec<P>)
        ensures
            r@ == self@.pending,
    {
        &self.pending
    }

    /// The mouth.
    pub fn mouth(&self) -> (r: &Vec<P>)
        ensures
            r@ == self@.mouth,
    {
        &self.mouth
    }

    /// Closes the traced eye, where it has at least three points, and says how
    /// many eyes are then finished.
    pub fn finish_eye(&mut self) -> (r: Option<usize>)
        requires
            old(self)@.wf(),
        ensures
            final(self)@.wf(),
            final(self)@ == old(self)@.finished(),
            r is Some <==> old(self)@.pending.len() >= 3,
            r matches Some(n) ==> n == old(self)@.eyes.len() + 1,
    {
        if self.pending.len() >= 3 {
            let mut eye: Vec<P> = Vec::new();
            std::mem::swap(&mut eye, &mut self.pending);
            self.eyes.push(eye);
            assert(self@.eyes =~= old(self)@.eyes.push(old(self)@.pending));
            Some(self.eyes.len())
        } else {
            None
        }
    }

    /// A press of the first button at `p` on a layer: it closes the traced eye
    /// at its first point, or grabs the point that it hits, or else adds one.
    pub fn press(&mut self, layer: Layer, near: &Near, p: P) -> (r: Press)
        requires
            old(self)@.wf(),
            old(self)@.matches_near(*near),
        ensures
            final(self)@.wf(),
            is_press(old(self)@, layer, *near, p, r, final(self)@),
            r matches Press::Grabbed(t) ==> final(self)@.has(t),
    {
        match layer {
            Layer::Blink => {
                if near.closes && self.pending.len() >= 3 {
                    match self.finish_eye() {
                        Some(n) => return Press::Finished(n),
                        None => return Press::Nothing,
                    }
                }
                if let Some(t) = hit(near, layer) {
                    return Press::Grabbed(t);
                }
                self.pending.push(p);
                assert(self@ =~= old(self)@.added(layer, p));
                Press::EyePoint(self.pending.len())
            },
            Layer::Talk => {
                if let Some(t) = hit(near, layer) {
                    return Press::Grabbed(t);
                }
                self.mouth.push(p);
                assert(self@ =~= old(self)@.added(layer, p));
                Press::MouthPoint(self.mouth.len())
            },
            _ => Press::Nothing,
        }
    }

    /// Moves a point to `p`; a point that is no longer there is left alone.
    pub fn drag(&mut self, t: DragTarget, p: P)
        requires
            old(self)@.wf(),
        ensures
            final(self)@.wf(),
            final(self)@ == old(self)@.moved(t, p),
    {
        match t {
            DragTarget::CurEye(i) => {
                if i < self.pending.len() {
                    self.pending[i] = p;
                }
            },
            DragTarget::Eye(e, i) => {
                if e < self.eyes.len() && i < self.eyes[e].len() {
                    self.eyes[e][i] = p;
                    assert(self@.eyes =~= old(self)@.moved(t, p).eyes);
                }
            },
            DragTarget::Mouth(i) => {
                if i < self.mouth.len() {
                    self.mouth[i] = p;
                }
            },
        }
    }

    /// Takes the last point of the polygon that a layer traces back, and says
    /// whether the layer traces one.
    pub fn undo(&mut self, layer: Layer) -> (r: bool)
        requires
            old(self)@.wf(),
        ensures
            final(self)@.wf(),
            final(self)@ == old(self)@.undone(layer),
            r == (layer == Layer::Blink || layer == Layer::Talk),
            r == traces(layer),
    {
        match layer {
            Layer::Blink => {
                let _ = self.pending.pop();
                assert(self@ =~= old(self)@.undone(layer));
                true
            },
            Layer::Talk => {
                let _ = self.mouth.pop();
                assert(self@ =~= old(self)@.undone(layer));
                true
            },
            _ => false,
        }
    }

    /// Deletes a point, and with it the eye that keeps fewer than three; says
    /// whether an eye went.
    pub fn delete(&mut self, t: DragTarget) -> (r: bool)
        requires
            old(self)@.wf(),
            old(self)@.has(t),
        ensures
            final(self)@.wf(),
            final(self)@ == old(self)@.deleted(t),
            r == old(self)@.loses_eye(t),
    {
        match t {
            DragTarget::CurEye(i) => {
                let _ = self.pending.remove(i);
                false
            },
            DragTarget::Eye(e, i) => {
                assert(old(self)@.eyes[e as int].len() >= 3);
                let _ = self.eyes[e].remove(i);
                if self.eyes[e].len() < 3 {
                    let _ = self.eyes.remove(e);
                    assert(self@.eyes =~= old(self)@.deleted(t).eyes);
                    true
                } else {
                    assert(self@.eyes =~= old(self)@.deleted(t).eyes);
                    false
                }
            },
            DragTarget::Mouth(i) => {
                let _ = self.mouth.remove(i);
                false
            },
        }
    }

    /// A press of the second button on a layer: it deletes the point that it
    /// hits, or else takes the last one back; says whether an eye went.
    pub fn erase(&mut self, layer: Layer, near: &Near) -> (r: bool)
        requires
            old(self)@.wf(),
            old(self)@.matches_near(*near),
        ensures
            final(self)@.wf(),
            is_erase(old(self)@, layer, *near, r, final(self)@),
    {
        match hit(near, layer) {
            Some(t) => self.delete(t),
            None => {
                let _ = self.undo(layer);
                false
            },
        }
    }

    /// Drops the eye that is being traced.
    pub fn cancel(&mut self)
        requires
            old(self)@.wf(),
        ensures
            final(self)@.wf(),
            final(self)@ == (Traced { pending: Seq::empty(), ..old(self)@ }),
            final(self)@ == old(self)@.cancelled(),
    {
        self.pending = Vec::new();
    }

    /// Drops every eye.
    pub fn clear_eyes(&mut self)
        ensures
            final(self)@.wf(),
            final(self)@ == (Traced {
                eyes: Seq::empty(),
                pending: Seq::empty(),
                mouth: old(self)@.mouth,
            }),
            final(self)@ == old(self)@.without_eyes(),
    {
        self.eyes = Vec::new();
        self.pending = Vec::new();
        assert(self@.eyes =~= Seq::empty());
    }

    /// Drops the mouth.
    pub fn clear_mouth(&mut self)
        requires
            old(self)@.wf(),
        ensures
            final(self)@.wf(),
            final(self)@ == (Traced { mouth: Seq::empty(), ..old(self)@ }),
            final(self)@ == old(self)@.without_mouth(),
    {
        self.mouth = Vec::new();
    }
}

/// Taking a point back undoes adding it.
pub proof fn lemma_undo_undoes_add<P>(traced: Traced<P>, layer: Layer, p: P)
    ensures
        traced.added(layer, p).undone(layer) == traced,
{
    assert(traced.added(layer, p).undone(layer) =~= traced);
}

/// Moving a point back to where it was undoes moving it.
pub proof fn lemma_move_back<P>(traced: Traced<P>, t: DragTarget, p: P)
    requires
        traced.has(t),
    ensures
        traced.moved(t, p).has(t),
        traced.moved(t, p).point(t) == p,
        traced.moved(t, p).moved(t, traced.point(t)) == traced,
{
    let back = traced.moved(t, p).moved(t, traced.point(t));
    if let DragTarget::Eye(e, i) = t {
        assert(back.eyes[e as int] =~= traced.eyes[e as int]);
        assert(back.eyes =~= traced.eyes);
    } else {
        assert(back =~= traced);
    }
}

/// Moving a point leaves every other point where it is.
pub proof fn lemma_move_one<P>(traced: Traced<P>, t: DragTarget, p: P, u: DragTarget)
    requires
        u != t,
    ensures
        traced.moved(t, p).has(u) == traced.has(u),
        traced.has(u) ==> traced.moved(t, p).point(u) == traced.point(u),
{
}

/// Finishing an eye makes one more eye of the points traced so far, in their order, and
/// starts afresh; with fewer than three points it does nothing.
pub proof fn lemma_finish<P>(traced: Traced<P>)
    ensures
        traced.finished().mouth == traced.mouth,
        traced.pending.len() >= 3 ==> {
            &&& traced.finished().eyes.len() == traced.eyes.len() + 1
            &&& traced.finished().eyes.last() == traced.pending
            &&& traced.finished().eyes.drop_last() == traced.eyes
            &&& traced.finished().pending.len() == 0
        },
        traced.pending.len() < 3 ==> traced.finished() == traced,
{
    assert(traced.pending.len() >= 3 ==> traced.finished().eyes.drop_last() =~= traced.eyes);
}

/// A new point goes behind the others of what its layer traces, and nothing else changes;
/// undoing takes the last point of what the layer traces, if there is one.
pub proof fn lemma_add_and_undo<P>(traced: Traced<P>, layer: Layer, p: P)
    ensures
        traced.added(layer, p).eyes == traced.eyes && traced.undone(layer).eyes == traced.eyes,
        layer is Blink ==> {
            &&& traced.added(layer, p).pending == traced.pending + seq![p]
            &&& traced.added(layer, p).mouth == traced.mouth
            &&& traced.undone(layer).mouth == traced.mouth
            &&& traced.pending.len() > 0 ==> traced.undone(layer).pending + seq![
                traced.pending.last(),
            ] == traced.pending
            &&& traced.pending.len() == 0 ==> traced.undone(layer) == traced
        },
        layer is Talk ==> {
            &&& traced.added(layer, p).mouth == traced.mouth + seq![p]
            &&& traced.added(layer, p).pending == traced.pending
            &&& traced.undone(layer).pending == traced.pending
            &&& traced.mouth.len() > 0 ==> traced.undone(layer).mouth + seq![traced.mouth.last()]
                == traced.mouth
            &&& traced.mouth.len() == 0 ==> traced.undone(layer) == traced
        },
        layer is Bg || layer is BgImg || layer is Viz ==> traced.added(layer, p) == traced
            && traced.undone(layer) == traced,
{
    assert(traced.added(Layer::Blink, p).pending =~= traced.pending + seq![p]);
    assert(traced.added(Layer::Talk, p).mouth =~= traced.mouth + seq![p]);
    if traced.pending.len() > 0 {
        assert(traced.undone(Layer::Blink).pending + seq![traced.pending.last()] =~= traced.pending);
    }
    if traced.mouth.len() > 0 {
        assert(traced.undone(Layer::Talk).mouth + seq![traced.mouth.last()] =~= traced.mouth);
    }
}

/// Deleting a point takes that point alone, and the others keep their order. An eye that
/// would be left with fewer than three points goes as a whole, and no other eye with it.
pub proof fn lemma_delete<P>(traced: Traced<P>, t: DragTarget)
    requires
        traced.has(t),
    ensures
        ({
            let r = traced.deleted(t);
            match t {
                DragTarget::CurEye(i) => {
                    &&& r.pending == traced.pending.take(i as int) + traced.pending.skip(i + 1)
                    &&& r.eyes == traced.eyes
                    &&& r.mouth == traced.mouth
                    &&& !traced.loses_eye(t)
                },
                DragTarget::Mouth(i) => {
                    &&& r.mouth == traced.mouth.take(i as int) + traced.mouth.skip(i + 1)
                    &&& r.eyes == traced.eyes
                    &&& r.pending == traced.pending
                    &&& !traced.loses_eye(t)
                },
                DragTarget::Eye(e, i) => {
                    let eye = traced.eyes[e as int];
                    &&& r.pending == traced.pending
                    &&& r.mouth == traced.mouth
                    &&& traced.loses_eye(t) <==> eye.len() < 4
                    &&& eye.len() < 4 ==> r.eyes == traced.eyes.take(e as int) + traced.eyes.skip(
                        e + 1,
                    )
                    &&& eye.len() >= 4 ==> {
                        &&& r.eyes.len() == traced.eyes.len()
                        &&& r.eyes[e as int] == eye.take(i as int) + eye.skip(i + 1)
                        &&& forall|f: int|
                            0 <= f < traced.eyes.len() && f != e ==> #[trigger] r.eyes[f]
                                == traced.eyes[f]
                    }
                },
            }
        }),
{
    let r = traced.deleted(t);
    match t {
        DragTarget::CurEye(i) => {
            assert(r.pending =~= traced.pending.take(i as int) + traced.pending.skip(i + 1));
        },
        DragTarget::Mouth(i) => {
            assert(r.mouth =~= traced.mouth.take(i as int) + traced.mouth.skip(i + 1));
        },
        DragTarget::Eye(e, i) => {
            let eye = traced.eyes[e as int];
            if eye.len() < 4 {
                assert(r.eyes =~= traced.eyes.take(e as int) + traced.eyes.skip(e + 1));
            } else {
                assert(r.eyes[e as int] =~= eye.take(i as int) + eye.skip(i + 1));
            }
        },
    }
}

/// On the blink layer the pointer hits the nearest point within reach, of the eye being
/// traced and of the finished eyes. Among equally near ones a point of the eye being
/// traced goes before those of finished eyes, an earlier eye before a later one, and an
/// earlier point before a later one.
pub proof fn lemma_hit_is_nearest_eye_point(near: Near, t: DragTarget)
    requires
        is_hit(near, Layer::Blink, t),
    ensures
        match t {
            DragTarget::CurEye(i) => {
                &&& i < near.pending@.len() && near.pending@[i as int] is Some
                &&& forall|j: int|
                    0 <= j < near.pending@.len() && j <= usize::MAX && #[trigger] near.pending@[j] is Some
                        ==> near.pending@[i as int]->0 <= near.pending@[j]->0 && (j < i
                        ==> near.pending@[i as int]->0 < near.pending@[j]->0)
                &&& forall|e: int, j: int|
                    0 <= e < near.eyes@.len() && e <= usize::MAX && 0 <= j < near.eyes@[e]@.len() && j
                        <= usize::MAX && #[trigger] near.eyes@[e]@[j] is Some
                        ==> near.pending@[i as int]->0 <= near.eyes@[e]@[j]->0
            },
            DragTarget::Eye(f, i) => {
                &&& f < near.eyes@.len() && i < near.eyes@[f as int]@.len()
                &&& near.eyes@[f as int]@[i as int] is Some
                &&& forall|j: int|
                    0 <= j < near.pending@.len() && j <= usize::MAX && #[trigger] near.pending@[j] is Some
                        ==> near.eyes@[f as int]@[i as int]->0 < near.pending@[j]->0
                &&& forall|e: int, j: int|
                    0 <= e < near.eyes@.len() && e <= usize::MAX && 0 <= j < near.eyes@[e]@.len() && j
                        <= usize::MAX && #[trigger] near.eyes@[e]@[j] is Some ==> {
                        let d = near.eyes@[f as int]@[i as int]->0;
                        &&& d <= near.eyes@[e]@[j]->0
                        &&& e < f || (e == f && j < i) ==> d < near.eyes@[e]@[j]->0
                    }
            },
            DragTarget::Mouth(_) => false,
        },
{
    assert forall|j: int|
        0 <= j < near.pending@.len() && j <= usize::MAX && #[trigger] near.pending@[j] is Some implies reach(
        near,
        Layer::Blink,
        DragTarget::CurEye(j as usize),
    ) == near.pending@[j] by {}
    assert forall|e: int, j: int|
        0 <= e < near.eyes@.len() && e <= usize::MAX && 0 <= j < near.eyes@[e]@.len() && j <= usize::MAX
            && #[trigger] near.eyes@[e]@[j] is Some implies reach(
        near,
        Layer::Blink,
        DragTarget::Eye(e as usize, j as usize),
    ) == near.eyes@[e]@[j] by {}
}

/// On the talk layer the pointer hits the nearest point of the mouth within reach, the
/// first of equally near ones; on the other layers it hits nothing.
pub proof fn lemma_hit_is_nearest_mouth_point(near: Near, layer: Layer, t: DragTarget)
    requires
        !(layer is Blink),
        is_hit(near, layer, t),
    ensures
        layer is Talk,
        t matches DragTarget::Mouth(i) && {
            &&& i < near.mouth@.len() && near.mouth@[i as int] is Some
            &&& forall|j: int|
                0 <= j < near.mouth@.len() && j <= usize::MAX && #[trigger] near.mouth@[j] is Some
                    ==> near.mouth@[i as int]->0 <= near.mouth@[j]->0 && (j < i
                    ==> near.mouth@[i as int]->0 < near.mouth@[j]->0)
        },
{
    assert forall|j: int|
        0 <= j < near.mouth@.len() && j <= usize::MAX && #[trigger] near.mouth@[j] is Some implies reach(
        near,
        Layer::Talk,
        DragTarget::Mouth(j as usize),
    ) == near.mouth@[j] by {}
}

/// The pointer hits nothing only where nothing that the layer traces is within reach.
pub proof fn lemma_miss(near: Near, layer: Layer)
    requires
        is_hit_or_none(near, layer, None),
    ensures
        layer is Blink ==> forall|j: int|
            0 <= j < near.pending@.len() && j <= usize::MAX ==> #[trigger] near.pending@[j] is None,
        layer is Blink ==> forall|e: int, j: int|
            0 <= e < near.eyes@.len() && e <= usize::MAX && 0 <= j < near.eyes@[e]@.len() && j
                <= usize::MAX ==> #[trigger] near.eyes@[e]@[j] is None,
        layer is Talk ==> forall|j: int|
            0 <= j < near.mouth@.len() && j <= usize::MAX ==> #[trigger] near.mouth@[j] is None,
{
    assert forall|j: int| 0 <= j < near.pending@.len() && j <= usize::MAX && layer is Blink implies (
    #[trigger] near.pending@[j]) is None by {
        assert(reach(near, layer, DragTarget::CurEye(j as usize)) == near.pending@[j]);
    }
    assert forall|e: int, j: int|
        0 <= e < near.eyes@.len() && e <= usize::MAX && 0 <= j < near.eyes@[e]@.len() && j <= usize::MAX
            && layer is Blink implies (#[trigger] near.eyes@[e]@[j]) is None by {
        assert(reach(near, layer, DragTarget::Eye(e as usize, j as usize)) == near.eyes@[e]@[j]);
    }
    assert forall|j: int| 0 <= j < near.mouth@.len() && j <= usize::MAX && layer is Talk implies (
    #[trigger] near.mouth@[j]) is None by {
        assert(reach(near, layer, DragTarget::Mouth(j as usize)) == near.mouth@[j]);
    }
}

/// A press near the first point closes an eye of three points or more, before anything is
/// grabbed; else it grabs what it hits and changes nothing; else it adds a point. Only
/// the layers that trace answer.
pub proof fn lemma_press<P>(
    before: Traced<P>,
    layer: Layer,
    near: Near,
    p: P,
    press: Press,
    after: Traced<P>,
    t: DragTarget,
)
    requires
        is_press(before, layer, near, p, press, after),
    ensures
        layer is Bg || layer is BgImg || layer is Viz ==> press is Nothing && after == before,
        layer is Blink && near.closes && before.pending.len() >= 3 ==> {
            &&& press is Finished
            &&& after.eyes == before.eyes + seq![before.pending]
            &&& after.pending.len() == 0
            &&& after.mouth == before.mouth
        },
        layer is Talk || (layer is Blink && (!near.closes || before.pending.len() < 3)) ==> {
            &&& is_hit(near, layer, t) ==> press == Press::Grabbed(t) && after == before
            &&& is_hit_or_none(near, layer, None) ==> {
                &&& after.eyes == before.eyes
                &&& layer is Blink ==> press is EyePoint && after.pending == before.pending + seq![p]
                    && after.mouth == before.mouth
                &&& layer is Talk ==> press is MouthPoint && after.mouth == before.mouth + seq![p]
                    && after.pending == before.pending
            }
        },
        press matches Press::Finished(n) ==> n == after.eyes.len() as usize,
        press matches Press::EyePoint(n) ==> n == after.pending.len() as usize,
        press matches Press::MouthPoint(n) ==> n == after.mouth.len() as usize,
{
    assert(before.eyes.push(before.pending) =~= before.eyes + seq![before.pending]);
    assert(before.pending.push(p) =~= before.pending + seq![p]);
    assert(before.mouth.push(p) =~= before.mouth + seq![p]);
    if is_hit(near, layer, t) && press is Grabbed && is_hit(near, layer, press->Grabbed_0) {
        lemma_one_hit(near, layer, t, press->Grabbed_0);
    }
    if is_hit_or_none(near, layer, None) {
        assert forall|u: DragTarget| !#[trigger] is_hit(near, layer, u) by {
            assert(reach(near, layer, u) is None);
        }
    }
}

/// Deleting at the pointer takes the point that is hit; where none is, the last point of
/// what the layer traces.
pub proof fn lemma_erase<P>(
    before: Traced<P>,
    layer: Layer,
    near: Near,
    eye_gone: bool,
    after: Traced<P>,
    t: DragTarget,
)
    requires
        is_erase(before, layer, near, eye_gone, after),
    ensures
        is_hit(near, layer, t) ==> after == before.deleted(t) && eye_gone == before.loses_eye(t),
        is_hit_or_none(near, layer, None) ==> {
            &&& !eye_gone
            &&& after.eyes == before.eyes
            &&& after.pending.len() == if layer is Blink && before.pending.len() > 0 {
                before.pending.len() - 1
            } else {
                before.pending.len() as int
            }
            &&& after.mouth.len() == if layer is Talk && before.mouth.len() > 0 {
                before.mouth.len() - 1
            } else {
                before.mouth.len() as int
            }
            &&& after.pending.is_prefix_of(before.pending)
            &&& after.mouth.is_prefix_of(before.mouth)
        },
{
    if is_hit(near, layer, t) {
        let u = choose|u: DragTarget| #[trigger]
            is_hit(near, layer, u) && after == before.deleted(u) && eye_gone == before.loses_eye(u);
        lemma_one_hit(near, layer, t, u);
    }
    if is_hit_or_none(near, layer, None) {
        assert forall|u: DragTarget| !#[trigger] is_hit(near, layer, u) by {
            assert(reach(near, layer, u) is None);
        }
    }
}

/// Cancelling gives up the points of the eye that is being traced, and nothing else;
/// clearing the eyes leaves the mouth, and clearing the mouth leaves the eyes.
pub proof fn lemma_clear<P>(traced: Traced<P>)
    ensures
        traced.cancelled().pending.len() == 0,
        traced.cancelled().eyes == traced.eyes && traced.cancelled().mouth == traced.mouth,
        traced.without_eyes().eyes.len() == 0 && traced.without_eyes().pending.len() == 0,
        traced.without_eyes().mouth == traced.mouth,
        traced.without_mouth().mouth.len() == 0,
        traced.without_mouth().eyes == traced.eyes && traced.without_mouth().pending
            == traced.pending,
{
}

/// Points are added and undone exactly on the layers that trace: no other layer answers a
/// press, whatever is near.
pub proof fn lemma_layers_that_trace<P>(
    before: Traced<P>,
    layer: Layer,
    near: Near,
    p: P,
    press: Press,
    after: Traced<P>,
)
    requires
        is_press(before, layer, near, p, press, after),
    ensures
        traces(layer) <==> !(press is Nothing),
        !traces(layer) <==> layer is Bg || layer is BgImg || layer is Viz,
{
}

} // verus!
