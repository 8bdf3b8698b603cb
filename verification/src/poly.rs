//! Traced polygons: which pixels lie inside, and the box around them.
//!
//! Coordinates are of a type that the library never looks into: whoever
//! traces a polygon compares its coordinates and hands over the outcomes.

use vstd::prelude::*;

verus! {

/// A traced outline, vertex after vertex.
pub type Poly<S> = Vec<(S, S)>;

/// The vertex before `i` on a closed outline of `n` vertices.
pub open spec fn previous(i: int, n: int) -> int {
    if i == 0 {
        n - 1
    } else {
        i - 1
    }
}

/// Does the ray that leaves the point towards growing x cross the edge that
/// ends in vertex `i`? It does when one end of the edge is below the point and
/// the other is not, and the point is left of the edge.
pub open spec fn crosses(below: Seq<bool>, left: Seq<bool>, i: int) -> bool {
    below[i] != below[previous(i, below.len() as int)] && left[i]
}

/// How many of the first `n` edges the ray crosses.
pub open spec fn crossings(below: Seq<bool>, left: Seq<bool>, n: nat) -> nat
    decreases n,
{
    if n == 0 {
        0
    } else {
        crossings(below, left, (n - 1) as nat) + if crosses(below, left, n - 1) {
            1nat
        } else {
            0nat
        }
    }
}

/// Even-odd rule: a point is inside an outline when the ray from it crosses an
/// odd number of edges. `below[i]` says that vertex `i` has a greater y than
/// the point, `left[i]` that the point is left of the edge ending in vertex `i`.
pub fn point_in_poly(below: &Vec<bool>, left: &Vec<bool>) -> (inside: bool)
    requires
        below@.len() > 0,
        below@.len() == left@.len(),
    ensures
        inside == (crossings(below@, left@, below@.len()) % 2 == 1),
{
    let n: usize = below.len();
    let mut inside = false;
    let mut j: usize = n - 1;
    for i in 0..n
        invariant
            n == below@.len(),
            n == left@.len(),
            n > 0,
            j == previous(i as int, n as int),
            inside == (crossings(below@, left@, i as nat) % 2 == 1),
    {
        if below[i] != below[j] && left[i] {
            inside = !inside;
        }
        j = i;
    }
    inside
}

/// Turning the outline's list of vertices round by one leaves the number of
/// crossed edges as it is, so it does not matter which vertex was traced first.
pub proof fn lemma_first_vertex_is_free(below: Seq<bool>, left: Seq<bool>)
    requires
        below.len() > 0,
        below.len() == left.len(),
    ensures
        crossings(
            below.drop_first().push(below[0]),
            left.drop_first().push(left[0]),
            below.len(),
        ) == crossings(below, left, below.len()),
{
    let b2 = below.drop_first().push(below[0]);
    let l2 = left.drop_first().push(left[0]);
    let n = below.len();
    lemma_turned_prefix(below, left, (n - 1) as nat);
    assert(crosses(b2, l2, n - 1) == crosses(below, left, 0));
}

proof fn lemma_turned_prefix(below: Seq<bool>, left: Seq<bool>, k: nat)
    requires
        k < below.len(),
        below.len() == left.len(),
    ensures
        crossings(below.drop_first().push(below[0]), left.drop_first().push(left[0]), k)
            + if crosses(below, left, 0) { 1nat } else { 0nat } == crossings(below, left, k + 1),
    decreases k,
{
    let b2 = below.drop_first().push(below[0]);
    let l2 = left.drop_first().push(left[0]);
    reveal_with_fuel(crossings, 2);
    if k > 0 {
        lemma_turned_prefix(below, left, (k - 1) as nat);
        assert(crosses(b2, l2, k - 1) == crosses(below, left, k as int));
    }
}

/// A box of pixels, both corners included.
#[derive(Clone, Copy, PartialEq, Eq, Debug, Structural)]
pub struct Bounds {
    pub x0: u32,
    pub y0: u32,
    pub x1: u32,
    pub y1: u32,
}

impl Bounds {
    /// The corners are in order, and their neighbours can be counted.
    pub open spec fn wf(self) -> bool {
        self.x0 <= self.x1 < u32::MAX && self.y0 <= self.y1 < u32::MAX
    }

    /// Does the box hold the cell?
    pub open spec fn has(self, x: int, y: int) -> bool {
        self.x0 <= x <= self.x1 && self.y0 <= y <= self.y1
    }
}

/// The least of the lower ends; the greatest number where there is none.
pub open spec fn least(spans: Seq<(u32, u32)>) -> u32
    decreases spans.len(),
{
    if spans.len() == 0 {
        u32::MAX
    } else {
        let rest = least(spans.drop_last());
        if spans.last().0 < rest {
            spans.last().0
        } else {
            rest
        }
    }
}

/// The greatest of the upper ends; zero where there is none.
pub open spec fn greatest(spans: Seq<(u32, u32)>) -> u32
    decreases spans.len(),
{
    if spans.len() == 0 {
        0
    } else {
        let rest = greatest(spans.drop_last());
        if spans.last().1 > rest {
            spans.last().1
        } else {
            rest
        }
    }
}

/// `a`, but at most the last cell of a side of `side` cells.
pub open spec fn last_cell(a: u32, side: u32) -> u32 {
    let last: u32 = if side == 0 {
        0
    } else {
        (side - 1) as u32
    };
    if a < last {
        a
    } else {
        last
    }
}

/// The box around an outline on a picture of `w` by `h` pixels.
pub open spec fn box_of(xs: Seq<(u32, u32)>, ys: Seq<(u32, u32)>, w: u32, h: u32) -> Bounds {
    Bounds {
        x0: least(xs),
        y0: least(ys),
        x1: last_cell(greatest(xs), w),
        y1: last_cell(greatest(ys), h),
    }
}

/// The ends of a side: the least lower end and the greatest upper end.
fn extremes(spans: &Vec<(u32, u32)>) -> (r: (u32, u32))
    ensures
        r.0 == least(spans@),
        r.1 == greatest(spans@),
{
    let mut lo: u32 = u32::MAX;
    let mut hi: u32 = 0;
    for i in 0..spans.len()
        invariant
            lo == least(spans@.take(i as int)),
            hi == greatest(spans@.take(i as int)),
    {
        let (a, b) = spans[i];
        assert(spans@.take(i + 1).drop_last() =~= spans@.take(i as int));
        if a < lo {
            lo = a;
        }
        if b > hi {
            hi = b;
        }
    }
    assert(spans@.take(spans@.len() as int) =~= spans@);
    (lo, hi)
}

/// The box of an outline, where it has more than one row and one column.
pub open spec fn outline_box(
    xs: Seq<(u32, u32)>,
    ys: Seq<(u32, u32)>,
    w: u32,
    h: u32,
) -> Option<Bounds> {
    let b = box_of(xs, ys, w, h);
    if b.x0 < b.x1 && b.y0 < b.y1 {
        Some(b)
    } else {
        None
    }
}

/// Box around an outline, cut to a picture of `w` by `h` pixels; `None` when it
/// is less than two pixels wide or high. Each vertex gives, per axis, the cell
/// at or before it and the cell at or after it, both at least zero.
pub fn bbox(xs: &Vec<(u32, u32)>, ys: &Vec<(u32, u32)>, w: u32, h: u32) -> (r: Option<Bounds>)
    ensures
        r is Some <==> {
            let b = box_of(xs@, ys@, w, h);
            b.x0 < b.x1 && b.y0 < b.y1
        },
        r matches Some(b) ==> b == box_of(xs@, ys@, w, h) && b.wf() && b.x1 < w && b.y1 < h,
        r == outline_box(xs@, ys@, w, h),
{
    let (x0, x_max) = extremes(xs);
    let (y0, y_max) = extremes(ys);
    let wl: u32 = w.saturating_sub(1);
    let hl: u32 = h.saturating_sub(1);
    let x1: u32 = if x_max < wl {
        x_max
    } else {
        wl
    };
    let y1: u32 = if y_max < hl {
        y_max
    } else {
        hl
    };
    if x0 < x1 && y0 < y1 {
        Some(Bounds { x0, y0, x1, y1 })
    } else {
        None
    }
}

/// Which pixels of a box an outline covers.
pub struct Mask {
    bounds: Bounds,
    rows: Vec<Vec<bool>>,
}

impl Mask {
    pub closed spec fn wf(self) -> bool {
        &&& self.bounds.wf()
        &&& self.rows@.len() == self.bounds.y1 - self.bounds.y0 + 1
        &&& forall|i: int|
            0 <= i < self.rows@.len() ==> (#[trigger] self.rows@[i])@.len() == self.bounds.x1
                - self.bounds.x0 + 1
    }

    /// The box that the mask spans.
    pub closed spec fn area(self) -> Bounds {
        self.bounds
    }

    /// Does the outline cover the cell? Nothing outside the box is covered.
    pub closed spec fn covers(self, x: int, y: int) -> bool {
        self.bounds.has(x, y) && self.rows@[y - self.bounds.y0]@[x - self.bounds.x0]
    }

    /// Is the box inside a picture of `w` by `h` pixels?
    pub open spec fn fits(self, w: nat, h: nat) -> bool {
        self.area().x1 < w && self.area().y1 < h
    }

    /// What a mask is, to the modules that use it.
    pub broadcast proof fn lemma_area(self, x: int, y: int)
        requires
            self.wf(),
        ensures
            self.area().wf(),
            #[trigger] self.covers(x, y) ==> self.area().has(x, y),
    {
    }

    /// Asks `inside` about every cell of the box.
    pub fn trace<F: Fn(u32, u32) -> bool>(bounds: Bounds, inside: F) -> (r: Mask)
        requires
            bounds.wf(),
            forall|x: u32, y: u32| bounds.has(x as int, y as int) ==> call_requires(inside, (x, y)),
        ensures
            r.wf(),
            r.area() == bounds,
            forall|x: u32, y: u32|
                bounds.has(x as int, y as int) ==> call_ensures(
                    inside,
                    (x, y),
                    #[trigger] r.covers(x as int, y as int),
                ),
    {
        let mut rows: Vec<Vec<bool>> = Vec::new();
        let mut y: u32 = bounds.y0;
        while y <= bounds.y1
            invariant
                bounds.wf(),
                bounds.y0 <= y <= bounds.y1 + 1,
                rows@.len() == y - bounds.y0,
                forall|a: u32, b: u32| bounds.has(a as int, b as int) ==> call_requires(inside, (a, b)),
                forall|i: int|
                    0 <= i < rows@.len() ==> (#[trigger] rows@[i])@.len() == bounds.x1 - bounds.x0 + 1,
                forall|a: u32, b: u32|
                    bounds.x0 <= a <= bounds.x1 && bounds.y0 <= b < y ==> call_ensures(
                        inside,
                        (a, b),
                        #[trigger] rows@[b - bounds.y0]@[a - bounds.x0],
                    ),
            decreases bounds.y1 + 1 - y,
        {
            let mut row: Vec<bool> = Vec::new();
            let mut x: u32 = bounds.x0;
            while x <= bounds.x1
                invariant
                    bounds.wf(),
                    bounds.y0 <= y <= bounds.y1,
                    bounds.x0 <= x <= bounds.x1 + 1,
                    row@.len() == x - bounds.x0,
                    forall|a: u32, b: u32|
                        bounds.has(a as int, b as int) ==> call_requires(inside, (a, b)),
                    forall|a: u32|
                        bounds.x0 <= a < x ==> call_ensures(
                            inside,
                            (a, y),
                            #[trigger] row@[a - bounds.x0],
                        ),
                decreases bounds.x1 + 1 - x,
            {
                assert(bounds.has(x as int, y as int));
                let b = inside(x, y);
                row.push(b);
                x = x + 1;
            }
            rows.push(row);
            y = y + 1;
        }
        let r = Mask { bounds, rows };
        assert forall|x: u32, y: u32| bounds.has(x as int, y as int) implies call_ensures(
            inside,
            (x, y),
            #[trigger] r.covers(x as int, y as int),
        ) by {
            assert(call_ensures(inside, (x, y), rows@[y - bounds.y0]@[x - bounds.x0]));
        }
        r
    }

    /// The box that the mask spans.
    pub fn bounds(&self) -> (b: Bounds)
        ensures
            b == self.area(),
    {
        self.bounds
    }

    /// Does the outline cover the cell?
    pub fn contains(&self, x: u32, y: u32) -> (r: bool)
        requires
            self.wf(),
        ensures
            r == self.covers(x as int, y as int),
    {
        if x < self.bounds.x0 || x > self.bounds.x1 || y < self.bounds.y0 || y > self.bounds.y1 {
            false
        } else {
            self.rows[(y - self.bounds.y0) as usize][(x - self.bounds.x0) as usize]
        }
    }
}

/// The pixels of a picture of `w` by `h` that an outline covers; `None` when the
/// box around it is less than two pixels wide or high. The cells of the vertices
/// are given as for `bbox`, and `inside` says whether a pixel is inside.
pub fn outline_mask<F: Fn(u32, u32) -> bool>(
    xs: &Vec<(u32, u32)>,
    ys: &Vec<(u32, u32)>,
    w: u32,
    h: u32,
    inside: F,
) -> (r: Option<Mask>)
    requires
        forall|x: u32, y: u32| x < w && y < h ==> call_requires(inside, (x, y)),
    ensures
        r is Some <==> {
            let b = box_of(xs@, ys@, w, h);
            b.x0 < b.x1 && b.y0 < b.y1
        },
        r matches Some(m) ==> {
            &&& m.wf()
            &&& m.area() == box_of(xs@, ys@, w, h)
            &&& outline_box(xs@, ys@, w, h) == Some(m.area())
            &&& m.fits(w as nat, h as nat)
            &&& forall|x: u32, y: u32|
                m.area().has(x as int, y as int) ==> call_ensures(
                    inside,
                    (x, y),
                    #[trigger] m.covers(x as int, y as int),
                )
        },
{
    match bbox(xs, ys, w, h) {
        Some(bounds) => Some(Mask::trace(bounds, inside)),
        None => None,
    }
}

/// The edges that the ray crosses, as a list of yes and no: an edge leads from a vertex
/// to the next, the last vertex's to the first, and is crossed if its ends lie on two
/// sides of the ray's height and it passes on the ray's side.
pub proof fn lemma_crossings_count(below: Seq<bool>, left: Seq<bool>)
    requires
        below.len() == left.len(),
    ensures
        crossings(below, left, below.len()) == Seq::new(
            below.len(),
            |i: int|
                left[i] && below[i] != (if i > 0 {
                    below[i - 1]
                } else {
                    below.last()
                }),
        ).filter(|b: bool| b).len(),
{
    let edges = Seq::new(
        below.len(),
        |i: int|
            left[i] && below[i] != (if i > 0 {
                below[i - 1]
            } else {
                below.last()
            }),
    );
    lemma_crossings_of_first(below, left, edges, below.len());
    assert(edges.take(below.len() as int) =~= edges);
}

proof fn lemma_crossings_of_first(below: Seq<bool>, left: Seq<bool>, edges: Seq<bool>, n: nat)
    requires
        below.len() == left.len(),
        edges.len() == below.len(),
        n <= below.len(),
        forall|i: int|
            0 <= i < edges.len() ==> #[trigger] edges[i] == (left[i] && below[i] != (if i > 0 {
                below[i - 1]
            } else {
                below.last()
            })),
    ensures
        crossings(below, left, n) == edges.take(n as int).filter(|b: bool| b).len(),
    decreases n,
{
    reveal(Seq::filter);
    if n > 0 {
        lemma_crossings_of_first(below, left, edges, (n - 1) as nat);
        let s = edges.take(n as int);
        assert(s.drop_last() =~= edges.take(n - 1));
        assert(s.last() == edges[n - 1]);
    }
}

proof fn lemma_changes(below: Seq<bool>, left: Seq<bool>, n: nat)
    requires
        0 < n <= below.len(),
        below.len() == left.len(),
        forall|i: int| 0 <= i < left.len() ==> #[trigger] left[i],
    ensures
        crossings(below, left, n) % 2 == if below[n - 1] != below.last() {
            1int
        } else {
            0
        },
    decreases n,
{
    if n > 1 {
        lemma_changes(below, left, (n - 1) as nat);
    } else {
        assert(crossings(below, left, 0) == 0);
    }
}

/// A point with the whole outline on one side is outside: the ray leaves a closed outline
/// as often as it enters it, or never meets it.
pub proof fn lemma_outside_is_outside(below: Seq<bool>, left: Seq<bool>)
    requires
        below.len() == left.len(),
        below.len() > 0,
        (forall|i: int| 0 <= i < left.len() ==> #[trigger] left[i]) || (forall|i: int|
            0 <= i < left.len() ==> !#[trigger] left[i]) || (forall|i: int|
            0 <= i < below.len() ==> #[trigger] below[i]) || (forall|i: int|
            0 <= i < below.len() ==> !#[trigger] below[i]),
    ensures
        crossings(below, left, below.len()) % 2 == 0,
{
    if forall|i: int| 0 <= i < left.len() ==> #[trigger] left[i] {
        lemma_changes(below, left, below.len());
    } else {
        lemma_no_crossing(below, left, below.len());
    }
}

proof fn lemma_no_crossing(below: Seq<bool>, left: Seq<bool>, n: nat)
    requires
        below.len() == left.len(),
        n <= below.len(),
        (forall|i: int| 0 <= i < left.len() ==> !#[trigger] left[i]) || (forall|i: int|
            0 <= i < below.len() ==> #[trigger] below[i]) || (forall|i: int|
            0 <= i < below.len() ==> !#[trigger] below[i]),
    ensures
        crossings(below, left, n) == 0,
    decreases n,
{
    if n > 0 {
        lemma_no_crossing(below, left, (n - 1) as nat);
    }
}

proof fn lemma_least(spans: Seq<(u32, u32)>)
    ensures
        forall|i: int| 0 <= i < spans.len() ==> least(spans) <= (#[trigger] spans[i]).0,
        spans.len() > 0 ==> exists|i: int|
            0 <= i < spans.len() && (#[trigger] spans[i]).0 == least(spans),
    decreases spans.len(),
{
    if spans.len() > 0 {
        let rest = spans.drop_last();
        lemma_least(rest);
        assert forall|i: int| 0 <= i < spans.len() implies least(spans) <= (#[trigger] spans[i]).0 by {
            if i < rest.len() {
                assert(rest[i] == spans[i]);
            }
        }
        if spans.last().0 < least(rest) || rest.len() == 0 {
            assert(spans[spans.len() - 1].0 == least(spans));
        } else {
            let i = choose|i: int| 0 <= i < rest.len() && (#[trigger] rest[i]).0 == least(rest);
            assert(spans[i].0 == least(spans));
        }
    }
}

proof fn lemma_greatest(spans: Seq<(u32, u32)>)
    ensures
        forall|i: int| 0 <= i < spans.len() ==> greatest(spans) >= (#[trigger] spans[i]).1,
        spans.len() > 0 ==> exists|i: int|
            0 <= i < spans.len() && (#[trigger] spans[i]).1 == greatest(spans),
    decreases spans.len(),
{
    if spans.len() > 0 {
        let rest = spans.drop_last();
        lemma_greatest(rest);
        assert forall|i: int| 0 <= i < spans.len() implies greatest(spans) >= (
        #[trigger] spans[i]).1 by {
            if i < rest.len() {
                assert(rest[i] == spans[i]);
            }
        }
        if spans.last().1 > greatest(rest) || rest.len() == 0 {
            assert(spans[spans.len() - 1].1 == greatest(spans));
        } else {
            let i = choose|i: int| 0 <= i < rest.len() && (#[trigger] rest[i]).1 == greatest(rest);
            assert(spans[i].1 == greatest(spans));
        }
    }
}

/// A side of the box: it starts at the least lower end, and ends at the greatest upper end
/// or at the last cell of the picture, whichever comes first.
pub open spec fn is_side(spans: Seq<(u32, u32)>, side: u32, a: u32, b: u32) -> bool {
    &&& forall|i: int| 0 <= i < spans.len() ==> a <= (#[trigger] spans[i]).0
    &&& exists|i: int| 0 <= i < spans.len() && (#[trigger] spans[i]).0 == a
    &&& b <= side - 1
    &&& b == side - 1 || forall|i: int| 0 <= i < spans.len() ==> b >= (#[trigger] spans[i]).1
    &&& exists|i: int| 0 <= i < spans.len() && b <= (#[trigger] spans[i]).1
}

/// The box of an outline fits round it, its columns from the outline's columns and its
/// rows from the outline's rows, and ends inside the picture. An outline has a box if and
/// only if that leaves it two columns and two rows.
pub proof fn lemma_box_fits(xs: Seq<(u32, u32)>, ys: Seq<(u32, u32)>, w: u32, h: u32, b: Bounds)
    requires
        xs.len() > 0,
        ys.len() > 0,
        w > 0,
        h > 0,
    ensures
        outline_box(xs, ys, w, h) == Some(b) <==> {
            &&& is_side(xs, w, b.x0, b.x1)
            &&& is_side(ys, h, b.y0, b.y1)
            &&& b.x0 < b.x1
            &&& b.y0 < b.y1
        },
{
    lemma_side(xs, w, b.x0, b.x1);
    lemma_side(ys, h, b.y0, b.y1);
}

proof fn lemma_side(spans: Seq<(u32, u32)>, side: u32, a: u32, b: u32)
    requires
        spans.len() > 0,
        side > 0,
    ensures
        is_side(spans, side, a, b) <==> a == least(spans) && b == last_cell(greatest(spans), side),
{
    lemma_least(spans);
    lemma_greatest(spans);
    let i = choose|i: int| 0 <= i < spans.len() && (#[trigger] spans[i]).0 == least(spans);
    let j = choose|j: int| 0 <= j < spans.len() && (#[trigger] spans[j]).1 == greatest(spans);
    assert(spans[i].0 == least(spans) && spans[j].1 == greatest(spans));
    if is_side(spans, side, a, b) {
        let k = choose|k: int| 0 <= k < spans.len() && (#[trigger] spans[k]).0 == a;
        let l = choose|l: int| 0 <= l < spans.len() && b <= (#[trigger] spans[l]).1;
        assert(spans[k].0 == a && b <= spans[l].1);
    }
}

} // verus!
