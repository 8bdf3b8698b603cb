//! Blinking: the lids of a traced eye close, column by column.
//!
//! The rows at which the lids start are kept in quarters of a row, because
//! each is a weighted mean of three neighbours with the weights one, two, one.

use vstd::prelude::*;

use crate::canvas::{lemma_set_at, Picture, Rgba, RgbaImage};
use crate::fold::{fold_range, folds, folds_by, lemma_fold_few, lemma_fold_split};
use crate::poly::Mask;

verus! {

broadcast use {lemma_set_at, Mask::lemma_area};

/// A pixel with no more alpha than this is left alone by the lids.
pub const FAINT: u8 = 8;

/// `e` is the first and the last row that the mask covers in column `x`, or
/// `None` where it covers none.
pub open spec fn is_extent(mask: Mask, x: int, e: Option<(u32, u32)>) -> bool {
    match e {
        None => forall|y: int| !#[trigger] mask.covers(x, y),
        Some((t, b)) => {
            &&& mask.covers(x, t as int)
            &&& mask.covers(x, b as int)
            &&& forall|y: int| #[trigger] mask.covers(x, y) ==> t <= y <= b
        },
    }
}

/// First and last covered row of every column of the mask.
pub fn column_extents(mask: &Mask) -> (r: Vec<Option<(u32, u32)>>)
    requires
        mask.wf(),
    ensures
        r@.len() == mask.area().x1 - mask.area().x0 + 1,
        forall|i: int| 0 <= i < r@.len() ==> is_extent(*mask, mask.area().x0 + i, #[trigger] r@[i]),
{
    let b = mask.bounds();
    proof {
        mask.lemma_area(0, 0);
    }
    let mut r: Vec<Option<(u32, u32)>> = Vec::new();
    let mut x: u32 = b.x0;
    while x <= b.x1
        invariant
            mask.wf(),
            b == mask.area(),
            b.wf(),
            b.x0 <= x <= b.x1 + 1,
            r@.len() == x - b.x0,
            forall|i: int| 0 <= i < r@.len() ==> is_extent(*mask, b.x0 + i, #[trigger] r@[i]),
        decreases b.x1 + 1 - x,
    {
        let mut e: Option<(u32, u32)> = None;
        let mut y: u32 = b.y0;
        while y <= b.y1
            invariant
                mask.wf(),
                b == mask.area(),
                b.wf(),
                b.y0 <= y <= b.y1 + 1,
                match e {
                    None => forall|j: int| j < y ==> !#[trigger] mask.covers(x as int, j),
                    Some((t, l)) => {
                        &&& t <= l < y
                        &&& mask.covers(x as int, t as int)
                        &&& mask.covers(x as int, l as int)
                        &&& forall|j: int| j < y && #[trigger] mask.covers(x as int, j) ==> t <= j <= l
                    },
                },
            decreases b.y1 + 1 - y,
        {
            if mask.contains(x, y) {
                e = match e {
                    None => Some((y, y)),
                    Some((t, _)) => Some((t, y)),
                };
            }
            y = y + 1;
        }
        assert(is_extent(*mask, x as int, e));
        r.push(e);
        x = x + 1;
    }
    r
}

/// Four times the smoothed value of entry `i`: its own value twice and both
/// neighbours once. Past the ends the entry stands for its neighbour; where a
/// neighbour has no value the entry stays as it is.
pub open spec fn smoothed(v: Seq<Option<u32>>, i: int) -> Option<u64> {
    let l = if i > 0 {
        v[i - 1]
    } else {
        v[i]
    };
    let r = if i + 1 < v.len() {
        v[i + 1]
    } else {
        v[i]
    };
    match (v[i], l, r) {
        (None, _, _) => None,
        (Some(c), Some(a), Some(b)) => Some((a + 2 * c + b) as u64),
        (Some(c), _, _) => Some((4 * c) as u64),
    }
}

/// Smooths a lid edge, so that it does not step along the trace.
pub fn smooth(v: &Vec<Option<u32>>) -> (r: Vec<Option<u64>>)
    ensures
        r@.len() == v@.len(),
        forall|i: int| 0 <= i < v@.len() ==> #[trigger] r@[i] == smoothed(v@, i),
{
    let mut r: Vec<Option<u64>> = Vec::new();
    let n: usize = v.len();
    for i in 0..n
        invariant
            n == v@.len(),
            r@.len() == i,
            forall|j: int| 0 <= j < i ==> #[trigger] r@[j] == smoothed(v@, j),
    {
        let l = if i > 0 {
            v[i - 1]
        } else {
            v[i]
        };
        let right = if i < n - 1 {
            v[i + 1]
        } else {
            v[i]
        };
        let q: Option<u64> = match v[i] {
            None => None,
            Some(c) => match l {
                None => Some(4 * (c as u64)),
                Some(a) => match right {
                    None => Some(4 * (c as u64)),
                    Some(b) => Some(a as u64 + 2 * (c as u64) + b as u64),
                },
            },
        };
        r.push(q);
    }
    r
}

/// How many entries in a row are present, ending with entry `i`.
pub open spec fn run_before(present: Seq<bool>, i: int) -> nat
    decreases i + 1,
{
    if i < 0 || i >= present.len() || !present[i] {
        0
    } else {
        run_before(present, i - 1) + 1
    }
}

/// How many entries in a row are present, starting with entry `i`.
pub open spec fn run_after(present: Seq<bool>, i: int) -> nat
    decreases present.len() - i,
{
    if i < 0 || i >= present.len() || !present[i] {
        0
    } else {
        run_after(present, i + 1) + 1
    }
}

/// Columns from entry `i` to the nearer end of the run it stands in, itself
/// included; zero where there is nothing.
pub open spec fn edge_distance(present: Seq<bool>, i: int) -> nat {
    if run_before(present, i) < run_after(present, i) {
        run_before(present, i)
    } else {
        run_after(present, i)
    }
}

proof fn lemma_run_before_bound(present: Seq<bool>, i: int)
    requires
        -1 <= i < present.len(),
    ensures
        run_before(present, i) <= i + 1,
    decreases i + 1,
{
    if i >= 0 {
        lemma_run_before_bound(present, i - 1);
    }
}

proof fn lemma_run_after_bound(present: Seq<bool>, i: int)
    requires
        0 <= i <= present.len(),
    ensures
        run_after(present, i) <= present.len() - i,
    decreases present.len() - i,
{
    if i < present.len() {
        lemma_run_after_bound(present, i + 1);
    }
}

/// The distance of every column to the nearer end of its run.
pub fn edge_distances(present: &Vec<bool>) -> (r: Vec<usize>)
    ensures
        r@.len() == present@.len(),
        forall|i: int| 0 <= i < r@.len() ==> #[trigger] r@[i] == edge_distance(present@, i),
{
    let n: usize = present.len();
    let mut r: Vec<usize> = Vec::new();
    let mut run: usize = 0;
    for i in 0..n
        invariant
            n == present@.len(),
            r@.len() == i,
            run == run_before(present@, i - 1),
            run <= i,
            forall|j: int| 0 <= j < i ==> #[trigger] r@[j] == run_before(present@, j),
    {
        run = if present[i] {
            run + 1
        } else {
            0
        };
        r.push(run);
    }
    run = 0;
    let mut i: usize = n;
    while i > 0
        invariant
            n == present@.len(),
            r@.len() == n,
            i <= n,
            run == run_after(present@, i as int),
            forall|j: int| 0 <= j < i ==> #[trigger] r@[j] == run_before(present@, j),
            forall|j: int| i <= j < n ==> #[trigger] r@[j] == edge_distance(present@, j),
        decreases i,
    {
        i = i - 1;
        proof {
            lemma_run_after_bound(present@, i as int);
        }
        run = if present[i] {
            run + 1
        } else {
            0
        };
        if run < r[i] {
            r.set(i, run);
        }
    }
    r
}

/// What the lids need to know of one column: in quarters of a row, where the
/// eye starts and ends there and how high its highest column is; and the
/// distance to the nearer corner of the eye.
#[derive(Clone, Copy, PartialEq, Eq, Debug, Structural)]
pub struct LidColumn {
    pub top: u64,
    pub bottom: u64,
    pub tallest: u64,
    pub edge: usize,
}

/// An eye's columns from left to right; `None` where the eye has no pixel.
pub struct EyeShape {
    pub columns: Vec<Option<LidColumn>>,
    pub tallest: u64,
}

/// The tops of the extents.
pub open spec fn tops(e: Seq<Option<(u32, u32)>>) -> Seq<Option<u32>> {
    e.map_values(
        |v: Option<(u32, u32)>|
            match v {
                None => None::<u32>,
                Some(p) => Some(p.0),
            },
    )
}

/// The bottoms of the extents.
pub open spec fn bottoms(e: Seq<Option<(u32, u32)>>) -> Seq<Option<u32>> {
    e.map_values(
        |v: Option<(u32, u32)>|
            match v {
                None => None::<u32>,
                Some(p) => Some(p.1),
            },
    )
}

/// Which columns have an extent.
pub open spec fn presence(e: Seq<Option<(u32, u32)>>) -> Seq<bool> {
    e.map_values(|v: Option<(u32, u32)>| v is Some)
}

/// The smoothed height of column `i`, in quarters of a row.
pub open spec fn height_of(e: Seq<Option<(u32, u32)>>, i: int) -> int {
    match (smoothed(tops(e), i), smoothed(bottoms(e), i)) {
        (Some(t), Some(b)) => b - t,
        _ => 0,
    }
}

/// The greatest smoothed height among the first `n` columns.
pub open spec fn tallest_of(e: Seq<Option<(u32, u32)>>, n: nat) -> int
    decreases n,
{
    if n == 0 {
        0
    } else {
        let rest = tallest_of(e, (n - 1) as nat);
        if height_of(e, n - 1) > rest {
            height_of(e, n - 1)
        } else {
            rest
        }
    }
}

/// Column `i` of the eye whose covered rows are `e`.
pub open spec fn lid_column(e: Seq<Option<(u32, u32)>>, i: int) -> Option<LidColumn> {
    match (smoothed(tops(e), i), smoothed(bottoms(e), i)) {
        (Some(t), Some(b)) => Some(
            LidColumn {
                top: t,
                bottom: b,
                tallest: tallest_of(e, e.len()) as u64,
                edge: edge_distance(presence(e), i) as usize,
            },
        ),
        _ => None,
    }
}

/// The extent of column `x`: there is exactly one.
pub open spec fn extent(mask: Mask, x: int) -> Option<(u32, u32)> {
    choose|e: Option<(u32, u32)>| is_extent(mask, x, e)
}

/// The extents of a mask's columns, from left to right.
pub open spec fn extents(mask: Mask) -> Seq<Option<(u32, u32)>> {
    Seq::new(
        (mask.area().x1 - mask.area().x0 + 1) as nat,
        |i: int| extent(mask, mask.area().x0 + i),
    )
}

/// Looks through the rows above `k` of column `x`.
proof fn scan(mask: Mask, x: int, k: int) -> (e: Option<(u32, u32)>)
    requires
        mask.wf(),
        mask.area().y0 <= k <= mask.area().y1 + 1,
    ensures
        match e {
            None => forall|j: int| j < k ==> !#[trigger] mask.covers(x, j),
            Some((t, l)) => {
                &&& t <= l < k
                &&& mask.covers(x, t as int)
                &&& mask.covers(x, l as int)
                &&& forall|j: int| j < k && #[trigger] mask.covers(x, j) ==> t <= j <= l
            },
        },
    decreases k,
{
    mask.lemma_area(x, k);
    if k == mask.area().y0 {
        None
    } else {
        let rest = scan(mask, x, k - 1);
        if mask.covers(x, k - 1) {
            match rest {
                None => Some(((k - 1) as u32, (k - 1) as u32)),
                Some((t, _)) => Some((t, (k - 1) as u32)),
            }
        } else {
            rest
        }
    }
}

/// The extent of a column is what its name says: the column's first and last
/// covered row.
pub proof fn lemma_extent(mask: Mask, x: int)
    requires
        mask.wf(),
    ensures
        is_extent(mask, x, extent(mask, x)),
{
    mask.lemma_area(x, 0);
    let e = scan(mask, x, mask.area().y1 + 1);
    assert(is_extent(mask, x, e));
}

proof fn lemma_extent_unique(mask: Mask, x: int, e: Option<(u32, u32)>, f: Option<(u32, u32)>)
    requires
        is_extent(mask, x, e),
        is_extent(mask, x, f),
    ensures
        e == f,
{
    if let Some((t, b)) = e {
        assert(mask.covers(x, t as int));
        assert(mask.covers(x, b as int));
    }
    if let Some((t, b)) = f {
        assert(mask.covers(x, t as int));
        assert(mask.covers(x, b as int));
    }
}

proof fn lemma_extents(mask: Mask, e: Seq<Option<(u32, u32)>>)
    requires
        mask.wf(),
        e.len() == mask.area().x1 - mask.area().x0 + 1,
        forall|i: int| 0 <= i < e.len() ==> is_extent(mask, mask.area().x0 + i, #[trigger] e[i]),
    ensures
        e == extents(mask),
{
    assert forall|i: int| 0 <= i < e.len() implies e[i] == extents(mask)[i] by {
        let x = mask.area().x0 + i;
        assert(is_extent(mask, x, e[i]));
        lemma_extent(mask, x);
        lemma_extent_unique(mask, x, e[i], extents(mask)[i]);
    }
    assert(e =~= extents(mask));
}

/// The smoothed bottom of a column is never above its smoothed top.
proof fn lemma_height_bounds(mask: Mask, i: int)
    requires
        mask.wf(),
        0 <= i < extents(mask).len(),
    ensures
        0 <= height_of(extents(mask), i) <= u64::MAX,
{
    lemma_extent(mask, mask.area().x0 + i);
    lemma_extent(mask, mask.area().x0 + (i - 1));
    lemma_extent(mask, mask.area().x0 + (i + 1));
}

/// Measures a traced eye.
pub fn eye_shape(mask: &Mask) -> (r: EyeShape)
    requires
        mask.wf(),
    ensures
        r.columns@.len() == extents(*mask).len(),
        r.tallest == tallest_of(extents(*mask), extents(*mask).len()),
        forall|i: int|
            0 <= i < r.columns@.len() ==> #[trigger] r.columns@[i] == lid_column(extents(*mask), i),
{
    let ext = column_extents(mask);
    let ghost e = ext@;
    proof {
        lemma_extents(*mask, e);
    }
    let n: usize = ext.len();
    let mut top: Vec<Option<u32>> = Vec::new();
    let mut bottom: Vec<Option<u32>> = Vec::new();
    let mut present: Vec<bool> = Vec::new();
    for i in 0..n
        invariant
            n == ext@.len(),
            e == ext@,
            top@.len() == i,
            bottom@.len() == i,
            present@.len() == i,
            forall|j: int| 0 <= j < i ==> #[trigger] top@[j] == tops(e)[j],
            forall|j: int| 0 <= j < i ==> #[trigger] bottom@[j] == bottoms(e)[j],
            forall|j: int| 0 <= j < i ==> #[trigger] present@[j] == presence(e)[j],
    {
        match ext[i] {
            None => {
                top.push(None);
                bottom.push(None);
                present.push(false);
            },
            Some((t, b)) => {
                top.push(Some(t));
                bottom.push(Some(b));
                present.push(true);
            },
        }
    }
    assert(top@ =~= tops(e));
    assert(bottom@ =~= bottoms(e));
    assert(present@ =~= presence(e));
    let top = smooth(&top);
    let bottom = smooth(&bottom);
    let edge = edge_distances(&present);
    let mut tallest: u64 = 0;
    for i in 0..n
        invariant
            mask.wf(),
            n == e.len(),
            e == extents(*mask),
            top@.len() == n,
            bottom@.len() == n,
            forall|j: int| 0 <= j < n ==> #[trigger] top@[j] == smoothed(tops(e), j),
            forall|j: int| 0 <= j < n ==> #[trigger] bottom@[j] == smoothed(bottoms(e), j),
            tallest == tallest_of(e, i as nat),
    {
        proof {
            lemma_height_bounds(*mask, i as int);
        }
        if let Some(t) = top[i] {
            if let Some(b) = bottom[i] {
                if b - t > tallest {
                    tallest = b - t;
                }
            }
        }
    }
    let mut columns: Vec<Option<LidColumn>> = Vec::new();
    for i in 0..n
        invariant
            n == e.len(),
            top@.len() == n,
            bottom@.len() == n,
            edge@.len() == n,
            tallest == tallest_of(e, e.len()),
            forall|j: int| 0 <= j < n ==> #[trigger] top@[j] == smoothed(tops(e), j),
            forall|j: int| 0 <= j < n ==> #[trigger] bottom@[j] == smoothed(bottoms(e), j),
            forall|j: int| 0 <= j < n ==> #[trigger] edge@[j] == edge_distance(presence(e), j),
            columns@.len() == i,
            forall|j: int| 0 <= j < i ==> #[trigger] columns@[j] == lid_column(e, j),
    {
        let c: Option<LidColumn> = match top[i] {
            None => None,
            Some(t) => match bottom[i] {
                None => None,
                Some(b) => Some(LidColumn { top: t, bottom: b, tallest, edge: edge[i] }),
            },
        };
        columns.push(c);
    }
    EyeShape { columns, tallest }
}

/// The eye is closing: it has an outline that encloses something, the lids have
/// moved, and some column of it is higher than nothing.
pub open spec fn eye_closes(vertices: int, closing: bool, mask: Option<Mask>) -> bool {
    vertices >= 3 && closing && mask is Some && tallest_of(extents(mask->0), extents(mask->0).len()) > 0
}

/// Do the lids draw over the cell?
pub open spec fn lid_covers(open: Picture, mask: Mask, x: int, y: int) -> bool {
    &&& mask.covers(x, y)
    &&& open.at(x, y).a > FAINT
    &&& lid_column(extents(mask), x - mask.area().x0) matches Some(c) && c.bottom > c.top
}

/// What the lids of eye `k` may make of a cell: a colour that `lid` gives for
/// it, with the alpha of the open eye.
pub open spec fn lid_result<F: Fn(usize, LidColumn, u32, u32, Rgba) -> Rgba>(
    open: Picture,
    mask: Mask,
    lid: F,
    k: int,
    x: int,
    y: int,
    p: Rgba,
) -> bool {
    exists|q: Rgba|
        #![auto]
        {
            &&& call_ensures(
                lid,
                (
                    k as usize,
                    lid_column(extents(mask), x - mask.area().x0)->0,
                    x as u32,
                    y as u32,
                    open.at(x, y),
                ),
                q,
            )
            &&& p == (Rgba { a: open.at(x, y).a, ..q })
        }
}

/// One frame becomes another when eye `k` closes over it.
pub open spec fn warped<F: Fn(usize, LidColumn, u32, u32, Rgba) -> Rgba>(
    before: Picture,
    after: Picture,
    open: Picture,
    vertices: int,
    closing: bool,
    mask: Option<Mask>,
    lid: F,
    k: int,
) -> bool {
    &&& after.wf()
    &&& after.same_size(before)
    &&& !eye_closes(vertices, closing, mask) ==> after == before
    &&& eye_closes(vertices, closing, mask) ==> forall|x: int, y: int|
        before.has(x, y) ==> if lid_covers(open, mask->0, x, y) {
            lid_result(open, mask->0, lid, k, x, y, #[trigger] after.at(x, y))
        } else {
            after.at(x, y) == before.at(x, y)
        }
}

/// Draws the lids of traced eye `k` over `frame`. `lid` colours a pixel of the
/// closing eye from the eye's number, the pixel's column, its place and its
/// look in `open`; the alpha is always that of `open`.
pub fn warp_eye<F: Fn(usize, LidColumn, u32, u32, Rgba) -> Rgba>(
    frame: &mut RgbaImage,
    open: &RgbaImage,
    vertices: usize,
    closing: bool,
    mask: Option<&Mask>,
    lid: &F,
    k: usize,
)
    requires
        old(frame)@.wf(),
        open@.wf(),
        mask matches Some(m) ==> {
            &&& m.wf()
            &&& m.fits(open@.width, open@.height)
            &&& vertices >= 3 && closing ==> forall|x: int, y: int|
                #[trigger] lid_covers(open@, *m, x, y) ==> old(frame)@.has(x, y)
        },
        forall|n: usize, c: LidColumn, x: u32, y: u32, p: Rgba|
            call_requires(*lid, (n, c, x, y, p)),
    ensures
        warped(
            old(frame)@,
            final(frame)@,
            open@,
            vertices as int,
            closing,
            match mask {
                Some(m) => Some(*m),
                None => None,
            },
            *lid,
            k as int,
        ),
{
    if vertices < 3 || !closing {
        return;
    }
    let mask = match mask {
        None => {
            return;
        },
        Some(m) => m,
    };
    let shape = eye_shape(mask);
    if shape.tallest == 0 {
        return;
    }
    let ghost before = frame@;
    let b = mask.bounds();
    proof {
        mask.lemma_area(0, 0);
    }
    let mut x: u32 = b.x0;
    while x <= b.x1
        invariant
            b == mask.area(),
            b.wf(),
            mask.wf(),
            mask.fits(open@.width, open@.height),
            open@.wf(),
            before.wf(),
            frame@.wf(),
            frame@.same_size(before),
            forall|i: int, j: int| #[trigger] lid_covers(open@, *mask, i, j) ==> before.has(i, j),
            forall|n: usize, c: LidColumn, i: u32, j: u32, p: Rgba|
                call_requires(*lid, (n, c, i, j, p)),
            shape.columns@.len() == b.x1 - b.x0 + 1,
            forall|i: int|
                0 <= i < shape.columns@.len() ==> #[trigger] shape.columns@[i] == lid_column(
                    extents(*mask),
                    i,
                ),
            b.x0 <= x <= b.x1 + 1,
            forall|i: int, j: int|
                before.has(i, j) ==> if lid_covers(open@, *mask, i, j) && i < x {
                    lid_result(open@, *mask, *lid, k as int, i, j, #[trigger] frame@.at(i, j))
                } else {
                    frame@.at(i, j) == before.at(i, j)
                },
        decreases b.x1 + 1 - x,
    {
        let c = shape.columns[(x - b.x0) as usize];
        if let Some(col) = c {
            if col.bottom > col.top {
                warp_column(frame, open, mask, x, col, lid, k);
            }
        }
        x = x + 1;
    }
}

/// Draws the lids over column `x`.
fn warp_column<F: Fn(usize, LidColumn, u32, u32, Rgba) -> Rgba>(
    frame: &mut RgbaImage,
    open: &RgbaImage,
    mask: &Mask,
    x: u32,
    col: LidColumn,
    lid: &F,
    k: usize,
)
    requires
        old(frame)@.wf(),
        open@.wf(),
        mask.wf(),
        mask.fits(open@.width, open@.height),
        mask.area().x0 <= x <= mask.area().x1,
        lid_column(extents(*mask), x - mask.area().x0) == Some(col),
        col.bottom > col.top,
        forall|i: int, j: int| #[trigger] lid_covers(open@, *mask, i, j) ==> old(frame)@.has(i, j),
        forall|n: usize, c: LidColumn, i: u32, j: u32, p: Rgba|
                call_requires(*lid, (n, c, i, j, p)),
    ensures
        final(frame)@.wf(),
        final(frame)@.same_size(old(frame)@),
        forall|i: int, j: int|
            old(frame)@.has(i, j) ==> if lid_covers(open@, *mask, i, j) && i == x {
                lid_result(open@, *mask, *lid, k as int, i, j, #[trigger] final(frame)@.at(i, j))
            } else {
                final(frame)@.at(i, j) == old(frame)@.at(i, j)
            },
{
    let ghost before = frame@;
    let b = mask.bounds();
    proof {
        mask.lemma_area(0, 0);
    }
    let mut y: u32 = b.y0;
    while y <= b.y1
        invariant
            b == mask.area(),
            b.wf(),
            mask.wf(),
            mask.fits(open@.width, open@.height),
            b.x0 <= x <= b.x1,
            open@.wf(),
            before.wf(),
            frame@.wf(),
            frame@.same_size(before),
            lid_column(extents(*mask), x - b.x0) == Some(col),
            col.bottom > col.top,
            forall|i: int, j: int| #[trigger] lid_covers(open@, *mask, i, j) ==> before.has(i, j),
            forall|n: usize, c: LidColumn, i: u32, j: u32, p: Rgba|
                call_requires(*lid, (n, c, i, j, p)),
            b.y0 <= y <= b.y1 + 1,
            forall|i: int, j: int|
                before.has(i, j) ==> if lid_covers(open@, *mask, i, j) && i == x && j < y {
                    lid_result(open@, *mask, *lid, k as int, i, j, #[trigger] frame@.at(i, j))
                } else {
                    frame@.at(i, j) == before.at(i, j)
                },
        decreases b.y1 + 1 - y,
    {
        let orig = open.get_pixel(x, y);
        let ghost prev = frame@;
        if orig.a > FAINT && mask.contains(x, y) {
            assert(lid_covers(open@, *mask, x as int, y as int));
            let q = lid(k, col, x, y, orig);
            let p = Rgba::new(q.r, q.g, q.b, orig.a);
            assert(p == (Rgba { a: orig.a, ..q }));
            assert(lid_result(open@, *mask, *lid, k as int, x as int, y as int, p));
            frame.put_pixel(x, y, p);
            assert forall|i: int, j: int| before.has(i, j) implies #[trigger] frame@.at(i, j) == (if i
                == x && j == y {
                p
            } else {
                prev.at(i, j)
            }) by {
                lemma_set_at(prev, x as int, y as int, p, i, j);
            }
        }
        y = y + 1;
    }
}

/// Closing an eye keeps every pixel's alpha, where the frame's alpha was that
/// of the open picture.
pub proof fn lemma_warp_keeps_alpha<F: Fn(usize, LidColumn, u32, u32, Rgba) -> Rgba>(
    before: Picture,
    after: Picture,
    open: Picture,
    vertices: int,
    closing: bool,
    mask: Option<Mask>,
    lid: F,
    k: int,
    x: int,
    y: int,
)
    requires
        warped(before, after, open, vertices, closing, mask, lid, k),
        before.has(x, y),
        before.at(x, y).a == open.at(x, y).a,
    ensures
        after.at(x, y).a == before.at(x, y).a,
{
    if eye_closes(vertices, closing, mask) && lid_covers(open, mask->0, x, y) {
        assert(lid_result(open, mask->0, lid, k, x, y, after.at(x, y)));
    } else if eye_closes(vertices, closing, mask) {
        assert(after.at(x, y) == before.at(x, y));
    }
}

/// Closing an eye leaves every pixel outside the eye's box as it was.
pub proof fn lemma_warp_stays_in_box<F: Fn(usize, LidColumn, u32, u32, Rgba) -> Rgba>(
    before: Picture,
    after: Picture,
    open: Picture,
    vertices: int,
    closing: bool,
    mask: Mask,
    lid: F,
    k: int,
    x: int,
    y: int,
)
    requires
        mask.wf(),
        warped(before, after, open, vertices, closing, Some(mask), lid, k),
        before.has(x, y),
        !mask.area().has(x, y),
    ensures
        after.at(x, y) == before.at(x, y),
{
    mask.lemma_area(x, y);
    assert(!lid_covers(open, mask, x, y));
    if eye_closes(vertices, closing, Some(mask)) {
        assert(after.at(x, y) == before.at(x, y));
    }
}

/// How far the eyes are shut: the blinks are stamped one after another onto an
/// open eye, and `stamp` says what a blink adds to those before it.
pub fn closeness_at<T: Copy, S: Copy, F: Fn(T, S) -> T>(starts: &Vec<S>, open: T, stamp: &F) -> (r: T)
    requires
        forall|a: T, s: S| call_requires(*stamp, (a, s)),
    ensures
        folds(*stamp, open, starts@, r),
{
    assert(starts@.subrange(0, starts@.len() as int) =~= starts@);
    fold_range(starts, 0, starts.len(), open, stamp)
}

/// `greater` joins degrees of shutting as a maximum does: in whatever order, any
/// number of times, and an open eye adds nothing. `valid` are the degrees that
/// occur.
pub open spec fn joins<T>(
    greater: spec_fn(T, T) -> T,
    open: T,
    valid: spec_fn(T) -> bool,
) -> bool {
    &&& valid(open)
    &&& forall|a: T, b: T| valid(a) && valid(b) ==> valid(#[trigger] greater(a, b))
    &&& forall|a: T, b: T| valid(a) && valid(b) ==> #[trigger] greater(a, b) == greater(b, a)
    &&& forall|a: T| valid(a) ==> #[trigger] greater(a, a) == a
    &&& forall|a: T| valid(a) ==> #[trigger] greater(open, a) == a
    &&& forall|a: T, b: T, c: T|
        valid(a) && valid(b) && valid(c) ==> #[trigger] greater(greater(a, b), c) == greater(
            a,
            greater(b, c),
        )
}

/// A blink that starts at `s` is stamped by joining its own degree to those
/// before it.
pub open spec fn stamps_by<T, S, F: Fn(T, S) -> T>(
    stamp: F,
    curve: spec_fn(S) -> T,
    greater: spec_fn(T, T) -> T,
    valid: spec_fn(T) -> bool,
) -> bool {
    &&& forall|s: S| valid(#[trigger] curve(s))
    &&& forall|a: T, s: S, r: T|
        #[trigger] call_ensures(stamp, (a, s), r) ==> r == greater(a, curve(s))
}

/// The degree that the blinks come to together.
pub open spec fn together<T, S>(
    starts: Seq<S>,
    open: T,
    curve: spec_fn(S) -> T,
    greater: spec_fn(T, T) -> T,
) -> T
    decreases starts.len(),
{
    if starts.len() == 0 {
        open
    } else {
        greater(together(starts.drop_last(), open, curve, greater), curve(starts.last()))
    }
}

proof fn lemma_together<T, S, F: Fn(T, S) -> T>(
    stamp: F,
    init: T,
    starts: Seq<S>,
    out: T,
    open: T,
    curve: spec_fn(S) -> T,
    greater: spec_fn(T, T) -> T,
    valid: spec_fn(T) -> bool,
)
    requires
        joins(greater, open, valid),
        stamps_by(stamp, curve, greater, valid),
        valid(init),
        folds(stamp, init, starts, out),
    ensures
        valid(together(starts, open, curve, greater)),
        out == greater(init, together(starts, open, curve, greater)),
    decreases starts.len(),
{
    if starts.len() == 0 {
        let way = choose|way: Seq<T>| folds_by(stamp, init, starts, way, out);
        assert(greater(init, open) == greater(open, init));
    } else {
        let rest = starts.drop_last();
        let s = starts.last();
        assert(rest + seq![s] =~= starts);
        let mid = lemma_fold_split(stamp, init, rest, seq![s], out);
        lemma_fold_few(stamp, mid, s, out);
        lemma_together(stamp, init, rest, mid, open, curve, greater, valid);
        let t = together(rest, open, curve, greater);
        assert(valid(curve(s)));
        assert(greater(greater(init, t), curve(s)) == greater(init, greater(t, curve(s))));
    }
}

/// Blinks that overlap combine by their maximum: two lists of blinks come to the
/// greater of what each comes to, whichever stands first; a list given twice comes
/// to what it comes to once; one blink comes to its own degree, and none to an
/// open eye.
pub proof fn lemma_blinks_combine<T, S, F: Fn(T, S) -> T>(
    stamp: F,
    open: T,
    curve: spec_fn(S) -> T,
    greater: spec_fn(T, T) -> T,
    valid: spec_fn(T) -> bool,
    a: Seq<S>,
    b: Seq<S>,
    ca: T,
    cb: T,
)
    requires
        joins(greater, open, valid),
        stamps_by(stamp, curve, greater, valid),
        folds(stamp, open, a, ca),
        folds(stamp, open, b, cb),
    ensures
        forall|r: T| #[trigger] folds(stamp, open, a + b, r) ==> r == greater(ca, cb),
        forall|r: T| #[trigger] folds(stamp, open, b + a, r) ==> r == greater(ca, cb),
        forall|r: T| #[trigger] folds(stamp, open, a + a, r) ==> r == ca,
        forall|s: S, r: T| #[trigger] folds(stamp, open, seq![s], r) ==> r == curve(s),
        forall|r: T| #[trigger] folds(stamp, open, Seq::<S>::empty(), r) ==> r == open,
{
    lemma_together(stamp, open, a, ca, open, curve, greater, valid);
    lemma_together(stamp, open, b, cb, open, curve, greater, valid);
    assert forall|r: T| #[trigger] folds(stamp, open, a + b, r) implies r == greater(ca, cb) by {
        let mid = lemma_fold_split(stamp, open, a, b, r);
        lemma_together(stamp, open, a, mid, open, curve, greater, valid);
        lemma_together(stamp, mid, b, r, open, curve, greater, valid);
    }
    assert forall|r: T| #[trigger] folds(stamp, open, b + a, r) implies r == greater(ca, cb) by {
        let mid = lemma_fold_split(stamp, open, b, a, r);
        lemma_together(stamp, open, b, mid, open, curve, greater, valid);
        lemma_together(stamp, mid, a, r, open, curve, greater, valid);
        assert(greater(ca, cb) == greater(cb, ca));
    }
    assert forall|r: T| #[trigger] folds(stamp, open, a + a, r) implies r == ca by {
        let mid = lemma_fold_split(stamp, open, a, a, r);
        lemma_together(stamp, open, a, mid, open, curve, greater, valid);
        lemma_together(stamp, mid, a, r, open, curve, greater, valid);
        assert(greater(ca, ca) == ca);
    }
    assert forall|s: S, r: T| #[trigger] folds(stamp, open, seq![s], r) implies r == curve(s) by {
        lemma_fold_few(stamp, open, s, r);
        assert(greater(open, curve(s)) == curve(s));
    }
    assert forall|r: T| #[trigger] folds(stamp, open, Seq::<S>::empty(), r) implies r == open by {
        let way = choose|way: Seq<T>| folds_by(stamp, open, Seq::<S>::empty(), way, r);
    }
}

/// The lid of an eye over a column: `top` and `bottom` are four times the first and
/// the last row that the outline covers there, each averaged with the two columns
/// beside it, twice its own weight; where a column beside it is empty, its own alone
/// counts, and at the ends of the outline's box it stands for the one that is
/// missing.
pub proof fn lemma_lid_follows_outline(
    mask: Mask,
    x: int,
    left: (u32, u32),
    own: (u32, u32),
    right: (u32, u32),
)
    requires
        mask.wf(),
        mask.area().x0 <= x <= mask.area().x1,
        mask.covers(x, own.0 as int) && mask.covers(x, own.1 as int),
        forall|y: int| #[trigger] mask.covers(x, y) ==> own.0 <= y <= own.1,
    ensures
        ({
            let c = lid_column(extents(mask), x - mask.area().x0);
            let has_left = mask.covers(x - 1, left.0 as int) && mask.covers(x - 1, left.1 as int) && (
            forall|y: int| #[trigger] mask.covers(x - 1, y) ==> left.0 <= y <= left.1);
            let has_right = mask.covers(x + 1, right.0 as int) && mask.covers(x + 1, right.1 as int)
                && (forall|y: int| #[trigger] mask.covers(x + 1, y) ==> right.0 <= y <= right.1);
            let no_left = forall|y: int| !#[trigger] mask.covers(x - 1, y);
            let no_right = forall|y: int| !#[trigger] mask.covers(x + 1, y);
            let first = x == mask.area().x0;
            let last = x == mask.area().x1;
            &&& c is Some
            &&& !first && !last && has_left && has_right ==> c->0.top == left.0 + 2 * own.0 + right.0
                && c->0.bottom == left.1 + 2 * own.1 + right.1
            &&& first && !last && has_right ==> c->0.top == 3 * own.0 + right.0 && c->0.bottom == 3
                * own.1 + right.1
            &&& !first && last && has_left ==> c->0.top == left.0 + 3 * own.0 && c->0.bottom == left.1
                + 3 * own.1
            &&& first && last || !first && no_left || !last && no_right ==> c->0.top == 4 * own.0
                && c->0.bottom == 4 * own.1
        }),
{
    let e = extents(mask);
    let i = x - mask.area().x0;
    lemma_extent(mask, x);
    lemma_extent_unique(mask, x, extent(mask, x), Some(own));
    assert(tops(e)[i] == Some(own.0) && bottoms(e)[i] == Some(own.1));
    if i > 0 {
        lemma_extent(mask, x - 1);
        assert(e[i - 1] == extent(mask, x - 1));
        assert(tops(e)[i - 1] is Some <==> e[i - 1] is Some);
        assert(bottoms(e)[i - 1] is Some <==> e[i - 1] is Some);
        if is_extent(mask, x - 1, Some(left)) {
            lemma_extent_unique(mask, x - 1, extent(mask, x - 1), Some(left));
        }
    }
    if i + 1 < e.len() {
        lemma_extent(mask, x + 1);
        assert(e[i + 1] == extent(mask, x + 1));
        assert(tops(e)[i + 1] is Some <==> e[i + 1] is Some);
        assert(bottoms(e)[i + 1] is Some <==> e[i + 1] is Some);
        if is_extent(mask, x + 1, Some(right)) {
            lemma_extent_unique(mask, x + 1, extent(mask, x + 1), Some(right));
        }
    }
}

/// A column that the outline does not cover has no lid.
pub proof fn lemma_no_lid_outside(mask: Mask, x: int)
    requires
        mask.wf(),
        mask.area().x0 <= x <= mask.area().x1,
        forall|y: int| !#[trigger] mask.covers(x, y),
    ensures
        lid_column(extents(mask), x - mask.area().x0) is None,
{
    lemma_extent(mask, x);
    lemma_extent_unique(mask, x, extent(mask, x), None);
    assert(tops(extents(mask))[x - mask.area().x0] is None);
}

proof fn lemma_run_before_is_full(present: Seq<bool>, i: int)
    requires
        -1 <= i < present.len(),
    ensures
        run_before(present, i) <= i + 1,
        forall|j: int| i - run_before(present, i) < j <= i ==> #[trigger] present[j],
        run_before(present, i) <= i ==> !present[i - run_before(present, i)],
    decreases i + 1,
{
    if i >= 0 && present[i] {
        lemma_run_before_is_full(present, i - 1);
    }
}

proof fn lemma_run_after_is_full(present: Seq<bool>, i: int)
    requires
        0 <= i <= present.len(),
    ensures
        run_after(present, i) <= present.len() - i,
        forall|j: int| i <= j < i + run_after(present, i) ==> #[trigger] present[j],
        run_after(present, i) < present.len() - i ==> !present[i + run_after(present, i)],
    decreases present.len() - i,
{
    if i < present.len() && present[i] {
        lemma_run_after_is_full(present, i + 1);
    }
}

/// A column's distance from the edge is how many columns further the nearest empty
/// column lies, on either side, where beyond both ends all are empty.
pub proof fn lemma_edge_is_nearest(present: Seq<bool>, i: int)
    requires
        0 <= i < present.len(),
    ensures
        ({
            let d = edge_distance(present, i) as int;
            &&& forall|j: int|
                i - d < j < i + d ==> 0 <= j < present.len() && #[trigger] present[j]
            &&& !(0 <= i - d && present[i - d]) || !(i + d < present.len() && present[i + d])
            &&& d == 0 <==> !present[i]
        }),
{
    lemma_run_before_is_full(present, i);
    lemma_run_after_is_full(present, i);
    let d = edge_distance(present, i) as int;
    assert forall|j: int| i - d < j < i + d implies 0 <= j < present.len() && #[trigger] present[j] by {
        if j <= i {
            assert(present[j]);
        } else {
            assert(present[j]);
        }
    }
}

proof fn lemma_tallest_bounds(e: Seq<Option<(u32, u32)>>, n: nat)
    ensures
        tallest_of(e, n) >= 0,
        forall|i: int| 0 <= i < n ==> #[trigger] height_of(e, i) <= tallest_of(e, n),
        tallest_of(e, n) > 0 ==> exists|i: int|
            0 <= i < n && #[trigger] height_of(e, i) == tallest_of(e, n),
    decreases n,
{
    if n > 0 {
        lemma_tallest_bounds(e, (n - 1) as nat);
        if height_of(e, n - 1) <= tallest_of(e, (n - 1) as nat) && tallest_of(e, n) > 0 {
            let i = choose|i: int|
                0 <= i < n - 1 && #[trigger] height_of(e, i) == tallest_of(e, (n - 1) as nat);
            assert(height_of(e, i) == tallest_of(e, n));
        }
    }
}

/// Does the outline cover a cell of the column?
pub open spec fn shows_in(mask: Mask, x: int) -> bool {
    exists|y: int| #[trigger] mask.covers(x, y)
}

/// Every column's lid knows how tall the eye is: no column is taller, and where the
/// eye is open at all one is as tall. It also knows how far the edge of the outline
/// is: that many columns on, to one side or the other, there is nothing covered, and
/// nowhere nearer.
pub proof fn lemma_lid_knows_its_eye(mask: Mask, x: int)
    requires
        mask.wf(),
        mask.area().x0 <= x <= mask.area().x1,
        lid_column(extents(mask), x - mask.area().x0) is Some,
    ensures
        ({
            let x0 = mask.area().x0 as int;
            let e = extents(mask);
            let c = lid_column(e, x - x0)->0;
            &&& forall|i: int|
                0 <= i < e.len() ==> ((#[trigger] lid_column(e, i)) matches Some(o) ==> o.bottom
                    - o.top <= c.tallest && o.tallest == c.tallest)
            &&& c.tallest > 0 ==> exists|i: int|
                0 <= i < e.len() && ((#[trigger] lid_column(e, i)) matches Some(o) && o.bottom - o.top
                    == c.tallest)
            &&& c.edge >= 1
            &&& forall|j: int|
                x - c.edge < j < x + c.edge ==> x0 <= j <= mask.area().x1 && #[trigger] shows_in(
                    mask,
                    j,
                )
            &&& !shows_in(mask, x - c.edge) || !shows_in(mask, x + c.edge)
        }),
{
    let x0 = mask.area().x0 as int;
    let e = extents(mask);
    let i = x - x0;
    let c = lid_column(e, i)->0;
    lemma_tallest_bounds(e, e.len());
    assert forall|k: int| 0 <= k < e.len() implies {
        &&& (#[trigger] lid_column(e, k)) matches Some(o) ==> height_of(e, k) == o.bottom - o.top
        &&& lid_column(e, k) is None ==> height_of(e, k) == 0
    } by {}
    assert forall|k: int| 0 <= k < e.len() implies -4294967296 * 4 < #[trigger] height_of(e, k)
        < 4294967296 * 4 by {
        lemma_height_bounds(mask, k);
    }
    let t = tallest_of(e, e.len());
    if t > 0 {
        let k = choose|k: int| 0 <= k < e.len() && #[trigger] height_of(e, k) == t;
        lemma_height_bounds(mask, k);
        assert(lid_column(e, k) is Some);
    }
    assert(c.tallest == t);
    let present = presence(e);
    lemma_edge_is_nearest(present, i);
    lemma_run_before_is_full(present, i);
    lemma_run_after_is_full(present, i);
    let d = edge_distance(present, i) as int;
    assert(2 * d <= e.len() + 1);
    assert(c.edge == d);
    assert(tops(e)[i] is Some);
    assert(present[i]);
    assert forall|j: int| x - d < j < x + d implies x0 <= j <= mask.area().x1 && #[trigger] shows_in(
        mask,
        j,
    ) by {
        assert(present[j - x0]);
        lemma_extent(mask, j);
        assert(e[j - x0] is Some);
        assert(mask.covers(j, (extent(mask, j)->0).0 as int));
    }
    assert forall|j: int| (x0 <= j <= mask.area().x1 && !present[j - x0]) || j < x0 || j
        > mask.area().x1 implies !#[trigger] shows_in(mask, j) by {
        if x0 <= j <= mask.area().x1 {
            lemma_extent(mask, j);
            assert(e[j - x0] is None);
        }
    }
}

/// A closing lid colours each cell that its own outline covers, where the picture
/// with open eyes is more than faintly opaque and the lid has a height: with what
/// `lid` gives for the cell, the alpha aside. An eye of fewer than three points, one
/// without an outline, and lids that have not moved leave the picture alone, and so
/// does every lid elsewhere.
pub proof fn lemma_lid_cell<F: Fn(usize, LidColumn, u32, u32, Rgba) -> Rgba>(
    before: Picture,
    after: Picture,
    open: Picture,
    vertices: int,
    closing: bool,
    mask: Option<Mask>,
    lid: F,
    k: int,
    x: int,
    y: int,
)
    requires
        warped(before, after, open, vertices, closing, mask, lid, k),
        mask matches Some(m) ==> m.wf(),
        before.has(x, y),
    ensures
        after.same_size(before),
        vertices < 3 || !closing || mask is None ==> after == before,
        mask matches Some(m) ==> ({
            let c = lid_column(extents(m), x - m.area().x0);
            if vertices >= 3 && closing && m.covers(x, y) && open.at(x, y).a > 8 && (c matches Some(
                col,
            ) && col.top < col.bottom) {
                exists|q: Rgba|
                    {
                        &&& #[trigger] call_ensures(
                            lid,
                            (k as usize, c->0, x as u32, y as u32, open.at(x, y)),
                            q,
                        )
                        &&& after.at(x, y) == (Rgba { r: q.r, g: q.g, b: q.b, a: open.at(x, y).a })
                    }
            } else {
                after.at(x, y) == before.at(x, y)
            }
        }),
{
    if mask is Some {
        let m = mask->0;
        let e = extents(m);
        let i = x - m.area().x0;
        lemma_tallest_bounds(e, e.len());
        if lid_covers(open, m, x, y) {
            let c = lid_column(e, i)->0;
            assert(height_of(e, i) == c.bottom - c.top);
            assert(0 <= i < e.len());
            assert(tallest_of(e, e.len()) > 0);
        }
        if eye_closes(vertices, closing, mask) {
            assert(after.at(x, y) == after.at(x, y));
            if lid_covers(open, m, x, y) {
                assert(lid_result(open, m, lid, k, x, y, after.at(x, y)));
            }
        }
    }
}

} // verus!
