//! Background removal: the two most common colours along a picture's border
//! are taken for its background and made transparent.

use std::collections::HashMap;
use vstd::prelude::*;

use crate::canvas::{Picture, Rgba, RgbaImage};

verus! {

broadcast use vstd::std_specs::hash::group_hash_axioms;

/// A pixel's colour, as an opaque pixel.
pub open spec fn tint(p: Rgba) -> Rgba {
    Rgba { a: 255, ..p }
}

/// The cells of row `y`, from left to right.
pub open spec fn row_cells(w: int, y: int) -> Seq<(int, int)> {
    Seq::new(w as nat, |x: int| (x, y))
}

/// The cells of column `x` between the first and the last row, from the top
/// down.
pub open spec fn column_cells(h: int, x: int) -> Seq<(int, int)> {
    Seq::new(if h > 2 {
        (h - 2) as nat
    } else {
        0
    }, |k: int| (x, k + 1))
}

/// The cells along the border, each once, in the order in which they are looked
/// at: the first row, the last one, and what is left of the first and of the
/// last column.
pub open spec fn border_cells(w: int, h: int) -> Seq<(int, int)> {
    let last_row = if h > 1 {
        row_cells(w, h - 1)
    } else {
        Seq::empty()
    };
    let last_column = if w > 1 {
        column_cells(h, w - 1)
    } else {
        Seq::empty()
    };
    row_cells(w, 0) + last_row + column_cells(h, 0) + last_column
}

/// The colours of some cells.
pub open spec fn tints(pic: Picture, cells: Seq<(int, int)>) -> Seq<Rgba> {
    cells.map_values(|c: (int, int)| tint(pic.at(c.0, c.1)))
}

/// The colours along the border.
pub open spec fn border(pic: Picture) -> Seq<Rgba> {
    tints(pic, border_cells(pic.width as int, pic.height as int))
}

/// Does the cell lie on the border?
pub open spec fn on_border(w: int, h: int, c: (int, int)) -> bool {
    &&& 0 <= c.0 < w
    &&& 0 <= c.1 < h
    &&& c.0 == 0 || c.1 == 0 || c.0 == w - 1 || c.1 == h - 1
}

/// Every cell along the border is looked at exactly once, and no other.
pub proof fn lemma_border_once(w: int, h: int)
    requires
        w > 0,
        h > 0,
    ensures
        border_cells(w, h).no_duplicates(),
        forall|c: (int, int)| #[trigger] border_cells(w, h).contains(c) <==> on_border(w, h, c),
{
    let cells = border_cells(w, h);
    let first = w;
    let second = first + if h > 1 {
        w
    } else {
        0
    };
    let third = second + if h > 2 {
        h - 2
    } else {
        0
    };
    assert forall|c: (int, int)| on_border(w, h, c) implies #[trigger] cells.contains(c) by {
        let i = if c.1 == 0 {
            c.0
        } else if c.1 == h - 1 {
            first + c.0
        } else if c.0 == 0 {
            second + c.1 - 1
        } else {
            third + c.1 - 1
        };
        assert(cells[i] == c);
    }
}

/// How often `c` occurs in `s`.
pub open spec fn times(s: Seq<Rgba>, c: Rgba) -> nat
    decreases s.len(),
{
    if s.len() == 0 {
        0
    } else {
        times(s.drop_last(), c) + if s.last() == c {
            1nat
        } else {
            0nat
        }
    }
}

/// `a` comes before `b` among the colours of `s`: it occurs more often, or as
/// often and first.
pub open spec fn outranks(s: Seq<Rgba>, a: Rgba, b: Rgba) -> bool {
    ||| times(s, a) > times(s, b)
    ||| times(s, a) == times(s, b) && s.index_of_first(a)->0 < s.index_of_first(b)->0
}

/// `colors` are the two colours that come first among those of `s`; all of
/// them, where there are fewer than two.
pub open spec fn is_top_two(s: Seq<Rgba>, colors: Seq<Rgba>) -> bool {
    &&& colors.len() <= 2
    &&& forall|i: int| 0 <= i < colors.len() ==> s.contains(#[trigger] colors[i])
    &&& forall|c: Rgba|
        #[trigger] s.contains(c) ==> {
            ||| colors.len() > 0 && colors[0] == c
            ||| colors.len() > 1 && colors[1] == c
            ||| colors.len() == 2
        }
    &&& colors.len() > 0 ==> forall|c: Rgba|
        #[trigger] s.contains(c) && c != colors[0] ==> outranks(s, colors[0], c)
    &&& colors.len() > 1 ==> colors[0] != colors[1] && forall|c: Rgba|
        #[trigger] s.contains(c) && c != colors[0] && c != colors[1] ==> outranks(s, colors[1], c)
}

/// The square of the distance between two colours.
pub open spec fn distance2(p: Rgba, q: Rgba) -> int {
    (p.r - q.r) * (p.r - q.r) + (p.g - q.g) * (p.g - q.g) + (p.b - q.b) * (p.b - q.b)
}

/// Is the pixel no further from one of the colours than the limit allows?
pub open spec fn is_near(p: Rgba, colors: Seq<Rgba>, limit2: Option<u32>) -> bool {
    limit2 matches Some(m) && exists|i: int|
        0 <= i < colors.len() && distance2(p, #[trigger] colors[i]) <= m
}

/// A pixel after background removal.
pub open spec fn cleared(p: Rgba, colors: Seq<Rgba>, limit2: Option<u32>) -> Rgba {
    if is_near(p, colors, limit2) {
        Rgba { a: 0, ..p }
    } else {
        p
    }
}

/// The picture after background removal.
pub open spec fn cleared_picture(pic: Picture, colors: Seq<Rgba>, limit2: Option<u32>) -> Picture {
    Picture {
        width: pic.width,
        height: pic.height,
        px: pic.px.map_values(|p: Rgba| cleared(p, colors, limit2)),
    }
}

/// How many of the pixels are near one of the colours.
pub open spec fn near_count(px: Seq<Rgba>, colors: Seq<Rgba>, limit2: Option<u32>) -> nat
    decreases px.len(),
{
    if px.len() == 0 {
        0
    } else {
        near_count(px.drop_last(), colors, limit2) + if is_near(px.last(), colors, limit2) {
            1nat
        } else {
            0nat
        }
    }
}

/// A colour as one number.
pub open spec fn code(p: Rgba) -> int {
    p.r * 65536 + p.g * 256 + p.b
}

fn code_of(p: Rgba) -> (r: u32)
    ensures
        r == code(p),
{
    (p.r as u32) * 65536 + (p.g as u32) * 256 + p.b as u32
}

proof fn lemma_code(p: Rgba, q: Rgba)
    ensures
        (code(p) == code(q)) == (tint(p) == tint(q)),
{
    lemma_code_parts(p);
    lemma_code_parts(q);
}

proof fn lemma_code_parts(p: Rgba)
    ensures
        code(p) / 65536 == p.r,
        (code(p) / 256) % 256 == p.g,
        code(p) % 256 == p.b,
{
    let c = code(p);
    assert(c / 65536 == p.r);
    assert(c / 256 == p.r * 256 + p.g);
}

/// The colours seen so far, in the order in which they were first seen, and how
/// often each was.
struct Tally {
    seen: Vec<Rgba>,
    counts: HashMap<u32, u64>,
}

impl Tally {
    spec fn of(self, s: Seq<Rgba>) -> bool {
        &&& forall|i: int|
            0 <= i < self.seen@.len() ==> {
                &&& (#[trigger] self.seen@[i]).a == 255
                &&& s.contains(self.seen@[i])
                &&& self.counts@.contains_key(code(self.seen@[i]) as u32)
                &&& self.counts@[code(self.seen@[i]) as u32] == times(s, self.seen@[i])
            }
        &&& forall|c: Rgba| #[trigger] s.contains(c) ==> self.seen@.contains(c)
        &&& forall|i: int, j: int|
            0 <= i < j < self.seen@.len() ==> s.index_of_first(#[trigger] self.seen@[i])->0
                < s.index_of_first(#[trigger] self.seen@[j])->0
        &&& forall|k: u32|
            #[trigger] self.counts@.contains_key(k) ==> exists|i: int|
                0 <= i < self.seen@.len() && code(#[trigger] self.seen@[i]) == k
    }

    fn new() -> (r: Tally)
        ensures
            r.of(Seq::empty()),
    {
        Tally { seen: Vec::new(), counts: HashMap::new() }
    }
}

/// What one more colour does to the counts.
proof fn lemma_times_push(s: Seq<Rgba>, d: Rgba, c: Rgba)
    ensures
        times(s.push(d), c) == times(s, c) + if d == c {
            1nat
        } else {
            0nat
        },
{
    assert(s.push(d).drop_last() =~= s);
}

proof fn lemma_times_bound(s: Seq<Rgba>, c: Rgba)
    ensures
        times(s, c) <= s.len(),
        times(s, c) > 0 <==> s.contains(c),
    decreases s.len(),
{
    if s.len() > 0 {
        lemma_times_bound(s.drop_last(), c);
        if s.last() == c {
            assert(s[s.len() - 1] == c);
        }
        if s.drop_last().contains(c) {
            let i = choose|i: int| 0 <= i < s.drop_last().len() && s.drop_last()[i] == c;
            assert(s[i] == c);
        }
        if s.contains(c) && s.last() != c {
            let i = choose|i: int| 0 <= i < s.len() && s[i] == c;
            assert(s.drop_last()[i] == c);
        }
    }
}

/// Where a colour first occurs.
proof fn lemma_first(s: Seq<Rgba>, c: Rgba)
    requires
        s.contains(c),
    ensures
        s.index_of_first(c) is Some,
        0 <= s.index_of_first(c)->0 < s.len(),
        s[s.index_of_first(c)->0] == c,
        forall|j: int| 0 <= j < s.index_of_first(c)->0 ==> s[j] != c,
{
    s.index_of_first_ensures(c);
}

/// A further colour does not move the first occurrence of an earlier one.
proof fn lemma_first_push(s: Seq<Rgba>, d: Rgba, c: Rgba)
    ensures
        s.contains(c) ==> s.push(d).index_of_first(c) == s.index_of_first(c),
        !s.contains(c) && c == d ==> s.push(d).index_of_first(c) == Some(s.len() as int),
        s.push(d).contains(c) <==> s.contains(c) || c == d,
{
    let t = s.push(d);
    if s.contains(c) {
        let i = choose|i: int| 0 <= i < s.len() && s[i] == c;
        assert(t[i] == c);
        lemma_first(s, c);
        lemma_first(t, c);
        let a = s.index_of_first(c)->0;
        let b = t.index_of_first(c)->0;
        assert(t[a] == c);
        if b < a {
            assert(s[b] == c);
        }
    }
    if c == d {
        assert(t[s.len() as int] == c);
        if !s.contains(c) {
            lemma_first(t, c);
            let b = t.index_of_first(c)->0;
            if b < s.len() {
                assert(s[b] == c);
            }
        }
    }
    if t.contains(c) {
        let i = choose|i: int| 0 <= i < t.len() && t[i] == c;
        if i < s.len() {
            assert(s[i] == c);
        }
    }
}

/// What one more colour does to counts, occurrence and first occurrence.
proof fn lemma_push(s: Seq<Rgba>, c: Rgba, d: Rgba)
    ensures
        times(s.push(c), d) == times(s, d) + if d == c {
            1nat
        } else {
            0nat
        },
        s.contains(d) ==> s.push(c).index_of_first(d) == s.index_of_first(d),
        !s.contains(d) && c == d ==> s.push(c).index_of_first(d) == Some(s.len() as int),
        s.push(c).contains(d) <==> s.contains(d) || c == d,
{
    lemma_times_push(s, c, d);
    lemma_first_push(s, c, d);
}

impl Tally {
    fn count(&mut self, p: Rgba, Ghost(s): Ghost<Seq<Rgba>>)
        requires
            old(self).of(s),
            s.len() < u64::MAX,
        ensures
            final(self).of(s.push(tint(p))),
    {
        let c = Rgba::new(p.r, p.g, p.b, 255);
        let k: u32 = code_of(c);
        let ghost t = s.push(c);
        let ghost before = *self;
        proof {
            assert(c == tint(p));
            lemma_times_bound(s, c);
        }
        let found: Option<u64> = match self.counts.get(&k) {
            Some(n) => Some(*n),
            None => None,
        };
        match found {
            Some(n) => {
                proof {
                    let i = choose|i: int|
                        0 <= i < self.seen@.len() && code(#[trigger] self.seen@[i]) == k;
                    lemma_code(self.seen@[i], c);
                    assert(self.seen@[i] == c);
                    assert(s.contains(c));
                }
                self.counts.insert(k, n + 1);
                proof {
                    assert forall|i: int| 0 <= i < self.seen@.len() implies {
                        &&& (#[trigger] self.seen@[i]).a == 255
                        &&& t.contains(self.seen@[i])
                        &&& self.counts@.contains_key(code(self.seen@[i]) as u32)
                        &&& self.counts@[code(self.seen@[i]) as u32] == times(t, self.seen@[i])
                    } by {
                        assert(before.seen@[i] == self.seen@[i]);
                        lemma_code(self.seen@[i], c);
                        lemma_push(s, c, self.seen@[i]);
                    }
                    assert forall|d: Rgba| #[trigger] t.contains(d) implies self.seen@.contains(d) by {
                        lemma_push(s, c, d);
                    }
                    assert forall|i: int, j: int| 0 <= i < j < self.seen@.len() implies t.index_of_first(
                        #[trigger] self.seen@[i],
                    )->0 < t.index_of_first(#[trigger] self.seen@[j])->0 by {
                        lemma_push(s, c, self.seen@[i]);
                        lemma_push(s, c, self.seen@[j]);
                    }
                }
            },
            None => {
                proof {
                    assert(!s.contains(c)) by {
                        if s.contains(c) {
                            assert(self.seen@.contains(c));
                            let i = choose|i: int| 0 <= i < self.seen@.len() && self.seen@[i] == c;
                            assert(self.counts@.contains_key(code(self.seen@[i]) as u32));
                        }
                    }
                }
                self.counts.insert(k, 1);
                self.seen.push(c);
                proof {
                    lemma_push(s, c, c);
                    assert forall|i: int| 0 <= i < self.seen@.len() implies {
                        &&& (#[trigger] self.seen@[i]).a == 255
                        &&& t.contains(self.seen@[i])
                        &&& self.counts@.contains_key(code(self.seen@[i]) as u32)
                        &&& self.counts@[code(self.seen@[i]) as u32] == times(t, self.seen@[i])
                    } by {
                        if i < before.seen@.len() {
                            assert(before.seen@[i] == self.seen@[i]);
                            lemma_code(self.seen@[i], c);
                        }
                        lemma_push(s, c, self.seen@[i]);
                    }
                    assert forall|d: Rgba| #[trigger] t.contains(d) implies self.seen@.contains(d) by {
                        lemma_push(s, c, d);
                        if d == c {
                            assert(self.seen@[self.seen@.len() - 1] == c);
                        } else {
                            let i = choose|i: int| 0 <= i < before.seen@.len() && before.seen@[i] == d;
                            assert(self.seen@[i] == d);
                        }
                    }
                    assert forall|i: int, j: int| 0 <= i < j < self.seen@.len() implies t.index_of_first(
                        #[trigger] self.seen@[i],
                    )->0 < t.index_of_first(#[trigger] self.seen@[j])->0 by {
                        lemma_push(s, c, self.seen@[i]);
                        lemma_push(s, c, self.seen@[j]);
                        assert(before.seen@[i] == self.seen@[i]);
                        lemma_first(s, self.seen@[i]);
                        if j < before.seen@.len() {
                            assert(before.seen@[j] == self.seen@[j]);
                        }
                    }
                    assert forall|m: u32| #[trigger] self.counts@.contains_key(m) implies exists|i: int|
                        0 <= i < self.seen@.len() && code(#[trigger] self.seen@[i]) == m by {
                        if m == k {
                            assert(code(self.seen@[self.seen@.len() - 1]) == m);
                        } else {
                            assert(before.counts@.contains_key(m));
                            let i = choose|i: int|
                                0 <= i < before.seen@.len() && code(#[trigger] before.seen@[i]) == m;
                            assert(code(self.seen@[i]) == m);
                        }
                    }
                }
            },
        }
    }
}

spec fn skips(skip: Option<usize>, j: int) -> bool {
    skip matches Some(k) && k == j
}

impl Tally {
    /// The place of the colour that comes first, `skip` aside.
    fn leader(&self, skip: Option<usize>, Ghost(s): Ghost<Seq<Rgba>>) -> (r: Option<usize>)
        requires
            self.of(s),
        ensures
            r matches Some(i) ==> {
                &&& i < self.seen@.len()
                &&& !skips(skip, i as int)
                &&& forall|j: int|
                    0 <= j < self.seen@.len() && j != i && !skips(skip, j) ==> outranks(
                        s,
                        self.seen@[i as int],
                        #[trigger] self.seen@[j],
                    )
            },
            r is None ==> forall|j: int|
                0 <= j < self.seen@.len() ==> #[trigger] skips(skip, j),
    {
        let mut best: Option<(usize, u64)> = None;
        let n: usize = self.seen.len();
        for i in 0..n
            invariant
                self.of(s),
                n == self.seen@.len(),
                best matches Some((b, m)) ==> {
                    &&& b < i
                    &&& !skips(skip, b as int)
                    &&& m == times(s, self.seen@[b as int])
                    &&& forall|j: int|
                        0 <= j < i && j != b && !skips(skip, j) ==> outranks(
                            s,
                            self.seen@[b as int],
                            #[trigger] self.seen@[j],
                        )
                },
                best is None ==> forall|j: int|
                    0 <= j < i ==> #[trigger] skips(skip, j),
        {
            let skipped = match skip {
                Some(k) => k == i,
                None => false,
            };
            if !skipped {
                let k: u32 = code_of(self.seen[i]);
                let c: u64 = match self.counts.get(&k) {
                    Some(m) => *m,
                    None => 0,
                };
                assert(c == times(s, self.seen@[i as int]));
                let better = match best {
                    None => true,
                    Some((_, m)) => c > m,
                };
                if better {
                    best = Some((i, c));
                }
            }
        }
        match best {
            None => None,
            Some((b, _)) => Some(b),
        }
    }

    /// The two colours that come first.
    fn top_two(&self, Ghost(s): Ghost<Seq<Rgba>>) -> (r: Vec<Rgba>)
        requires
            self.of(s),
        ensures
            is_top_two(s, r@),
    {
        let mut r: Vec<Rgba> = Vec::new();
        let first = self.leader(None, Ghost(s));
        let mut second: Option<usize> = None;
        if let Some(i) = first {
            r.push(self.seen[i]);
            second = self.leader(first, Ghost(s));
            if let Some(j) = second {
                r.push(self.seen[j]);
            }
        }
        proof {
            if let (Some(i), Some(j)) = (first, second) {
                if i < j {
                    assert(s.index_of_first(self.seen@[i as int])->0 < s.index_of_first(
                        self.seen@[j as int],
                    )->0);
                } else {
                    assert(s.index_of_first(self.seen@[j as int])->0 < s.index_of_first(
                        self.seen@[i as int],
                    )->0);
                }
            }
            assert forall|c: Rgba| #[trigger] s.contains(c) implies {
                &&& r@.len() > 0
                &&& c != r@[0] ==> outranks(s, r@[0], c) && r@.len() == 2
                &&& r@.len() == 2 && c != r@[0] && c != r@[1] ==> outranks(s, r@[1], c)
            } by {
                assert(self.seen@.contains(c));
                let k = choose|k: int| 0 <= k < self.seen@.len() && self.seen@[k] == c;
                assert(!skips(None, k));
                assert(first is Some);
                let i = first->0;
                if k != i {
                    assert(outranks(s, self.seen@[i as int], self.seen@[k]));
                    assert(!skips(first, k));
                    assert(second is Some);
                    let j = second->0;
                    if k != j {
                        assert(outranks(s, self.seen@[j as int], self.seen@[k]));
                    }
                }
            }
        }
        r
    }
}

/// Counts the colours of row `y`.
fn count_row(tally: &mut Tally, src: &RgbaImage, y: u32, Ghost(s): Ghost<Seq<Rgba>>)
    requires
        src@.wf(),
        y < src@.height,
        old(tally).of(s),
        s.len() + src@.width < u64::MAX,
    ensures
        final(tally).of(s + tints(src@, row_cells(src@.width as int, y as int))),
{
    let w: u32 = src.width();
    let ghost row = tints(src@, row_cells(w as int, y as int));
    assert(s + row.take(0) =~= s);
    for x in 0..w
        invariant
            src@.wf(),
            w == src@.width,
            y < src@.height,
            s.len() + w < u64::MAX,
            row == tints(src@, row_cells(w as int, y as int)),
            tally.of(s + row.take(x as int)),
    {
        let p = src.get_pixel(x, y);
        tally.count(p, Ghost(s + row.take(x as int)));
        assert((s + row.take(x as int)).push(tint(p)) =~= s + row.take(x + 1));
    }
    assert(row.take(w as int) =~= row);
}

/// Counts the colours of column `x` between the first and the last row.
fn count_column(tally: &mut Tally, src: &RgbaImage, x: u32, Ghost(s): Ghost<Seq<Rgba>>)
    requires
        src@.wf(),
        x < src@.width,
        old(tally).of(s),
        s.len() + src@.height < u64::MAX,
    ensures
        final(tally).of(s + tints(src@, column_cells(src@.height as int, x as int))),
{
    let h: u32 = src.height();
    let ghost column = tints(src@, column_cells(h as int, x as int));
    assert(s + column.take(0) =~= s);
    if h > 2 {
        for k in 0..h - 2
            invariant
                src@.wf(),
                h == src@.height,
                h > 2,
                x < src@.width,
                s.len() + h < u64::MAX,
                column == tints(src@, column_cells(h as int, x as int)),
                tally.of(s + column.take(k as int)),
        {
            let p = src.get_pixel(x, k + 1);
            tally.count(p, Ghost(s + column.take(k as int)));
            assert((s + column.take(k as int)).push(tint(p)) =~= s + column.take(k + 1));
        }
    }
    assert(column.take(column.len() as int) =~= column);
}

/// The two most common colours along the picture's border. Of colours that are
/// equally common the one that is met first counts as more common.
pub fn border_colors(src: &RgbaImage) -> (r: Vec<Rgba>)
    requires
        src@.wf(),
        src@.width == 0 <==> src@.height == 0,
    ensures
        is_top_two(border(src@), r@),
{
    let (w, h) = src.dimensions();
    let mut tally = Tally::new();
    let ghost mut s: Seq<Rgba> = Seq::empty();
    if h > 0 {
        count_row(&mut tally, src, 0, Ghost(s));
        proof {
            s = s + tints(src@, row_cells(w as int, 0));
        }
        if h > 1 {
            count_row(&mut tally, src, h - 1, Ghost(s));
            proof {
                s = s + tints(src@, row_cells(w as int, h - 1));
            }
        }
        count_column(&mut tally, src, 0, Ghost(s));
        proof {
            s = s + tints(src@, column_cells(h as int, 0));
        }
        if w > 1 {
            count_column(&mut tally, src, w - 1, Ghost(s));
            proof {
                s = s + tints(src@, column_cells(h as int, w - 1));
            }
        }
    }
    assert(s =~= border(src@));
    tally.top_two(Ghost(s))
}

fn squared_distance(p: Rgba, q: Rgba) -> (r: u32)
    ensures
        r == distance2(p, q),
{
    let dr: i32 = p.r as i32 - q.r as i32;
    let dg: i32 = p.g as i32 - q.g as i32;
    let db: i32 = p.b as i32 - q.b as i32;
    proof {
        lemma_square(dr as int);
        lemma_square(dg as int);
        lemma_square(db as int);
    }
    (dr * dr + dg * dg + db * db) as u32
}

proof fn lemma_square(d: int)
    requires
        -255 <= d <= 255,
    ensures
        0 <= d * d <= 255 * 255,
{
    assert(0 <= d * d <= 255 * 255) by (nonlinear_arith)
        requires
            -255 <= d <= 255,
    ;
}

/// Makes every pixel transparent whose colour is near one of `colors`, and says
/// how many there were.
pub fn clear_colors(src: &RgbaImage, colors: &Vec<Rgba>, limit2: Option<u32>) -> (r: (RgbaImage, u64))
    requires
        src@.wf(),
    ensures
        r.0@.wf(),
        r.0@ == cleared_picture(src@, colors@, limit2),
        r.1 == near_count(src@.px, colors@, limit2),
{
    let mut out = src.clone();
    let mut fixed: u64 = 0;
    let n: usize = src.pixels().len();
    for i in 0..n
        invariant
            src@.wf(),
            out@.wf(),
            out@.same_size(src@),
            n == src@.px.len(),
            out@.px.len() == n,
            fixed <= i,
            fixed == near_count(src@.px.take(i as int), colors@, limit2),
            forall|j: int| 0 <= j < i ==> #[trigger] out@.px[j] == cleared(src@.px[j], colors@, limit2),
            forall|j: int| i <= j < n ==> #[trigger] out@.px[j] == src@.px[j],
    {
        let p = src.pixels()[i];
        let mut near = false;
        if let Some(m) = limit2 {
            let mut k: usize = 0;
            while k < colors.len() && !near
                invariant
                    k <= colors@.len(),
                    near ==> is_near(p, colors@, limit2),
                    limit2 == Some(m),
                    !near ==> forall|j: int| 0 <= j < k ==> distance2(p, #[trigger] colors@[j]) > m,
                decreases colors@.len() - k, (if near { 0int } else { 1int }),
            {
                if squared_distance(p, colors[k]) <= m {
                    near = true;
                } else {
                    k = k + 1;
                }
            }
        }
        assert(near == is_near(p, colors@, limit2));
        if near {
            out.put_nth(i, Rgba::new(p.r, p.g, p.b, 0));
            fixed = fixed + 1;
        }
        assert(src@.px.take(i + 1).drop_last() =~= src@.px.take(i as int));
    }
    assert(src@.px.take(n as int) =~= src@.px);
    assert(out@.px =~= cleared_picture(src@, colors@, limit2).px);
    (out, fixed)
}

/// `out` is the picture without its background, of which there were `n` pixels.
pub open spec fn is_removed(pic: Picture, limit2: Option<u32>, out: Picture, n: nat) -> bool {
    exists|colors: Seq<Rgba>|
        #[trigger] is_top_two(border(pic), colors) && out == cleared_picture(pic, colors, limit2)
            && n == near_count(pic.px, colors, limit2)
}

/// Makes every pixel transparent whose colour is near one of the two most
/// common border colours, and says how many there were. `limit2` is the square
/// of the greatest distance that counts as near, rounded down; with `None`
/// nothing is near.
pub fn remove_background(src: &RgbaImage, limit2: Option<u32>) -> (r: (RgbaImage, u64))
    requires
        src@.wf(),
        src@.width == 0 <==> src@.height == 0,
    ensures
        r.0@.wf(),
        is_removed(src@, limit2, r.0@, r.1 as nat),
{
    let colors = border_colors(src);
    clear_colors(src, &colors, limit2)
}

/// There is only one answer to what the two most common colours are, so the
/// outcome of background removal is settled by the picture and the limit.
pub proof fn lemma_top_two_unique(s: Seq<Rgba>, a: Seq<Rgba>, b: Seq<Rgba>)
    requires
        is_top_two(s, a),
        is_top_two(s, b),
    ensures
        a == b,
{
    if a.len() > 0 {
        assert(s.contains(a[0]));
        assert(b.len() > 0);
        assert(s.contains(b[0]));
        assert(a[0] == b[0]);
    }
    if b.len() > 0 {
        assert(s.contains(b[0]));
        assert(a.len() > 0);
    }
    if a.len() > 1 {
        assert(s.contains(a[1]));
        assert(b.len() > 1);
    }
    if b.len() > 1 {
        assert(s.contains(b[1]));
        assert(a.len() > 1);
        assert(s.contains(a[1]));
        assert(a[1] == b[1]);
    }
    assert(a =~= b);
}

/// Background removal changes no colour, and makes no pixel less transparent.
pub proof fn lemma_clearing_only_lowers_alpha(
    pic: Picture,
    colors: Seq<Rgba>,
    limit2: Option<u32>,
    i: int,
)
    requires
        0 <= i < pic.px.len(),
    ensures
        tint(cleared_picture(pic, colors, limit2).px[i]) == tint(pic.px[i]),
        cleared_picture(pic, colors, limit2).px[i].a <= pic.px[i].a,
{
}

/// Removing the same colours twice is removing them once.
pub proof fn lemma_clearing_twice(pic: Picture, colors: Seq<Rgba>, limit2: Option<u32>)
    ensures
        cleared_picture(cleared_picture(pic, colors, limit2), colors, limit2) == cleared_picture(
            pic,
            colors,
            limit2,
        ),
{
    let once = cleared_picture(pic, colors, limit2);
    let twice = cleared_picture(once, colors, limit2);
    assert forall|i: int| 0 <= i < pic.px.len() implies twice.px[i] == once.px[i] by {
        let p = pic.px[i];
        assert(forall|j: int|
            0 <= j < colors.len() ==> distance2(once.px[i], #[trigger] colors[j]) == distance2(
                p,
                colors[j],
            ));
        assert(is_near(once.px[i], colors, limit2) == is_near(p, colors, limit2));
    }
    assert(twice.px =~= once.px);
}

proof fn lemma_square_grows(d: int, e: int)
    ensures
        d * d >= 0,
        d * d == (-d) * (-d),
        d * d == 0 <==> d == 0,
        -e <= d <= e ==> d * d <= e * e,
        e >= 0 && (d > e || d < -e) ==> d * d > e * e,
{
    assert(d * d >= 0 && d * d == (-d) * (-d)) by (nonlinear_arith);
    assert(d * d == 0 <==> d == 0) by (nonlinear_arith);
    assert(-e <= d <= e ==> d * d <= e * e) by (nonlinear_arith);
    assert(e >= 0 && (d > e || d < -e) ==> d * d > e * e) by (nonlinear_arith);
}

/// Colours that differ in one channel only are as far apart as that channel says,
/// whichever it is, and differences in several channels add up as in space. Alpha
/// counts for nothing.
pub proof fn lemma_distance_by_channel(p: Rgba, q: Rgba)
    ensures
        p.g == q.g && p.b == q.b ==> distance2(p, q) == (p.r - q.r) * (p.r - q.r),
        p.r == q.r && p.b == q.b ==> distance2(p, q) == (p.g - q.g) * (p.g - q.g),
        p.r == q.r && p.g == q.g ==> distance2(p, q) == (p.b - q.b) * (p.b - q.b),
        distance2(p, q) == distance2(p, Rgba { r: q.r, ..p }) + distance2(p, Rgba { g: q.g, ..p })
            + distance2(p, Rgba { b: q.b, ..p }),
        distance2(p, q) == distance2(tint(p), tint(q)),
{
    let red = Rgba { r: q.r, ..p };
    let green = Rgba { g: q.g, ..p };
    let blue = Rgba { b: q.b, ..p };
    lemma_square_grows(p.g - red.g, 0);
    lemma_square_grows(p.b - red.b, 0);
    lemma_square_grows(p.r - green.r, 0);
    lemma_square_grows(p.b - green.b, 0);
    lemma_square_grows(p.r - blue.r, 0);
    lemma_square_grows(p.g - blue.g, 0);
    assert(distance2(p, red) == (p.r - q.r) * (p.r - q.r));
    assert(distance2(p, green) == (p.g - q.g) * (p.g - q.g));
    assert(distance2(p, blue) == (p.b - q.b) * (p.b - q.b));
}

/// Distance treats the channels alike and has no direction: it stays the same
/// when the same two channels of both colours change places, and when the colours
/// do.
pub proof fn lemma_distance_is_fair(p: Rgba, q: Rgba)
    ensures
        distance2(Rgba { r: p.g, g: p.r, ..p }, Rgba { r: q.g, g: q.r, ..q }) == distance2(p, q),
        distance2(Rgba { r: p.b, b: p.r, ..p }, Rgba { r: q.b, b: q.r, ..q }) == distance2(p, q),
        distance2(Rgba { g: p.b, b: p.g, ..p }, Rgba { g: q.b, b: q.g, ..q }) == distance2(p, q),
        distance2(p, q) == distance2(q, p),
        distance2(p, q) >= 0,
        distance2(p, q) == 0 <==> p.r == q.r && p.g == q.g && p.b == q.b,
{
    lemma_square_grows(p.r - q.r, 0);
    lemma_square_grows(p.g - q.g, 0);
    lemma_square_grows(p.b - q.b, 0);
}

/// A pixel that differs from every background colour in some channel by more than
/// the tolerance `t` keeps its alpha; one that differs from a background colour
/// in one channel only, by no more than the tolerance, loses it.
pub proof fn lemma_clearing_by_channel(p: Rgba, colors: Seq<Rgba>, limit2: u32, t: int)
    requires
        t >= 0,
        t * t <= limit2 < (t + 1) * (t + 1),
    ensures
        (forall|i: int|
            0 <= i < colors.len() ==> {
                ||| p.r - (#[trigger] colors[i]).r > t || colors[i].r - p.r > t
                ||| p.g - colors[i].g > t || colors[i].g - p.g > t
                ||| p.b - colors[i].b > t || colors[i].b - p.b > t
            }) ==> cleared(p, colors, Some(limit2)) == p,
        (exists|i: int|
            0 <= i < colors.len() && {
                ||| -t <= p.r - (#[trigger] colors[i]).r <= t && p.g == colors[i].g && p.b
                    == colors[i].b
                ||| -t <= p.g - colors[i].g <= t && p.r == colors[i].r && p.b == colors[i].b
                ||| -t <= p.b - colors[i].b <= t && p.r == colors[i].r && p.g == colors[i].g
            }) ==> cleared(p, colors, Some(limit2)) == (Rgba { r: p.r, g: p.g, b: p.b, a: 0 }),
{
    assert forall|i: int| 0 <= i < colors.len() implies {
        let c = #[trigger] colors[i];
        &&& p.r - c.r > t || c.r - p.r > t || p.g - c.g > t || c.g - p.g > t || p.b - c.b > t || c.b
            - p.b > t ==> distance2(p, c) > limit2
        &&& -t <= p.r - c.r <= t && p.g == c.g && p.b == c.b ==> distance2(p, c) <= limit2
        &&& -t <= p.g - c.g <= t && p.r == c.r && p.b == c.b ==> distance2(p, c) <= limit2
        &&& -t <= p.b - c.b <= t && p.r == c.r && p.g == c.g ==> distance2(p, c) <= limit2
    } by {
        let c = colors[i];
        lemma_square_grows(p.r - c.r, t);
        lemma_square_grows(p.g - c.g, t);
        lemma_square_grows(p.b - c.b, t);
        if p.r - c.r > t || c.r - p.r > t {
            lemma_past_tolerance(p.r - c.r, t);
        }
        if p.g - c.g > t || c.g - p.g > t {
            lemma_past_tolerance(p.g - c.g, t);
        }
        if p.b - c.b > t || c.b - p.b > t {
            lemma_past_tolerance(p.b - c.b, t);
        }
    }
}

proof fn lemma_past_tolerance(d: int, t: int)
    requires
        t >= 0,
        d > t || d < -t,
    ensures
        d * d >= (t + 1) * (t + 1),
{
    assert(d * d >= (t + 1) * (t + 1)) by (nonlinear_arith)
        requires
            t >= 0,
            d > t || d < -t,
    ;
}

/// How many of the items satisfy `f`.
proof fn lemma_filter_push(s: Seq<Rgba>, f: spec_fn(Rgba) -> bool)
    requires
        s.len() > 0,
    ensures
        s.filter(f).len() == s.drop_last().filter(f).len() + if f(s.last()) {
            1nat
        } else {
            0nat
        },
{
    reveal(Seq::filter);
}

proof fn lemma_times_counts(s: Seq<Rgba>, c: Rgba)
    ensures
        times(s, c) == s.filter(|d: Rgba| d == c).len(),
    decreases s.len(),
{
    let f = |d: Rgba| d == c;
    reveal(Seq::filter);
    if s.len() > 0 {
        lemma_times_counts(s.drop_last(), c);
        lemma_filter_push(s, f);
    }
}

proof fn lemma_near_counts(px: Seq<Rgba>, colors: Seq<Rgba>, limit2: Option<u32>)
    ensures
        near_count(px, colors, limit2) == px.filter(|p: Rgba| is_near(p, colors, limit2)).len(),
    decreases px.len(),
{
    let f = |p: Rgba| is_near(p, colors, limit2);
    reveal(Seq::filter);
    if px.len() > 0 {
        lemma_near_counts(px.drop_last(), colors, limit2);
        lemma_filter_push(px, f);
    }
}

/// The colours along the border are looked at opaque, and in this order: the first
/// row and the last one from left to right, then the first column and the last
/// one between them, from the top down.
pub proof fn lemma_border_order(pic: Picture, i: int)
    requires
        pic.wf(),
        pic.width >= 2,
        pic.height >= 2,
    ensures
        border(pic).len() == 2 * pic.width + 2 * pic.height - 4,
        0 <= i < pic.width ==> border(pic)[i] == (Rgba { a: 255, ..pic.at(i, 0) }) && border(
            pic,
        )[pic.width + i] == (Rgba { a: 255, ..pic.at(i, pic.height - 1) }),
        0 < i < pic.height - 1 ==> border(pic)[2 * pic.width + i - 1] == (Rgba {
            a: 255,
            ..pic.at(0, i)
        }) && border(pic)[2 * pic.width + pic.height - 2 + i - 1] == (Rgba {
            a: 255,
            ..pic.at(pic.width - 1, i)
        }),
{
}

/// The colours that are taken for the background: each occurs along the border,
/// none that is left out is more common, and of two equally common colours the
/// one that is met first goes first. There are two where the border shows more
/// than one colour.
pub proof fn lemma_most_common(s: Seq<Rgba>, colors: Seq<Rgba>, k: int, a: Rgba, c: Rgba)
    requires
        is_top_two(s, colors),
        s.contains(c),
        0 <= k < colors.len(),
        a == colors[k],
        forall|j: int| 0 <= j <= k ==> #[trigger] colors[j] != c,
    ensures
        s.contains(a),
        s.filter(|d: Rgba| d == a).len() >= s.filter(|d: Rgba| d == c).len(),
        s.filter(|d: Rgba| d == a).len() == s.filter(|d: Rgba| d == c).len() ==> exists|
            m: int,
        |
            0 <= m < s.len() && #[trigger] s[m] == a && forall|j: int|
                0 <= j <= m ==> #[trigger] s[j] != c,
        colors.len() == 2,
        colors[0] != colors[1],
{
    lemma_times_counts(s, a);
    lemma_times_counts(s, c);
    assert(colors[0] != c);
    assert(a != c);
    lemma_first(s, a);
    lemma_first(s, c);
    if colors.len() == 1 {
        assert(colors[0] == c);
    }
    assert(outranks(s, a, c));
    let m = s.index_of_first(a)->0;
    assert(s[m] == a);
}

/// Background removal, pixel by pixel: there are at most two background colours,
/// taken from the border; a pixel is made transparent, with its colour kept, if
/// and only if the sum of the squares of its differences from one of them is
/// within the limit; no other pixel changes; and the pixels that were found are
/// counted.
pub proof fn lemma_removal(pic: Picture, limit2: Option<u32>, out: Picture, n: nat)
    requires
        is_removed(pic, limit2, out, n),
    ensures
        out.width == pic.width && out.height == pic.height && out.px.len() == pic.px.len(),
        limit2 is None ==> out == pic && n == 0,
        limit2 matches Some(m) ==> exists|colors: Seq<Rgba>|
            {
                let near = |p: Rgba|
                    exists|k: int|
                        0 <= k < colors.len() && {
                            let c = #[trigger] colors[k];
                            (p.r - c.r) * (p.r - c.r) + (p.g - c.g) * (p.g - c.g) + (p.b - c.b) * (p.b
                                - c.b) <= m
                        };
                &&& #[trigger] is_top_two(border(pic), colors)
                &&& n == pic.px.filter(near).len()
                &&& forall|i: int|
                    0 <= i < pic.px.len() ==> #[trigger] out.px[i] == if near(pic.px[i]) {
                        Rgba { a: 0, ..pic.px[i] }
                    } else {
                        pic.px[i]
                    }
            },
{
    let colors = choose|colors: Seq<Rgba>|
        #[trigger] is_top_two(border(pic), colors) && out == cleared_picture(pic, colors, limit2)
            && n == near_count(pic.px, colors, limit2);
    lemma_near_counts(pic.px, colors, limit2);
    if limit2 is None {
        assert(out.px =~= pic.px);
        lemma_none_near(pic.px, colors);
    } else {
        let m = limit2->0;
        let near = |p: Rgba|
            exists|k: int|
                0 <= k < colors.len() && {
                    let c = #[trigger] colors[k];
                    (p.r - c.r) * (p.r - c.r) + (p.g - c.g) * (p.g - c.g) + (p.b - c.b) * (p.b - c.b)
                        <= m
                };
        assert forall|p: Rgba| near(p) == is_near(p, colors, limit2) by {
            assert(forall|k: int|
                distance2(p, #[trigger] colors[k]) == (p.r - colors[k].r) * (p.r - colors[k].r) + (p.g
                    - colors[k].g) * (p.g - colors[k].g) + (p.b - colors[k].b) * (p.b - colors[k].b));
        }
        assert(near =~= |p: Rgba| is_near(p, colors, limit2));
    }
}

proof fn lemma_none_near(px: Seq<Rgba>, colors: Seq<Rgba>)
    ensures
        near_count(px, colors, None) == 0,
    decreases px.len(),
{
    if px.len() > 0 {
        lemma_none_near(px.drop_last(), colors);
    }
}

} // verus!
