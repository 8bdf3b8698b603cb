//! Taking a list together, item by item.

use vstd::prelude::*;

verus! {

/// `out` comes of taking the items one after another into `init`, with these
/// values on the way.
pub open spec fn folds_by<T, S, F: Fn(T, S) -> T>(
    f: F,
    init: T,
    items: Seq<S>,
    way: Seq<T>,
    out: T,
) -> bool {
    &&& way.len() == items.len() + 1
    &&& way[0] == init
    &&& way[items.len() as int] == out
    &&& forall|i: int|
        0 <= i < items.len() ==> call_ensures(f, (way[i], #[trigger] items[i]), way[i + 1])
}

/// `out` comes of taking the items one after another into `init`.
pub open spec fn folds<T, S, F: Fn(T, S) -> T>(f: F, init: T, items: Seq<S>, out: T) -> bool {
    exists|way: Seq<T>| folds_by(f, init, items, way, out)
}

/// Takes the items from place `from` up to before place `to` into `init`.
pub fn fold_range<T: Copy, S: Copy, F: Fn(T, S) -> T>(
    list: &Vec<S>,
    from: usize,
    to: usize,
    init: T,
    f: &F,
) -> (r: T)
    requires
        from <= to <= list@.len(),
        forall|a: T, s: S| call_requires(*f, (a, s)),
    ensures
        folds(*f, init, list@.subrange(from as int, to as int), r),
{
    let ghost items = list@.subrange(from as int, to as int);
    let ghost mut way: Seq<T> = seq![init];
    let mut r: T = init;
    for i in from..to
        invariant
            from <= to <= list@.len(),
            forall|a: T, s: S| call_requires(*f, (a, s)),
            items == list@.subrange(from as int, to as int),
            way.len() == i - from + 1,
            way[0] == init,
            way[i - from] == r,
            forall|k: int|
                0 <= k < i - from ==> call_ensures(*f, (way[k], #[trigger] items[k]), way[k + 1]),
    {
        assert(items[i - from] == list@[i as int]);
        let next = f(r, list[i]);
        proof {
            way = way.push(next);
        }
        r = next;
    }
    assert(folds_by(*f, init, items, way, r));
    r
}

/// Taking nothing leaves the start, and taking one item is one step.
pub proof fn lemma_fold_few<T, S, F: Fn(T, S) -> T>(f: F, init: T, s: S, out: T)
    ensures
        folds(f, init, Seq::<S>::empty(), out) <==> out == init,
        folds(f, init, seq![s], out) <==> call_ensures(f, (init, s), out),
{
    if out == init {
        assert(folds_by(f, init, Seq::<S>::empty(), seq![init], out));
    }
    let one = seq![s];
    assert(one[0] == s);
    if call_ensures(f, (init, s), out) {
        assert(folds_by(f, init, one, seq![init, out], out));
    }
    if folds(f, init, one, out) {
        let way = choose|way: Seq<T>| folds_by(f, init, one, way, out);
        assert(call_ensures(f, (way[0], one[0]), way[1]));
    }
}

/// Taking one list after another is taking both lists joined.
pub proof fn lemma_fold_join<T, S, F: Fn(T, S) -> T>(
    f: F,
    init: T,
    a: Seq<S>,
    b: Seq<S>,
    mid: T,
    out: T,
)
    requires
        folds(f, init, a, mid),
        folds(f, mid, b, out),
    ensures
        folds(f, init, a + b, out),
{
    let u = choose|way: Seq<T>| folds_by(f, init, a, way, mid);
    let v = choose|way: Seq<T>| folds_by(f, mid, b, way, out);
    let way = u + v.skip(1);
    let items = a + b;
    assert forall|i: int| 0 <= i < items.len() implies call_ensures(
        f,
        (way[i], #[trigger] items[i]),
        way[i + 1],
    ) by {
        if i < a.len() {
            assert(items[i] == a[i]);
        } else {
            let j = i - a.len();
            assert(items[i] == b[j]);
            assert(way[i] == v[j]);
            assert(way[i + 1] == v[j + 1]);
        }
    }
    assert(folds_by(f, init, items, way, out));
}

/// Taking two lists joined is taking one after the other, by some value between.
pub proof fn lemma_fold_split<T, S, F: Fn(T, S) -> T>(
    f: F,
    init: T,
    a: Seq<S>,
    b: Seq<S>,
    out: T,
) -> (mid: T)
    requires
        folds(f, init, a + b, out),
    ensures
        folds(f, init, a, mid),
        folds(f, mid, b, out),
{
    let items = a + b;
    let way = choose|way: Seq<T>| folds_by(f, init, items, way, out);
    let n = a.len() as int;
    let u = way.take(n + 1);
    let v = way.skip(n);
    assert forall|i: int| 0 <= i < a.len() implies call_ensures(
        f,
        (u[i], #[trigger] a[i]),
        u[i + 1],
    ) by {
        assert(items[i] == a[i]);
    }
    assert forall|i: int| 0 <= i < b.len() implies call_ensures(
        f,
        (v[i], #[trigger] b[i]),
        v[i + 1],
    ) by {
        assert(items[n + i] == b[i]);
        assert(call_ensures(f, (way[n + i], items[n + i]), way[n + i + 1]));
    }
    assert(folds_by(f, init, a, u, way[n]));
    assert(folds_by(f, way[n], b, v, out));
    way[n]
}

} // verus!
