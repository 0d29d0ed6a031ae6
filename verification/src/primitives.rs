use vstd::prelude::*;
use vstd::std_specs::cmp::PartialOrdIs;
use vstd::std_specs::cmp::PartialOrdSpec;
use crate::triangle::{NormalType, Triangle};
use crate::triangle_mesh::TriangleMesh;

verus! {

/// Whether `T`'s `<` is described by its specification (true of the integer
/// types; unknown of a type whose comparison Verus has not read).
pub open spec fn lawful_order<T: PartialOrd>() -> bool {
    T::obeys_partial_cmp_spec()
}

/// `a` compares strictly less than `b`.
pub open spec fn precedes<T: PartialOrd>(a: T, b: T) -> bool {
    a.is_lt(&b)
}

/// The closer of a running minimum and a new candidate, and whether the
/// candidate took its place.
pub open spec fn nearer<T: PartialOrd>(current: Option<T>, candidate: Option<T>) -> (Option<T>, bool) {
    match current {
        None => (candidate, true),
        Some(i) => match candidate {
            Some(j) => if precedes(j, i) {
                (candidate, true)
            } else {
                (current, false)
            },
            None => (current, false),
        },
    }
}

/// Keeps the closer of two optional intersections. The candidate `b` wins when
/// there is no running minimum yet or when it compares strictly less than it;
/// the flag tells whether it won.
pub fn min_intersection<T: PartialOrd>(min_intersection_v: Option<T>, b: Option<T>) -> (r: (
    Option<T>,
    bool,
))
    ensures
        r == (b, true) || r == (min_intersection_v, false),
        min_intersection_v is None ==> r == (b, true),
        min_intersection_v is Some && b is None ==> r == (min_intersection_v, false),
        lawful_order::<T>() ==> r == nearer(min_intersection_v, b),
{
    let b_wins = match &min_intersection_v {
        None => true,
        Some(i) => match &b {
            Some(j) => j.lt(i),
            None => false,
        },
    };
    if b_wins {
        (b, true)
    } else {
        (min_intersection_v, false)
    }
}


/// The nearest of a list of intersections, found the way a sweep over the
/// list with `min_intersection` finds it: the running minimum starts empty
/// and each entry that takes its place records its primitive (from `level`)
/// as the one hit.
pub open spec fn nearest_in<T: PartialOrd>(level: Seq<usize>, hits: Seq<Option<T>>) -> (
    Option<T>,
    Option<usize>,
)
    decreases hits.len(),
{
    if hits.len() == 0 {
        (None, None)
    } else {
        let prev = nearest_in(level, hits.drop_last());
        let step = nearer(prev.0, hits.last());
        (step.0, if step.1 { Some(level[hits.len() - 1]) } else { prev.1 })
    }
}

/// Sweeps `hits` (the intersection found for each primitive of `level`, in
/// order) with `min_intersection`, keeping the nearest one and the primitive
/// that produced it.
pub fn nearest_hit<T: PartialOrd + Copy>(level: &Vec<usize>, hits: &Vec<Option<T>>) -> (r: (
    Option<T>,
    Option<usize>,
))
    requires
        level.len() == hits.len(),
    ensures
        lawful_order::<T>() ==> r == nearest_in(level@, hits@),
        r.0 is Some ==> r.1 is Some && exists|k: int|
            0 <= k < hits.len() && hits@[k] == r.0 && level@[k] == r.1.unwrap(),
        r.1 is Some ==> level@.contains(r.1.unwrap()),
        hits.len() == 0 ==> r.0 is None && r.1 is None,
        r.0 is None <==> all_missed(hits@),
        all_missed(hits@) && hits.len() > 0 ==> r.1 == Some(level@.last()),
{
    let mut best: Option<T> = None;
    let mut best_idx: Option<usize> = None;
    let n = hits.len();
    let mut k: usize = 0;
    while k < n
        invariant
            n == hits.len(),
            level.len() == hits.len(),
            0 <= k <= n,
            lawful_order::<T>() ==> (best, best_idx) == nearest_in(level@, hits@.take(k as int)),
            best is Some ==> best_idx is Some && exists|j: int|
                0 <= j < k && hits@[j] == best && level@[j] == best_idx.unwrap(),
            best_idx is Some ==> exists|j: int| 0 <= j < k && level@[j] == best_idx.unwrap(),
            k == 0 ==> best is None && best_idx is None,
            best is None <==> all_missed(hits@.take(k as int)),
            best is None && k > 0 ==> best_idx == Some(level@[k - 1]),
        decreases n - k,
    {
        let (m, is_min) = min_intersection(best, hits[k]);
        best = m;
        if is_min {
            best_idx = Some(level[k]);
        }
        proof {
            assert(hits@.take(k + 1).drop_last() =~= hits@.take(k as int));
            assert(hits@.take(k + 1).last() == hits@[k as int]);
            assert(hits@.take(k + 1)[k as int] == hits@[k as int]);
            assert forall|j: int| 0 <= j < k implies #[trigger] hits@.take(k + 1)[j] == hits@.take(
                k as int,
            )[j] by {}
        }
        k = k + 1;
    }
    proof {
        assert(hits@.take(n as int) =~= hits@);
        if n > 0 {
            assert(level@.last() == level@[n - 1]);
        }
    }
    (best, best_idx)
}

/// An order that is irreflexive and transitive, as `<` on distances is once
/// NaN is ruled out.
pub open spec fn strict_order<T: PartialOrd>() -> bool {
    &&& forall|a: T| !#[trigger] precedes(a, a)
    &&& forall|a: T, b: T, c: T| #[trigger] precedes(a, b) && #[trigger] precedes(b, c) ==> precedes(a, c)
}

/// Under a strict order, the sweep finds an intersection exactly when one of
/// the entries is one, and no entry is strictly nearer than the one it finds.
pub proof fn lemma_nearest_is_minimal<T: PartialOrd>(level: Seq<usize>, hits: Seq<Option<T>>)
    requires
        strict_order::<T>(),
    ensures
        nearest_in(level, hits).0 is None <==> forall|k: int|
            0 <= k < hits.len() ==> #[trigger] hits[k] is None,
        forall|k: int|
            0 <= k < hits.len() && #[trigger] hits[k] is Some ==> !precedes(
                hits[k].unwrap(),
                nearest_in(level, hits).0.unwrap(),
            ),
    decreases hits.len(),
{
    if hits.len() > 0 {
        let prev = hits.drop_last();
        let last = hits.last();
        let n = hits.len() - 1;
        lemma_nearest_is_minimal(level, prev);
        assert forall|k: int| #![trigger hits[k]] #![trigger prev[k]] 0 <= k < n implies hits[k] == prev[k] by {}
        let p = nearest_in(level, prev);
        let r = nearest_in(level, hits);
        assert(last == hits[n]);
        assert(r.0 == nearer(p.0, last).0);
        if p.0 is None {
            assert(r.0 == last);
        } else if last is None {
            assert(r.0 == p.0);
            assert forall|k: int| 0 <= k < hits.len() && #[trigger] hits[k] is Some implies !precedes(
                hits[k].unwrap(),
                r.0.unwrap(),
            ) by {
                assert(prev[k] is Some);
            }
        } else if precedes(last.unwrap(), p.0.unwrap()) {
            assert(r.0 == last);
            assert forall|k: int| 0 <= k < hits.len() && #[trigger] hits[k] is Some implies !precedes(
                hits[k].unwrap(),
                r.0.unwrap(),
            ) by {
                if k < n {
                    assert(prev[k] is Some);
                    assert(!precedes(prev[k].unwrap(), p.0.unwrap()));
                    if precedes(hits[k].unwrap(), last.unwrap()) {
                        assert(precedes(hits[k].unwrap(), p.0.unwrap()));
                    }
                }
            }
        } else {
            assert(r.0 == p.0);
            assert forall|k: int| 0 <= k < hits.len() && #[trigger] hits[k] is Some implies !precedes(
                hits[k].unwrap(),
                r.0.unwrap(),
            ) by {
                if k < n {
                    assert(prev[k] is Some);
                }
            }
        }
    }
}

/// No intersection at all in a list of hits.
pub open spec fn all_missed<T>(hits: Seq<Option<T>>) -> bool {
    forall|k: int| 0 <= k < hits.len() ==> #[trigger] hits[k] is None
}

/// A sweep over hits that are all misses finds nothing.
pub proof fn lemma_nearest_of_misses<T: PartialOrd>(level: Seq<usize>, hits: Seq<Option<T>>)
    requires
        all_missed(hits),
    ensures
        nearest_in(level, hits).0 is None,
    decreases hits.len(),
{
    if hits.len() > 0 {
        let h = hits.drop_last();
        assert forall|k: int| 0 <= k < h.len() implies #[trigger] h[k] is None by {
            assert(h[k] == hits[k]);
        }
        lemma_nearest_of_misses(level, h);
        assert(hits.last() == hits[hits.len() - 1]);
    }
}

/// A strict weak order: irreflexive, transitive, and whenever `a < c`, any
/// `b` is above `a` or below `c`. (This is `<` on distances that are never
/// NaN.)
pub open spec fn strict_weak_order<T: PartialOrd>() -> bool {
    &&& forall|a: T| !#[trigger] precedes(a, a)
    &&& forall|a: T, b: T, c: T| #[trigger] precedes(a, b) && #[trigger] precedes(b, c) ==> precedes(a, c)
    &&& forall|a: T, b: T, c: T|
        #![trigger precedes(a, c), precedes(a, b)]
        #![trigger precedes(a, c), precedes(b, c)]
        precedes(a, c) ==> precedes(a, b) || precedes(b, c)
}

/// Which list of primitives a sweep's hits come from does not change the
/// nearest hit it finds.
pub proof fn lemma_nearest_value<T: PartialOrd>(l1: Seq<usize>, l2: Seq<usize>, hits: Seq<Option<T>>)
    ensures
        nearest_in(l1, hits).0 == nearest_in(l2, hits).0,
    decreases hits.len(),
{
    if hits.len() > 0 {
        lemma_nearest_value(l1, l2, hits.drop_last());
    }
}

/// `<` is a strict weak order on the intersections in `hits`: irreflexive,
/// transitive, and whenever `a < c`, any `b` is above `a` or below `c`. This
/// is `<` on distances when none of them is NaN.
pub open spec fn weak_order_on<T: PartialOrd>(hits: Seq<Option<T>>) -> bool {
    forall|i: int, j: int, k: int|
        #![trigger hits[i], hits[j], hits[k]]
        0 <= i < hits.len() && 0 <= j < hits.len() && 0 <= k < hits.len() && hits[i] is Some
            && hits[j] is Some && hits[k] is Some ==> {
            let a = hits[i].unwrap();
            let b = hits[j].unwrap();
            let c = hits[k].unwrap();
            &&& !precedes(a, a)
            &&& precedes(a, b) && precedes(b, c) ==> precedes(a, c)
            &&& precedes(a, c) ==> precedes(a, b) || precedes(b, c)
        }
}

/// Keeping the nearer of two intersections has no intersection as its
/// identity on both sides, and, where `<` is a strict weak order on the
/// three intersections at hand, it does not depend on which two are compared
/// first.
pub proof fn lemma_nearer_associative<T: PartialOrd>(a: Option<T>, b: Option<T>, c: Option<T>)
    ensures
        nearer(None, b).0 == b,
        nearer(a, None).0 == a,
        weak_order_on(seq![a, b, c]) ==> nearer(nearer(a, b).0, c).0 == nearer(a, nearer(b, c).0).0,
{
    let s = seq![a, b, c];
    if weak_order_on(s) && a is Some && b is Some && c is Some {
        assert(s[0] == a && s[1] == b && s[2] == c);
        let (x, y, z) = (a.unwrap(), b.unwrap(), c.unwrap());
        if precedes(z, x) {
            assert(precedes(z, y) || precedes(y, x));
        }
        if precedes(z, y) && precedes(y, x) {
            assert(precedes(z, x));
        }
    }
}

/// A strict weak order on all of `T` is one on any intersections.
pub proof fn lemma_weak_order_on<T: PartialOrd>(hits: Seq<Option<T>>)
    requires
        strict_weak_order::<T>(),
    ensures
        weak_order_on(hits),
{
}

/// The sweep finds no intersection exactly when every entry is a miss,
/// whatever the order.
pub proof fn lemma_nearest_none<T: PartialOrd>(level: Seq<usize>, hits: Seq<Option<T>>)
    ensures
        nearest_in(level, hits).0 is None <==> all_missed(hits),
    decreases hits.len(),
{
    if hits.len() > 0 {
        let h = hits.drop_last();
        lemma_nearest_none(level, h);
        assert forall|k: int| 0 <= k < h.len() implies #[trigger] h[k] == hits[k] by {}
        assert(hits.last() == hits[hits.len() - 1]);
        if !all_missed(h) {
            let k = choose|k: int| 0 <= k < h.len() && !(#[trigger] h[k] is None);
            assert(hits[k] is Some);
        }
        if all_missed(h) && hits.last() is None {
            assert forall|k: int| 0 <= k < hits.len() implies #[trigger] hits[k] is None by {
                if k < h.len() {
                    assert(h[k] is None);
                }
            }
        }
    }
}

/// Where `<` is a strict weak order on the intersections, the sweep keeps
/// the first of the nearest ones: when there is an intersection it is the
/// entry at some position `k`, whose primitive is the one recorded; no entry
/// is strictly nearer, and every intersection before `k` is strictly farther.
pub proof fn lemma_nearest_first_minimal<T: PartialOrd>(level: Seq<usize>, hits: Seq<Option<T>>)
    requires
        level.len() == hits.len(),
        weak_order_on(hits),
    ensures
        ({
            let (found, index) = nearest_in(level, hits);
            found is Some ==> exists|k: int|
                #![trigger hits[k]]
                0 <= k < hits.len() && hits[k] == found && index == Some(level[k]) && (forall|j: int|
                    0 <= j < k && #[trigger] hits[j] is Some ==> precedes(found.unwrap(), hits[j].unwrap()))
                    && (forall|j: int|
                    0 <= j < hits.len() && #[trigger] hits[j] is Some ==> !precedes(
                        hits[j].unwrap(),
                        found.unwrap(),
                    ))
        }),
    decreases hits.len(),
{
    if hits.len() > 0 {
        let n = hits.len() - 1;
        let prev = hits.drop_last();
        let lv = level.drop_last();
        assert forall|k: int| #![trigger prev[k]] 0 <= k < n implies prev[k] == hits[k] by {}
        assert forall|i: int, j: int, k: int|
            #![trigger prev[i], prev[j], prev[k]]
            0 <= i < prev.len() && 0 <= j < prev.len() && 0 <= k < prev.len() && prev[i] is Some
                && prev[j] is Some && prev[k] is Some implies {
            let a = prev[i].unwrap();
            let b = prev[j].unwrap();
            let c = prev[k].unwrap();
            &&& !precedes(a, a)
            &&& precedes(a, b) && precedes(b, c) ==> precedes(a, c)
            &&& precedes(a, c) ==> precedes(a, b) || precedes(b, c)
        } by {
            assert(hits[i] == prev[i] && hits[j] == prev[j] && hits[k] == prev[k]);
        }
        lemma_nearest_first_minimal(lv, prev);
        lemma_nearest_value(level, lv, prev);
        lemma_nearest_index(level, lv, prev);
        lemma_nearest_none(level, prev);
        let p = nearest_in(level, prev);
        let last = hits[n];
        assert(hits.last() == last);
        let r = nearest_in(level, hits);
        if p.0 is None {
            assert(r == (last, Some(level[n])));
            if last is Some {
                assert forall|j: int| 0 <= j < n implies #[trigger] hits[j] is None by {
                    assert(prev[j] is None);
                }
                assert(hits[n] is Some);
                assert(0 <= n < hits.len() && hits[n] == r.0 && r.1 == Some(level[n]));
            }
        } else {
            let k0 = choose|k: int|
                #![trigger prev[k]]
                0 <= k < prev.len() && prev[k] == p.0 && p.1 == Some(lv[k]) && (forall|j: int|
                    0 <= j < k && #[trigger] prev[j] is Some ==> precedes(p.0.unwrap(), prev[j].unwrap()))
                    && (forall|j: int|
                    0 <= j < prev.len() && #[trigger] prev[j] is Some ==> !precedes(
                        prev[j].unwrap(),
                        p.0.unwrap(),
                    ));
            assert(hits[k0] == p.0);
            assert(lv[k0] == level[k0]);
            if last is Some && precedes(last.unwrap(), p.0.unwrap()) {
                assert(r == (last, Some(level[n])));
                assert forall|j: int| 0 <= j < n && #[trigger] hits[j] is Some implies precedes(
                    last.unwrap(),
                    hits[j].unwrap(),
                ) by {
                    assert(prev[j] is Some);
                    assert(!precedes(hits[j].unwrap(), p.0.unwrap()));
                    assert(hits[n] is Some && hits[k0] is Some);
                }
                assert forall|j: int| 0 <= j < hits.len() && #[trigger] hits[j] is Some implies !precedes(
                    hits[j].unwrap(),
                    last.unwrap(),
                ) by {
                    assert(hits[n] is Some && hits[k0] is Some);
                    if j < n {
                        assert(prev[j] is Some);
                        assert(!precedes(hits[j].unwrap(), p.0.unwrap()));
                    }
                }
                assert(0 <= n < hits.len() && hits[n] == r.0 && r.1 == Some(level[n]));
            } else {
                assert(r == p);
                assert forall|j: int| 0 <= j < k0 && #[trigger] hits[j] is Some implies precedes(
                    p.0.unwrap(),
                    hits[j].unwrap(),
                ) by {
                    assert(prev[j] is Some);
                }
                assert forall|j: int| 0 <= j < hits.len() && #[trigger] hits[j] is Some implies !precedes(
                    hits[j].unwrap(),
                    p.0.unwrap(),
                ) by {
                    if j < n {
                        assert(prev[j] is Some);
                    }
                }
            }
        }
    }
}

/// Which list of primitives a sweep's hits come from changes only which
/// primitive is recorded, not the positions: the record is the primitive at
/// the same position of the other list.
pub proof fn lemma_nearest_index<T: PartialOrd>(l1: Seq<usize>, l2: Seq<usize>, hits: Seq<Option<T>>)
    requires
        hits.len() <= l1.len(),
        hits.len() <= l2.len(),
        forall|k: int| 0 <= k < hits.len() ==> #[trigger] l1[k] == l2[k],
    ensures
        nearest_in(l1, hits) == nearest_in(l2, hits),
    decreases hits.len(),
{
    if hits.len() > 0 {
        lemma_nearest_index(l1, l2, hits.drop_last());
    }
}

/// Whatever the order, the intersection a sweep finds is one of the entries.
pub proof fn lemma_nearest_is_an_entry<T: PartialOrd>(level: Seq<usize>, hits: Seq<Option<T>>)
    ensures
        nearest_in(level, hits).0 is Some ==> exists|k: int|
            0 <= k < hits.len() && #[trigger] hits[k] == nearest_in(level, hits).0,
    decreases hits.len(),
{
    if hits.len() > 0 {
        let h = hits.drop_last();
        lemma_nearest_is_an_entry(level, h);
        let p = nearest_in(level, h).0;
        let r = nearest_in(level, hits).0;
        assert(hits.last() == hits[hits.len() - 1]);
        if r is Some && r != hits.last() {
            assert(r == p);
            let k = choose|k: int| 0 <= k < h.len() && #[trigger] h[k] == p;
            assert(hits[k] == h[k]);
        }
    }
}

/// A strict weak order on some intersections is one on any intersections
/// drawn from them.
pub proof fn lemma_weak_order_sub<T: PartialOrd>(h: Seq<Option<T>>, g: Seq<Option<T>>)
    requires
        weak_order_on(h),
        forall|k: int|
            0 <= k < g.len() && #[trigger] g[k] is Some ==> exists|j: int|
                0 <= j < h.len() && #[trigger] h[j] == g[k],
    ensures
        weak_order_on(g),
{
    assert forall|i: int, j: int, k: int|
        #![trigger g[i], g[j], g[k]]
        0 <= i < g.len() && 0 <= j < g.len() && 0 <= k < g.len() && g[i] is Some && g[j] is Some
            && g[k] is Some implies {
        let a = g[i].unwrap();
        let b = g[j].unwrap();
        let c = g[k].unwrap();
        &&& !precedes(a, a)
        &&& precedes(a, b) && precedes(b, c) ==> precedes(a, c)
        &&& precedes(a, c) ==> precedes(a, b) || precedes(b, c)
    } by {
        let i2 = choose|x: int| 0 <= x < h.len() && #[trigger] h[x] == g[i];
        let j2 = choose|x: int| 0 <= x < h.len() && #[trigger] h[x] == g[j];
        let k2 = choose|x: int| 0 <= x < h.len() && #[trigger] h[x] == g[k];
        assert(h[i2] is Some && h[j2] is Some && h[k2] is Some);
    }
}

/// Where `<` is a strict weak order on the intersections at hand, sweeping
/// two lists one after the other finds the nearer of what the two sweeps find
/// on their own.
pub proof fn lemma_nearest_concat<T: PartialOrd>(
    la: Seq<usize>,
    ha: Seq<Option<T>>,
    lb: Seq<usize>,
    hb: Seq<Option<T>>,
)
    requires
        weak_order_on(ha + hb),
    ensures
        nearest_in(la + lb, ha + hb).0 == nearer(nearest_in(la, ha).0, nearest_in(lb, hb).0).0,
    decreases hb.len(),
{
    lemma_nearest_value(la + lb, la, ha);
    if hb.len() == 0 {
        assert(ha + hb =~= ha);
    } else {
        let hb0 = hb.drop_last();
        let all = ha + hb;
        let front = ha + hb0;
        assert forall|k: int| 0 <= k < front.len() && #[trigger] front[k] is Some implies exists|j: int|
            0 <= j < all.len() && #[trigger] all[j] == front[k] by {
            assert(all[k] == front[k]);
        }
        lemma_weak_order_sub(all, front);
        lemma_nearest_concat(la, ha, lb, hb0);
        assert(all.drop_last() =~= front);
        assert(all.last() == hb.last());
        let (x, y, z) = (nearest_in(la, ha).0, nearest_in(lb, hb0).0, hb.last());
        lemma_nearest_is_an_entry(la, ha);
        lemma_nearest_is_an_entry(lb, hb0);
        let three = seq![x, y, z];
        assert forall|k: int| 0 <= k < three.len() && #[trigger] three[k] is Some implies exists|j: int|
            0 <= j < all.len() && #[trigger] all[j] == three[k] by {
            if k == 0 {
                let i = choose|i: int| 0 <= i < ha.len() && #[trigger] ha[i] == x;
                assert(all[i] == ha[i]);
            } else if k == 1 {
                let i = choose|i: int| 0 <= i < hb0.len() && #[trigger] hb0[i] == y;
                assert(all[ha.len() + i] == hb0[i]);
            } else {
                assert(all[all.len() - 1] == z);
            }
        }
        lemma_weak_order_sub(all, three);
        lemma_nearer_associative(x, y, z);
    }
}

/// The triangle `r` is `t` with every corner moved by `transform` and its
/// normal information carried over as `transform_triangle` carries it.
pub open spec fn transformed_triangle<V, FP: Fn(&V) -> V, FV: Fn(&V) -> V>(
    t: Triangle<V>,
    transform: FP,
    transform_vec: FV,
    r: Triangle<V>,
) -> bool {
    &&& forall|k: int| 0 <= k < 3 ==> call_ensures(transform, (&t.points[k],), #[trigger] r.points[k])
    &&& match t.normal_direction {
        NormalType::FaceNormal(n) => r.normal_direction matches NormalType::FaceNormal(m)
            && call_ensures(transform_vec, (&n,), m),
        NormalType::VertexNormals(ns) => r.normal_direction == NormalType::VertexNormals(ns),
        NormalType::Inferred => false,
    }
}

/// Whatever the normal information, every corner of a moved triangle is the
/// point transform of the same corner of the original; per-corner normals are
/// kept and a face normal goes through the direction transform.
pub proof fn lemma_transformed_corners<V, FP: Fn(&V) -> V, FV: Fn(&V) -> V>(
    t: Triangle<V>,
    transform: FP,
    transform_vec: FV,
    r: Triangle<V>,
)
    requires
        transformed_triangle(t, transform, transform_vec, r),
    ensures
        forall|k: int| 0 <= k < 3 ==> call_ensures(transform, (&t.points[k],), #[trigger] r.points[k]),
        t.normal_direction is VertexNormals ==> r.normal_direction == t.normal_direction,
        t.normal_direction is FaceNormal ==> r.normal_direction is FaceNormal && call_ensures(
            transform_vec,
            (&t.normal_direction->FaceNormal_0,),
            r.normal_direction->FaceNormal_0,
        ),
{
}

/// Moves a triangle: each corner goes through `transform` (a point
/// transform), a face normal goes through `transform_vec` (a direction
/// transform), and per-corner normals are kept as they are. A triangle whose
/// normal is to be inferred is not handled.
pub fn transform_triangle<V: Copy, FP: Fn(&V) -> V, FV: Fn(&V) -> V>(
    transform: &FP,
    transform_vec: &FV,
    t: &Triangle<V>,
) -> (r: Triangle<V>)
    requires
        !(t.normal_direction is Inferred),
        forall|v: &V| call_requires(*transform, (v,)),
        forall|v: &V| call_requires(*transform_vec, (v,)),
    ensures
        transformed_triangle(*t, *transform, *transform_vec, r),
        forall|k: int| 0 <= k < 3 ==> call_ensures(*transform, (&t.points[k],), #[trigger] r.points[k]),
        t.normal_direction is VertexNormals ==> r.normal_direction == t.normal_direction,
        t.normal_direction is FaceNormal ==> r.normal_direction is FaceNormal && call_ensures(
            *transform_vec,
            (&t.normal_direction->FaceNormal_0,),
            r.normal_direction->FaceNormal_0,
        ),
{
    let points = [transform(&t.points[0]), transform(&t.points[1]), transform(&t.points[2])];
    match t.normal_direction {
        NormalType::FaceNormal(n) => {
            Triangle::create(points, NormalType::FaceNormal(transform_vec(&n)))
        },
        NormalType::VertexNormals(v) => { Triangle::create(points, NormalType::VertexNormals(v)) },
        NormalType::Inferred => unreached(),
    }
}


/// No triangle of the mesh leaves its normal to be inferred.
pub open spec fn normals_given<V>(m: Seq<Triangle<V>>) -> bool {
    forall|t: int| 0 <= t < m.len() ==> !(#[trigger] m[t].normal_direction is Inferred)
}

/// Moves every triangle of a mesh with `transform_triangle`, keeping their
/// order.
pub fn transform_mesh<V: Copy, FP: Fn(&V) -> V, FV: Fn(&V) -> V>(
    transform: &FP,
    transform_vec: &FV,
    m: &TriangleMesh<V>,
) -> (r: TriangleMesh<V>)
    requires
        normals_given(m.mesh@),
        forall|v: &V| call_requires(*transform, (v,)),
        forall|v: &V| call_requires(*transform_vec, (v,)),
    ensures
        r.mesh.len() == m.mesh.len(),
        forall|t: int|
            0 <= t < m.mesh.len() ==> transformed_triangle(
                #[trigger] m.mesh@[t],
                *transform,
                *transform_vec,
                r.mesh@[t],
            ),
        forall|t: int, k: int|
            0 <= t < m.mesh.len() && 0 <= k < 3 ==> call_ensures(
                *transform,
                (&m.mesh@[t].points[k],),
                #[trigger] r.mesh@[t].points[k],
            ),
        forall|t: int|
            0 <= t < m.mesh.len() && (#[trigger] m.mesh@[t]).normal_direction is VertexNormals
                ==> r.mesh@[t].normal_direction == m.mesh@[t].normal_direction,
{
    let mut mesh: Vec<Triangle<V>> = Vec::new();
    let n = m.mesh.len();
    let mut index: usize = 0;
    while index < n
        invariant
            n == m.mesh.len(),
            index <= n,
            mesh.len() == index,
            normals_given(m.mesh@),
            forall|v: &V| call_requires(*transform, (v,)),
            forall|v: &V| call_requires(*transform_vec, (v,)),
            forall|t: int|
                0 <= t < index ==> transformed_triangle(
                    #[trigger] m.mesh@[t],
                    *transform,
                    *transform_vec,
                    mesh@[t],
                ),
        decreases n - index,
    {
        assert(!(m.mesh@[index as int].normal_direction is Inferred));
        mesh.push(transform_triangle(transform, transform_vec, &m.mesh[index]));
        index = index + 1;
    }
    proof {
        assert forall|t: int, k: int| 0 <= t < m.mesh.len() && 0 <= k < 3 implies call_ensures(
            *transform,
            (&m.mesh@[t].points[k],),
            #[trigger] mesh@[t].points[k],
        ) by {
            lemma_transformed_corners(m.mesh@[t], *transform, *transform_vec, mesh@[t]);
        }
        assert forall|t: int|
            0 <= t < m.mesh.len() && (#[trigger] m.mesh@[t]).normal_direction is VertexNormals implies mesh@[t].normal_direction
                == m.mesh@[t].normal_direction by {
            lemma_transformed_corners(m.mesh@[t], *transform, *transform_vec, mesh@[t]);
        }
    }
    TriangleMesh::create_from(mesh)
}

} // verus!
