use vstd::prelude::*;
use vstd::multiset::Multiset;
use crate::primitives::{
    all_missed, lawful_order, lemma_nearest_concat, lemma_nearest_first_minimal,
    lemma_nearest_none, lemma_nearest_of_misses, lemma_weak_order_sub, min_intersection, nearer,
    nearest_hit, nearest_in, precedes, weak_order_on,
};

verus! {

broadcast use vstd::seq_lib::group_to_multiset_ensures, vstd::multiset::group_multiset_axioms;

/// A node with at most this many primitives is not split further.
pub const MIN_PRIMITIVES: usize = 5;

/// The number of buckets a level's centroids are sorted into.
pub const N_BUCKETS: usize = 12;

/// The bucket of a primitive with split key `key`: keys past the last bucket
/// land in the last one.
pub open spec fn bucket_of(key: i32, n_buckets: int) -> int {
    if key < n_buckets - 1 {
        key as int
    } else {
        n_buckets - 1
    }
}

/// How many of `keys` land in bucket `b`.
pub open spec fn bucket_count(keys: Seq<i32>, n_buckets: int, b: int) -> int
    decreases keys.len(),
{
    if keys.len() == 0 {
        0
    } else {
        bucket_count(keys.drop_last(), n_buckets, b) + if bucket_of(keys.last(), n_buckets) == b {
            1int
        } else {
            0int
        }
    }
}

/// The keys equal to `b`.
pub open spec fn key_is(b: int) -> spec_fn(i32) -> bool {
    |k: i32| k == b
}

/// The keys of at least `b`.
pub open spec fn key_at_least(b: int) -> spec_fn(i32) -> bool {
    |k: i32| k >= b
}

/// Each bucket but the last counts exactly the keys equal to its number; the
/// last bucket counts every key from its number up.
pub proof fn lemma_bucket_count_of_keys(keys: Seq<i32>, n_buckets: int, b: int)
    requires
        n_buckets > 0,
        0 <= b < n_buckets,
    ensures
        b < n_buckets - 1 ==> bucket_count(keys, n_buckets, b) == keys.filter(key_is(b)).len(),
        b == n_buckets - 1 ==> bucket_count(keys, n_buckets, b) == keys.filter(
            key_at_least(n_buckets - 1),
        ).len(),
    decreases keys.len(),
{
    reveal(Seq::filter);
    if keys.len() > 0 {
        lemma_bucket_count_of_keys(keys.drop_last(), n_buckets, b);
    }
}

/// Counts the primitives of a level per bucket, given the split key of each.
pub fn bucket_counts(keys: &Vec<i32>, n_buckets: usize) -> (r: Vec<i32>)
    requires
        n_buckets > 0,
        keys.len() <= i32::MAX,
        forall|k: int| 0 <= k < keys.len() ==> #[trigger] keys@[k] >= 0,
    ensures
        r.len() == n_buckets,
        forall|b: int| 0 <= b < n_buckets ==> #[trigger] r@[b] == bucket_count(keys@, n_buckets as int, b),
        forall|b: int| 0 <= b < n_buckets - 1 ==> #[trigger] r@[b] == keys@.filter(key_is(b)).len(),
        r@[n_buckets - 1] == keys@.filter(key_at_least(n_buckets - 1)).len(),
{
    let mut counts: Vec<i32> = Vec::new();
    let mut b: usize = 0;
    while b < n_buckets
        invariant
            b <= n_buckets,
            counts.len() == b,
            forall|j: int| 0 <= j < b ==> #[trigger] counts@[j] == 0,
        decreases n_buckets - b,
    {
        counts.push(0);
        b = b + 1;
    }
    let n = keys.len();
    let mut k: usize = 0;
    while k < n
        invariant
            n == keys.len(),
            n <= i32::MAX,
            n_buckets > 0,
            k <= n,
            counts.len() == n_buckets,
            forall|j: int| 0 <= j < n ==> #[trigger] keys@[j] >= 0,
            forall|j: int|
                0 <= j < n_buckets ==> #[trigger] counts@[j] == bucket_count(
                    keys@.take(k as int),
                    n_buckets as int,
                    j,
                ),
            forall|j: int| 0 <= j < n_buckets ==> 0 <= #[trigger] counts@[j] <= k,
        decreases n - k,
    {
        let key = keys[k];
        let slot: usize = if (key as usize) < n_buckets - 1 {
            key as usize
        } else {
            n_buckets - 1
        };
        proof {
            assert(keys@.take(k + 1).drop_last() =~= keys@.take(k as int));
            assert(slot == bucket_of(key, n_buckets as int));
        }
        let c = counts[slot];
        counts.set(slot, c + 1);
        k = k + 1;
    }
    proof {
        assert(keys@.take(n as int) =~= keys@);
        assert forall|b: int| 0 <= b < n_buckets - 1 implies #[trigger] counts@[b] == keys@.filter(
            key_is(b),
        ).len() by {
            lemma_bucket_count_of_keys(keys@, n_buckets as int, b);
        }
        lemma_bucket_count_of_keys(keys@, n_buckets as int, n_buckets - 1);
    }
    counts
}

/// The sum of a list of counts.
pub open spec fn total(counts: Seq<i32>) -> int
    decreases counts.len(),
{
    if counts.len() == 0 {
        0
    } else {
        total(counts.drop_last()) + counts.last()
    }
}

/// For each place to split the buckets (after bucket `i`), how many
/// primitives fall on each side: those of buckets `0..=i` and those of the
/// buckets after `i`.
pub fn split_counts(counts: &Vec<i32>) -> (r: Vec<(i32, i32)>)
    requires
        forall|b: int| 0 <= b < counts.len() ==> #[trigger] counts@[b] >= 0,
        total(counts@) <= i32::MAX,
    ensures
        r.len() == counts.len(),
        forall|i: int|
            0 <= i < counts.len() ==> #[trigger] r@[i] == (
                total(counts@.take(i + 1)) as i32,
                total(counts@.skip(i + 1)) as i32,
            ),
        forall|i: int| 0 <= i < counts.len() ==> (#[trigger] r@[i]).0 + r@[i].1 == total(counts@),
        counts.len() > 0 ==> r@[0].0 == counts@[0],
        forall|j: int, k: int|
            0 <= j && k == j + 1 && k < counts.len() ==> (#[trigger] r@[k]).0 == (#[trigger] r@[j]).0
                + counts@[k],
{
    let n = counts.len();
    let mut r: Vec<(i32, i32)> = Vec::new();
    let mut i: usize = 0;
    while i < n
        invariant
            n == counts.len(),
            i <= n,
            r.len() == i,
            forall|b: int| 0 <= b < n ==> #[trigger] counts@[b] >= 0,
            total(counts@) <= i32::MAX,
            forall|j: int|
                0 <= j < i ==> #[trigger] r@[j] == (
                    total(counts@.take(j + 1)) as i32,
                    total(counts@.skip(j + 1)) as i32,
                ),
        decreases n - i,
    {
        let mut left_count: i32 = 0;
        let mut right_count: i32 = 0;
        let mut j: usize = 0;
        while j < n
            invariant
                n == counts.len(),
                i < n,
                j <= n,
                forall|b: int| 0 <= b < n ==> #[trigger] counts@[b] >= 0,
                total(counts@) <= i32::MAX,
                left_count == total(counts@.take(if j <= i + 1 { j as int } else { i + 1 })),
                right_count == total(counts@.subrange(i + 1, if j <= i + 1 { i + 1 } else { j as int })),
            decreases n - j,
        {
            proof {
                lemma_total_split(counts@, i + 1, j as int);
            }
            if j <= i {
                left_count = left_count + counts[j];
            } else {
                right_count = right_count + counts[j];
            }
            j = j + 1;
        }
        proof {
            assert(counts@.subrange(i + 1, n as int) =~= counts@.skip(i + 1));
        }
        r.push((left_count, right_count));
        i = i + 1;
    }
    proof {
        assert forall|i: int| 0 <= i < counts.len() implies (#[trigger] r@[i]).0 + r@[i].1 == total(
            counts@,
        ) by {
            lemma_split_sides_sum(counts@, i);
            lemma_total_part(counts@, 0, i + 1);
            lemma_total_part(counts@, i + 1, counts.len() as int);
            assert(counts@.subrange(i + 1, counts.len() as int) =~= counts@.skip(i + 1));
        }
        if n > 0 {
            assert(counts@.take(1).drop_last() =~= counts@.take(0));
            assert(counts@.take(1).last() == counts@[0]);
            assert(total(counts@.take(0)) == 0);
            lemma_total_part(counts@, 0, 1);
            assert(r@[0].0 == total(counts@.take(1)) as i32);
        }
        assert forall|j: int, k: int|
            0 <= j && k == j + 1 && k < counts.len() implies (#[trigger] r@[k]).0 == (#[trigger] r@[j]).0
                + counts@[k] by {
            assert(counts@.take(k + 1).drop_last() =~= counts@.take(k));
            assert(counts@.take(k + 1).last() == counts@[k]);
            lemma_total_part(counts@, 0, k + 1);
            lemma_total_part(counts@, 0, k);
        }
    }
    r
}

/// Totals of non-negative counts: a prefix and a following stretch add up to
/// no more than the whole, and extending either by one entry adds that entry.
proof fn lemma_total_split(counts: Seq<i32>, mid: int, j: int)
    requires
        0 <= mid <= counts.len(),
        0 <= j < counts.len(),
        forall|b: int| 0 <= b < counts.len() ==> #[trigger] counts[b] >= 0,
    ensures
        j < mid ==> total(counts.take(j + 1)) == total(counts.take(j)) + counts[j],
        mid <= j ==> total(counts.subrange(mid, j + 1)) == total(counts.subrange(mid, j))
            + counts[j],
        j < mid ==> total(counts.take(j + 1)) <= total(counts),
        mid <= j ==> total(counts.subrange(mid, j + 1)) <= total(counts),
{
    assert(counts.take(j + 1).drop_last() =~= counts.take(j));
    if mid <= j {
        assert(counts.subrange(mid, j + 1).drop_last() =~= counts.subrange(mid, j));
    }
    lemma_total_part(counts, 0, j + 1);
    if mid <= j {
        lemma_total_part(counts, mid, j + 1);
    }
}

/// A stretch of non-negative counts totals no more than the whole list.
proof fn lemma_total_part(counts: Seq<i32>, lo: int, hi: int)
    requires
        0 <= lo <= hi <= counts.len(),
        forall|b: int| 0 <= b < counts.len() ==> #[trigger] counts[b] >= 0,
    ensures
        0 <= total(counts.subrange(lo, hi)) <= total(counts),
        lo == 0 ==> counts.subrange(lo, hi) == counts.take(hi),
    decreases counts.len(),
{
    if lo == 0 {
        assert(counts.subrange(lo, hi) =~= counts.take(hi));
    }
    if counts.len() > 0 {
        let init = counts.drop_last();
        if hi == counts.len() {
            if lo < hi {
                assert(counts.subrange(lo, hi).drop_last() =~= init.subrange(lo, hi - 1));
                lemma_total_part(init, lo, hi - 1);
            } else {
                assert(counts.subrange(lo, hi) =~= Seq::<i32>::empty());
                lemma_total_part(init, 0, 0);
                assert(init.subrange(0, 0) =~= Seq::<i32>::empty());
            }
        } else {
            assert(counts.subrange(lo, hi) =~= init.subrange(lo, hi));
            lemma_total_part(init, lo, hi);
        }
    }
}

/// The totals of two lists laid end to end add up.
pub proof fn lemma_total_concat(a: Seq<i32>, b: Seq<i32>)
    ensures
        total(a + b) == total(a) + total(b),
    decreases b.len(),
{
    if b.len() == 0 {
        assert(a + b =~= a);
    } else {
        lemma_total_concat(a, b.drop_last());
        assert((a + b).drop_last() =~= a + b.drop_last());
        assert((a + b).last() == b.last());
    }
}

/// Wherever the buckets are split, the two sides hold all the primitives
/// counted between them.
pub proof fn lemma_split_sides_sum(counts: Seq<i32>, i: int)
    requires
        0 <= i < counts.len(),
    ensures
        total(counts.take(i + 1)) + total(counts.skip(i + 1)) == total(counts),
{
    lemma_total_concat(counts.take(i + 1), counts.skip(i + 1));
    assert(counts.take(i + 1) + counts.skip(i + 1) =~= counts);
}

/// The bucket counts of `keys` over the first `upto` buckets, added up.
pub open spec fn counted(keys: Seq<i32>, n_buckets: int, upto: int) -> int
    decreases upto,
{
    if upto <= 0 {
        0
    } else {
        counted(keys, n_buckets, upto - 1) + bucket_count(keys, n_buckets, upto - 1)
    }
}

/// Every non-negative key lands in exactly one bucket, so the buckets
/// together count every primitive of the level once.
pub proof fn lemma_buckets_count_everything(keys: Seq<i32>, n_buckets: int)
    requires
        n_buckets > 0,
        forall|k: int| 0 <= k < keys.len() ==> #[trigger] keys[k] >= 0,
    ensures
        counted(keys, n_buckets, n_buckets) == keys.len(),
    decreases keys.len(),
{
    if keys.len() == 0 {
        lemma_counted_nothing(keys, n_buckets, n_buckets);
    } else {
        let init = keys.drop_last();
        assert forall|k: int| 0 <= k < init.len() implies #[trigger] init[k] >= 0 by {
            assert(init[k] == keys[k]);
        }
        lemma_buckets_count_everything(init, n_buckets);
        let b = bucket_of(keys.last(), n_buckets);
        assert(keys.last() == keys[keys.len() - 1]);
        assert(0 <= b < n_buckets);
        lemma_counted_step(keys, n_buckets, b, n_buckets);
    }
}

/// No keys, nothing counted.
proof fn lemma_counted_nothing(keys: Seq<i32>, n_buckets: int, upto: int)
    requires
        keys.len() == 0,
    ensures
        counted(keys, n_buckets, upto) == 0,
    decreases upto,
{
    if upto > 0 {
        lemma_counted_nothing(keys, n_buckets, upto - 1);
    }
}

/// Adding one key to a list raises the running bucket total over the first
/// `upto` buckets by one exactly when its bucket is among them.
proof fn lemma_counted_step(keys: Seq<i32>, n_buckets: int, b: int, upto: int)
    requires
        keys.len() > 0,
        b == bucket_of(keys.last(), n_buckets),
        0 <= upto <= n_buckets,
    ensures
        counted(keys, n_buckets, upto) == counted(keys.drop_last(), n_buckets, upto) + if 0 <= b
            < upto {
            1int
        } else {
            0int
        },
    decreases upto,
{
    if upto > 0 {
        lemma_counted_step(keys, n_buckets, b, upto - 1);
    }
}

/// A primitive whose split key is at most `min_index` goes to the left child.
pub open spec fn goes_left(key: Option<i64>, min_index: i64) -> bool {
    key matches Some(v) && v <= min_index
}

/// A primitive whose split key exceeds `min_index` goes to the right child.
/// A primitive without a key (its centroid offset was not a number) goes to
/// neither child.
pub open spec fn goes_right(key: Option<i64>, min_index: i64) -> bool {
    key matches Some(v) && v > min_index
}

/// The entries of `level` that go to the left (`left`) or right (`!left`)
/// child, in their order in `level`; `keys[k]` is the split key of `level[k]`.
pub open spec fn side_of(level: Seq<usize>, keys: Seq<Option<i64>>, min_index: i64, left: bool) -> Seq<
    usize,
>
    decreases level.len(),
{
    if level.len() == 0 {
        seq![]
    } else {
        let rest = side_of(level.drop_last(), keys.take(level.len() - 1), min_index, left);
        let key = keys[level.len() - 1];
        if (left && goes_left(key, min_index)) || (!left && goes_right(key, min_index)) {
            rest.push(level.last())
        } else {
            rest
        }
    }
}

/// Splits the primitives of a level between the two children: those whose key
/// is at most `min_index` go left, those whose key exceeds it go right, each
/// side keeping the order of `primitives_at_level`.
pub fn partition_level(primitives_at_level: &Vec<usize>, keys: &Vec<Option<i64>>, min_index: i64) -> (r: (
    Vec<usize>,
    Vec<usize>,
))
    requires
        keys.len() == primitives_at_level.len(),
    ensures
        r.0@ == side_of(primitives_at_level@, keys@, min_index, true),
        r.1@ == side_of(primitives_at_level@, keys@, min_index, false),
        r.0@ == Seq::new(primitives_at_level.len() as nat, |k: int| k).filter_map(
            |k: int|
                match keys@[k] {
                    Some(v) => if v <= min_index {
                        Some(primitives_at_level@[k])
                    } else {
                        None
                    },
                    None => None,
                },
        ),
        r.1@ == Seq::new(primitives_at_level.len() as nat, |k: int| k).filter_map(
            |k: int|
                match keys@[k] {
                    Some(v) => if v > min_index {
                        Some(primitives_at_level@[k])
                    } else {
                        None
                    },
                    None => None,
                },
        ),
{
    let mut left: Vec<usize> = Vec::new();
    let mut right: Vec<usize> = Vec::new();
    let n = primitives_at_level.len();
    let mut k: usize = 0;
    while k < n
        invariant
            n == primitives_at_level.len(),
            keys.len() == n,
            k <= n,
            left@ == side_of(primitives_at_level@.take(k as int), keys@.take(k as int), min_index, true),
            right@ == side_of(primitives_at_level@.take(k as int), keys@.take(k as int), min_index, false),
        decreases n - k,
    {
        let ghost lv = primitives_at_level@.take(k + 1);
        let ghost ks = keys@.take(k + 1);
        proof {
            assert(lv.drop_last() =~= primitives_at_level@.take(k as int));
            assert(ks.take(lv.len() - 1) =~= keys@.take(k as int));
        }
        match keys[k] {
            Some(v) => {
                if v <= min_index {
                    left.push(primitives_at_level[k]);
                } else {
                    right.push(primitives_at_level[k]);
                }
            },
            None => {},
        }
        k = k + 1;
    }
    proof {
        assert(primitives_at_level@.take(n as int) =~= primitives_at_level@);
        assert(keys@.take(n as int) =~= keys@);
        lemma_side_of_positions(primitives_at_level@, keys@, min_index, true);
        lemma_side_of_positions(primitives_at_level@, keys@, min_index, false);
    }
    (left, right)
}

/// Each side holds exactly the entries of the level whose key is a number at
/// most `min_index` (left) or greater than it (right), in their order in the
/// level: it is what remains of the level's positions once every other one is
/// dropped.
pub proof fn lemma_side_of_positions(level: Seq<usize>, keys: Seq<Option<i64>>, min_index: i64, left: bool)
    requires
        keys.len() == level.len(),
    ensures
        left ==> side_of(level, keys, min_index, left) == Seq::new(level.len(), |k: int| k).filter_map(
            |k: int|
                match keys[k] {
                    Some(v) => if v <= min_index {
                        Some(level[k])
                    } else {
                        None
                    },
                    None => None,
                },
        ),
        !left ==> side_of(level, keys, min_index, left) == Seq::new(level.len(), |k: int| k).filter_map(
            |k: int|
                match keys[k] {
                    Some(v) => if v > min_index {
                        Some(level[k])
                    } else {
                        None
                    },
                    None => None,
                },
        ),
    decreases level.len(),
{
    let f = |k: int|
        match keys[k] {
            Some(v) => if (left && v <= min_index) || (!left && v > min_index) {
                Some(level[k])
            } else {
                None
            },
            None => None,
        };
    let fl = |k: int|
        match keys[k] {
            Some(v) => if v <= min_index {
                Some(level[k])
            } else {
                None
            },
            None => None,
        };
    let fr = |k: int|
        match keys[k] {
            Some(v) => if v > min_index {
                Some(level[k])
            } else {
                None
            },
            None => None,
        };
    let idx = Seq::new(level.len(), |k: int| k);
    lemma_side_of_selected(level, keys, min_index, left);
    if left {
        lemma_filter_map_agree(idx, f, fl);
    } else {
        lemma_filter_map_agree(idx, f, fr);
    }
}

/// Each side is what remains of the level's positions once those whose key
/// does not fit the side are dropped.
proof fn lemma_side_of_selected(level: Seq<usize>, keys: Seq<Option<i64>>, min_index: i64, left: bool)
    requires
        keys.len() == level.len(),
    ensures
        side_of(level, keys, min_index, left) == Seq::new(level.len(), |k: int| k).filter_map(
            |k: int|
                match keys[k] {
                    Some(v) => if (left && v <= min_index) || (!left && v > min_index) {
                        Some(level[k])
                    } else {
                        None
                    },
                    None => None,
                },
        ),
    decreases level.len(),
{
    let f = |k: int|
        match keys[k] {
            Some(v) => if (left && v <= min_index) || (!left && v > min_index) {
                Some(level[k])
            } else {
                None
            },
            None => None,
        };
    if level.len() > 0 {
        let n = level.len() - 1;
        let lv = level.drop_last();
        let ks = keys.take(n);
        lemma_side_of_selected(lv, ks, min_index, left);
        let g = |k: int|
            match ks[k] {
                Some(v) => if (left && v <= min_index) || (!left && v > min_index) {
                    Some(lv[k])
                } else {
                    None
                },
                None => None,
            };
        let idx = Seq::new(level.len(), |k: int| k);
        let idx0 = Seq::new(lv.len(), |k: int| k);
        assert(idx.drop_last() =~= idx0);
        assert(idx.last() == n);
        lemma_filter_map_agree(idx0, f, g);
        assert(keys[n] == keys[level.len() - 1]);
    }
}

/// Two selections that agree on every entry of a list select the same.
pub proof fn lemma_filter_map_agree<A, X>(s: Seq<A>, f: spec_fn(A) -> Option<X>, g: spec_fn(A) -> Option<X>)
    requires
        forall|i: int| 0 <= i < s.len() ==> f(#[trigger] s[i]) == g(s[i]),
    ensures
        s.filter_map(f) == s.filter_map(g),
    decreases s.len(),
{
    if s.len() > 0 {
        let t = s.drop_last();
        assert forall|i: int| 0 <= i < t.len() implies f(#[trigger] t[i]) == g(t[i]) by {
            assert(t[i] == s[i]);
        }
        lemma_filter_map_agree(t, f, g);
        assert(s.last() == s[s.len() - 1]);
    }
}

/// A side never holds more primitives than the level.
pub proof fn lemma_side_len(level: Seq<usize>, keys: Seq<Option<i64>>, min_index: i64, left: bool)
    ensures
        side_of(level, keys, min_index, left).len() <= level.len(),
    decreases level.len(),
{
    if level.len() > 0 {
        lemma_side_len(level.drop_last(), keys.take(level.len() - 1), min_index, left);
    }
}

/// Every key is a number.
pub open spec fn all_keyed(keys: Seq<Option<i64>>) -> bool {
    forall|k: int| 0 <= k < keys.len() ==> #[trigger] keys[k] is Some
}

/// The two sides never hold a primitive more often than the level does, and
/// when every primitive has a key they hold exactly the primitives of the
/// level between them.
pub proof fn lemma_partition_sides(level: Seq<usize>, keys: Seq<Option<i64>>, min_index: i64)
    requires
        keys.len() == level.len(),
    ensures
        ({
            let both = side_of(level, keys, min_index, true).to_multiset().add(
                side_of(level, keys, min_index, false).to_multiset(),
            );
            &&& both.subset_of(level.to_multiset())
            &&& all_keyed(keys) ==> both =~= level.to_multiset()
        }),
    decreases level.len(),
{
    if level.len() > 0 {
        let lv = level.drop_last();
        let ks = keys.take(level.len() - 1);
        lemma_partition_sides(lv, ks, min_index);
        assert(level =~= lv.push(level.last()));
        if all_keyed(keys) {
            assert forall|k: int| 0 <= k < ks.len() implies #[trigger] ks[k] is Some by {
                assert(ks[k] == keys[k]);
            }
        }
        assert(keys[level.len() - 1] == keys.last());
    }
}


/// What `hit` gives back for primitive `p`, where it always gives back the
/// same thing for the same primitive.
pub open spec fn hit_result<P, T, FH: Fn(&P) -> Option<T>>(hit: FH, p: P) -> Option<T> {
    choose|h: Option<T>| call_ensures(hit, (&p,), h)
}

/// What `box_hit` gives back for box `b`, where it always gives back the same
/// thing for the same box.
pub open spec fn box_result<B, FB: Fn(&B) -> bool>(box_hit: FB, b: B) -> bool {
    choose|x: bool| call_ensures(box_hit, (&b,), x)
}

/// `hit` gives back the same intersection whenever it is asked about the
/// same primitive.
pub open spec fn deterministic_hit<P, T, FH: Fn(&P) -> Option<T>>(hit: FH) -> bool {
    forall|p: P, h1: Option<T>, h2: Option<T>|
        #[trigger] call_ensures(hit, (&p,), h1) && #[trigger] call_ensures(hit, (&p,), h2) ==> h1 == h2
}

/// `box_hit` gives back the same answer whenever it is asked about the same
/// box.
pub open spec fn deterministic_box<B, FB: Fn(&B) -> bool>(box_hit: FB) -> bool {
    forall|b: B, x1: bool, x2: bool|
        #[trigger] call_ensures(box_hit, (&b,), x1) && #[trigger] call_ensures(box_hit, (&b,), x2)
            ==> x1 == x2
}

/// Every key that the construction computes is a number (no centroid offset
/// is NaN): whenever `split`, asked about a list, gives back a context, `key`
/// gives each primitive of that list a key in that context.
pub open spec fn keys_defined<C, FS: Fn(&Vec<usize>) -> (C, i32), FK: Fn(&C, usize) -> Option<i64>>(
    split: FS,
    key: FK,
) -> bool {
    forall|list: Vec<usize>, c: C, m: i32, i: usize, k: Option<i64>|
        #![trigger call_ensures(split, (&list,), (c, m)), call_ensures(key, (&c, i), k)]
        call_ensures(split, (&list,), (c, m)) && list@.contains(i) && call_ensures(key, (&c, i), k)
            ==> k is Some
}

/// When `split` may give back `(ctx, min_index)` for a list.
pub open spec fn splits_of<C, FS: Fn(&Vec<usize>) -> (C, i32)>(split: FS) -> spec_fn(
    Vec<usize>,
    C,
    i32,
) -> bool {
    |list: Vec<usize>, ctx: C, min_index: i32| call_ensures(split, (&list,), (ctx, min_index))
}

/// When `key`, given `ctx`, may give back `k` for primitive `i`.
pub open spec fn keys_of<C, FK: Fn(&C, usize) -> Option<i64>>(key: FK) -> spec_fn(
    C,
    usize,
    Option<i64>,
) -> bool {
    |ctx: C, i: usize, k: Option<i64>| call_ensures(key, (&ctx, i), k)
}

/// When `bounds` may give back box `b` for a list.
pub open spec fn boxes_of<B, FB: Fn(&Vec<usize>) -> B>(bounds: FB) -> spec_fn(Vec<usize>, B) -> bool {
    |list: Vec<usize>, b: B| call_ensures(bounds, (&list,), b)
}

/// What `hit` gives back for each primitive, where it always gives back the
/// same thing for the same primitive.
pub open spec fn hits_of<P, T, FH: Fn(&P) -> Option<T>>(hit: FH) -> spec_fn(P) -> Option<T> {
    |p: P| hit_result(hit, p)
}

/// The primitives that `hit` may answer with a miss.
pub open spec fn misses_of<P, T, FH: Fn(&P) -> Option<T>>(hit: FH) -> spec_fn(P) -> bool {
    |p: P| call_ensures(hit, (&p,), None::<T>)
}

/// What `box_hit` answers for each box, where it always answers the same for
/// the same box.
pub open spec fn enters_of<B, FB: Fn(&B) -> bool>(box_hit: FB) -> spec_fn(B) -> bool {
    |b: B| box_result(box_hit, b)
}

/// The boxes that `box_hit` may turn down.
pub open spec fn refusals_of<B, FB: Fn(&B) -> bool>(box_hit: FB) -> spec_fn(B) -> bool {
    |b: B| call_ensures(box_hit, (&b,), false)
}

/// What the construction decided for a level of more than `MIN_PRIMITIVES`
/// primitives: asked about `list` (which holds exactly `level`), the split
/// gave back `ctx` and the bucket `min_index` to split after (`splits`), and
/// the key of the primitive `level[j]`, given `ctx`, was `keys[j]` (`keyed`).
pub open spec fn split_made<C>(
    splits: spec_fn(Vec<usize>, C, i32) -> bool,
    keyed: spec_fn(C, usize, Option<i64>) -> bool,
    level: Seq<usize>,
    list: Vec<usize>,
    ctx: C,
    min_index: i32,
    keys: Seq<Option<i64>>,
) -> bool {
    &&& list@ == level
    &&& splits(list, ctx, min_index)
    &&& keys.len() == level.len()
    &&& forall|j: int| 0 <= j < level.len() ==> keyed(ctx, level[j], #[trigger] keys[j])
}

/// `b` is a box given back (`boxed`) for a list holding exactly `side`.
pub open spec fn bounds_of<B>(boxed: spec_fn(Vec<usize>, B) -> bool, side: Seq<usize>, b: B) -> bool {
    exists|list: Vec<usize>| list@ == side && #[trigger] boxed(list, b)
}

/// The tests counted by a query, capped at the largest `usize`.
pub open spec fn saturated(n: nat) -> int {
    if n <= usize::MAX {
        n as int
    } else {
        usize::MAX as int
    }
}

/// What `hit` gives back for each primitive of the scene, in scene order.
pub open spec fn scene_hits<P, T, FH: Fn(&P) -> Option<T>>(prims: Seq<P>, hit: FH) -> Seq<Option<T>> {
    Seq::new(prims.len(), |i: int| hit_result(hit, prims[i]))
}

/// `bounds` never gives a box that the ray misses around a list holding a
/// primitive that the ray hits. (In the scene a primitive can only be hit
/// inside its own bounds, and the box around a list holds the bounds of each
/// of its primitives.)
pub open spec fn bounds_conservative<P, B, T, FX: Fn(&Vec<usize>) -> B, FH: Fn(&P) -> Option<T>, FB: Fn(
    &B,
) -> bool>(prims: Seq<P>, bounds: FX, hit: FH, box_hit: FB) -> bool {
    forall|list: Vec<usize>, b: B, j: int|
        #![trigger call_ensures(bounds, (&list,), b), list@[j]]
        call_ensures(bounds, (&list,), b) && !box_result(box_hit, b) && 0 <= j < list.len() && list@[j]
            < prims.len() ==> hit_result(hit, prims[list@[j] as int]) is None
}

/// Every primitive that a side holds is one of the level's.
pub proof fn lemma_side_in_level(level: Seq<usize>, keys: Seq<Option<i64>>, min_index: i64, left: bool)
    ensures
        forall|k: int|
            0 <= k < side_of(level, keys, min_index, left).len() ==> level.contains(
                #[trigger] side_of(level, keys, min_index, left)[k],
            ),
    decreases level.len(),
{
    if level.len() > 0 {
        let lv = level.drop_last();
        let ks = keys.take(level.len() - 1);
        lemma_side_in_level(lv, ks, min_index, left);
        let s = side_of(level, keys, min_index, left);
        let s0 = side_of(lv, ks, min_index, left);
        assert forall|k: int| 0 <= k < s.len() implies level.contains(#[trigger] s[k]) by {
            if k < s0.len() {
                assert(s[k] == s0[k]);
                assert(lv.contains(s0[k]));
                let j = choose|j: int| 0 <= j < lv.len() && lv[j] == s0[k];
                assert(level[j] == lv[j]);
            } else {
                assert(s[k] == level.last());
                assert(level[level.len() - 1] == level.last());
            }
        }
    }
}

/// A node of a bounding volume hierarchy over the primitives of a scene.
/// Primitives are named by their position in `primitives`; `B` is the type of
/// the bounding boxes around the children.
pub struct BVHNode<'a, P, B> {
    primitives: &'a Vec<P>,
    primitives_at_level: Vec<usize>,
    is_terminal: bool,
    left: Option<Box<BVHNode<'a, P, B>>>,
    right: Option<Box<BVHNode<'a, P, B>>>,
    left_bounding_box: B,
    right_bounding_box: B,
    cached_primitive: Option<usize>,
    cached_primitive_old: Option<usize>,
}

impl<'a, P, B> BVHNode<'a, P, B> {
    /// Every primitive a node names, and every primitive it remembers as hit,
    /// is one of the scene's; its children share the scene's primitives.
    #[verifier::type_invariant]
    spec fn well_formed(self) -> bool {
        &&& forall|k: int|
            0 <= k < self.primitives_at_level.len() ==> #[trigger] self.primitives_at_level@[k]
                < self.primitives.len()
        &&& self.cached_primitive matches Some(i) ==> i < self.primitives.len()
        &&& self.cached_primitive_old matches Some(i) ==> i < self.primitives.len()
        &&& self.left matches Some(l) ==> l.primitives@ == self.primitives@
        &&& self.right matches Some(r) ==> r.primitives@ == self.primitives@
    }

    /// The scene's primitives.
    pub closed spec fn prims(self) -> Seq<P> {
        self.primitives@
    }

    /// The primitives this node holds itself (a leaf's; empty for an inner
    /// node built by `recursive_helper`).
    pub closed spec fn level(self) -> Seq<usize> {
        self.primitives_at_level@
    }

    /// The primitive found by the latest intersection query, if any.
    pub closed spec fn cached(self) -> Option<usize> {
        self.cached_primitive
    }

    /// The primitive found by the query before the latest one, if any.
    pub closed spec fn cached_old(self) -> Option<usize> {
        self.cached_primitive_old
    }

    /// Whether this node is a leaf.
    pub closed spec fn terminal(self) -> bool {
        self.is_terminal
    }

    /// The box around the left child's primitives.
    pub closed spec fn left_box(self) -> B {
        self.left_bounding_box
    }

    /// The box around the right child's primitives.
    pub closed spec fn right_box(self) -> B {
        self.right_bounding_box
    }

    /// The left child, if any.
    pub closed spec fn left_node(self) -> Option<Self> {
        match self.left {
            Some(n) => Some(*n),
            None => None,
        }
    }

    /// The right child, if any.
    pub closed spec fn right_node(self) -> Option<Self> {
        match self.right {
            Some(n) => Some(*n),
            None => None,
        }
    }

    /// The primitives of the leaves under this node, leaf by leaf from left to
    /// right.
    pub open spec fn leaves(self) -> Seq<usize>
        decreases self,
    {
        if self.terminal() {
            self.level()
        } else {
            (match self.left_node() {
                Some(n) => n.leaves(),
                None => seq![],
            }) + (match self.right_node() {
                Some(n) => n.leaves(),
                None => seq![],
            })
        }
    }

    /// The primitives of the leaves under the left child.
    pub open spec fn left_leaves(self) -> Seq<usize> {
        match self.left_node() {
            Some(n) => n.leaves(),
            None => seq![],
        }
    }

    /// The primitives of the leaves under the right child.
    pub open spec fn right_leaves(self) -> Seq<usize> {
        match self.right_node() {
            Some(n) => n.leaves(),
            None => seq![],
        }
    }

    /// An inner node's leaves are its left child's followed by its right
    /// child's.
    pub proof fn lemma_leaves_split(self)
        ensures
            !self.terminal() ==> self.leaves() == self.left_leaves() + self.right_leaves(),
    {
    }

    /// A leaf holding `level`, with no children and both boxes `empty`.
    pub open spec fn is_leaf_of(self, level: Seq<usize>, empty: B) -> bool {
        &&& self.terminal()
        &&& self.level() == level
        &&& self.left_node() is None
        &&& self.right_node() is None
        &&& self.left_box() == empty
        &&& self.right_box() == empty
    }

    /// This node is what `recursive_helper` builds over `level` with `empty`,
    /// `split`, `key` and `bounds` (see `built_by`).
    pub open spec fn built_from<C, FS, FK, FB>(
        self,
        level: Seq<usize>,
        split: FS,
        key: FK,
        bounds: FB,
        empty: B,
    ) -> bool where
        FS: Fn(&Vec<usize>) -> (C, i32),
        FK: Fn(&C, usize) -> Option<i64>,
        FB: Fn(&Vec<usize>) -> B,
     {
        self.built_by(level, splits_of(split), keys_of(key), boxes_of(bounds), empty)
    }

    /// This node is built over `level`, and so is every node below it, where
    /// `splits`, `keyed` and `boxed` say what the split, the keys and the
    /// boxes may be. A level of at most `MIN_PRIMITIVES` primitives is a leaf.
    /// A larger one is split as the split and the keys decided (`split_made`;
    /// see `split_by`).
    pub open spec fn built_by<C>(
        self,
        level: Seq<usize>,
        splits: spec_fn(Vec<usize>, C, i32) -> bool,
        keyed: spec_fn(C, usize, Option<i64>) -> bool,
        boxed: spec_fn(Vec<usize>, B) -> bool,
        empty: B,
    ) -> bool
        decreases self, 1int,
    {
        if level.len() <= MIN_PRIMITIVES {
            self.is_leaf_of(level, empty)
        } else {
            exists|list: Vec<usize>, ctx: C, min_index: i32, keys: Seq<Option<i64>>|
                #[trigger] split_made(splits, keyed, level, list, ctx, min_index, keys)
                    && self.split_by(level, keys, min_index as i64, splits, keyed, boxed, empty)
        }
    }

    /// This node is `level` split by `keys` at `min_index`: the primitives
    /// whose key is at most `min_index` form the left side and those whose key
    /// exceeds it the right side (`side_of`). If one side holds the whole
    /// level, the node is a leaf holding that side. Otherwise it is an inner
    /// node holding nothing itself, each side shorter than the level; its
    /// boxes are boxes given for the two sides, and each non-empty side has a
    /// child built over it (sharing the scene's primitives), an empty one
    /// none.
    pub open spec fn split_by<C>(
        self,
        level: Seq<usize>,
        keys: Seq<Option<i64>>,
        min_index: i64,
        splits: spec_fn(Vec<usize>, C, i32) -> bool,
        keyed: spec_fn(C, usize, Option<i64>) -> bool,
        boxed: spec_fn(Vec<usize>, B) -> bool,
        empty: B,
    ) -> bool
        decreases self, 0int,
    {
        let left = side_of(level, keys, min_index, true);
        let right = side_of(level, keys, min_index, false);
        if left.len() == level.len() || right.len() == level.len() {
            self.is_leaf_of(
                if left.len() == level.len() {
                    left
                } else {
                    right
                },
                empty,
            )
        } else {
            &&& !self.terminal()
            &&& self.level().len() == 0
            &&& left.len() < level.len()
            &&& right.len() < level.len()
            &&& bounds_of(boxed, left, self.left_box())
            &&& bounds_of(boxed, right, self.right_box())
            &&& match self.left_node() {
                Some(n) => left.len() > 0 && n.prims() == self.prims() && n.built_by(
                    left,
                    splits,
                    keyed,
                    boxed,
                    empty,
                ),
                None => left.len() == 0,
            }
            &&& match self.right_node() {
                Some(n) => right.len() > 0 && n.prims() == self.prims() && n.built_by(
                    right,
                    splits,
                    keyed,
                    boxed,
                    empty,
                ),
                None => right.len() == 0,
            }
        }
    }

    /// The number of levels of nodes below this one on its longest path: none
    /// for a node without children.
    pub open spec fn depth(self) -> nat
        decreases self,
    {
        let l: nat = match self.left_node() {
            Some(n) => 1 + n.depth(),
            None => 0,
        };
        let r: nat = match self.right_node() {
            Some(n) => 1 + n.depth(),
            None => 0,
        };
        if l >= r {
            l
        } else {
            r
        }
    }

    /// Each child of a built node holds fewer primitives than the node, so a
    /// hierarchy built over a level is never deeper than the level is long.
    pub proof fn lemma_built_depth<C, FS, FK, FB>(
        self,
        level: Seq<usize>,
        split: FS,
        key: FK,
        bounds: FB,
        empty: B,
    ) where
        FS: Fn(&Vec<usize>) -> (C, i32),
        FK: Fn(&C, usize) -> Option<i64>,
        FB: Fn(&Vec<usize>) -> B,

        requires
            self.built_from(level, split, key, bounds, empty),
        ensures
            self.depth() <= level.len(),
        decreases self,
    {
        if level.len() > MIN_PRIMITIVES {
            let (list, ctx, min_index, keys) = choose|
                list: Vec<usize>,
                ctx: C,
                min_index: i32,
                keys: Seq<Option<i64>>,
            |
                #[trigger] split_made(
                    splits_of(split),
                    keys_of(key),
                    level,
                    list,
                    ctx,
                    min_index,
                    keys,
                ) && self.split_by(
                    level,
                    keys,
                    min_index as i64,
                    splits_of(split),
                    keys_of(key),
                    boxes_of(bounds),
                    empty,
                );
            let left = side_of(level, keys, min_index as i64, true);
            let right = side_of(level, keys, min_index as i64, false);
            if !(left.len() == level.len() || right.len() == level.len()) {
                match self.left_node() {
                    Some(n) => n.lemma_built_depth(left, split, key, bounds, empty),
                    None => {},
                }
                match self.right_node() {
                    Some(n) => n.lemma_built_depth(right, split, key, bounds, empty),
                    None => {},
                }
            }
        }
    }

    /// Every node has the shape the construction gives it: a leaf has no
    /// children, and an inner node holds nothing itself and has two children.
    pub open spec fn well_shaped(self) -> bool
        decreases self,
    {
        &&& self.terminal() ==> self.left_node() is None && self.right_node() is None
        &&& !self.terminal() ==> self.level().len() == 0 && self.left_node() is Some
            && self.right_node() is Some
        &&& match self.left_node() {
            Some(n) => n.well_shaped(),
            None => true,
        }
        &&& match self.right_node() {
            Some(n) => n.well_shaped(),
            None => true,
        }
    }

    /// When every key computed while building is a number, every node of a
    /// built hierarchy is well shaped: a leaf has no children, and an inner
    /// node holds nothing itself and has two children.
    pub proof fn lemma_built_well_shaped<C, FS, FK, FB>(
        self,
        level: Seq<usize>,
        split: FS,
        key: FK,
        bounds: FB,
        empty: B,
    ) where
        FS: Fn(&Vec<usize>) -> (C, i32),
        FK: Fn(&C, usize) -> Option<i64>,
        FB: Fn(&Vec<usize>) -> B,

        requires
            self.built_from(level, split, key, bounds, empty),
            keys_defined(split, key),
        ensures
            self.well_shaped(),
        decreases self,
    {
        if level.len() > MIN_PRIMITIVES {
            let (list, ctx, min_index, keys) = choose|
                list: Vec<usize>,
                ctx: C,
                min_index: i32,
                keys: Seq<Option<i64>>,
            |
                #[trigger] split_made(
                    splits_of(split),
                    keys_of(key),
                    level,
                    list,
                    ctx,
                    min_index,
                    keys,
                ) && self.split_by(
                    level,
                    keys,
                    min_index as i64,
                    splits_of(split),
                    keys_of(key),
                    boxes_of(bounds),
                    empty,
                );
            assert(splits_of(split)(list, ctx, min_index));
            assert forall|j: int| 0 <= j < keys.len() implies #[trigger] keys[j] is Some by {
                assert(keys_of(key)(ctx, level[j], keys[j]));
                assert(list@[j] == level[j]);
                assert(list@.contains(level[j]));
            }
            lemma_partition_sides(level, keys, min_index as i64);
            let left = side_of(level, keys, min_index as i64, true);
            let right = side_of(level, keys, min_index as i64, false);
            let lm = left.to_multiset();
            let rm = right.to_multiset();
            assert(lm.add(rm).len() == lm.len() + rm.len());
            if !(left.len() == level.len() || right.len() == level.len()) {
                match self.left_node() {
                    Some(n) => n.lemma_built_well_shaped(left, split, key, bounds, empty),
                    None => {},
                }
                match self.right_node() {
                    Some(n) => n.lemma_built_well_shaped(right, split, key, bounds, empty),
                    None => {},
                }
            }
        }
    }

    /// Two nodes agree on everything but the hits they remember: the same
    /// primitives, leaf contents, boxes and children, all the way down.
    pub open spec fn same_tree(self, other: Self) -> bool
        decreases self,
    {
        &&& self.prims() == other.prims()
        &&& self.level() == other.level()
        &&& self.terminal() == other.terminal()
        &&& self.left_box() == other.left_box()
        &&& self.right_box() == other.right_box()
        &&& match self.left_node() {
            Some(n) => other.left_node() matches Some(m) && n.same_tree(m),
            None => other.left_node() is None,
        }
        &&& match self.right_node() {
            Some(n) => other.right_node() matches Some(m) && n.same_tree(m),
            None => other.right_node() is None,
        }
    }

    /// Every node agrees with itself.
    pub proof fn lemma_same_tree_refl(self)
        ensures
            self.same_tree(self),
        decreases self,
    {
        match self.left_node() {
            Some(n) => n.lemma_same_tree_refl(),
            None => {},
        }
        match self.right_node() {
            Some(n) => n.lemma_same_tree_refl(),
            None => {},
        }
    }

    /// Nodes that agree on everything but the remembered hits have the same
    /// leaves.
    pub proof fn lemma_same_tree(self, other: Self)
        requires
            self.same_tree(other),
        ensures
            self.leaves() == other.leaves(),
        decreases self,
    {
        match self.left_node() {
            Some(n) => n.lemma_same_tree(other.left_node().unwrap()),
            None => {},
        }
        match self.right_node() {
            Some(n) => n.lemma_same_tree(other.right_node().unwrap()),
            None => {},
        }
    }

    /// Of two nodes that agree on everything but the remembered hits, one is
    /// built over a level exactly as the other is.
    pub proof fn lemma_same_tree_built<C, FS, FK, FB>(
        self,
        other: Self,
        level: Seq<usize>,
        split: FS,
        key: FK,
        bounds: FB,
        empty: B,
    ) where
        FS: Fn(&Vec<usize>) -> (C, i32),
        FK: Fn(&C, usize) -> Option<i64>,
        FB: Fn(&Vec<usize>) -> B,

        requires
            self.same_tree(other),
            self.built_from(level, split, key, bounds, empty),
        ensures
            other.built_from(level, split, key, bounds, empty),
        decreases self,
    {
        if level.len() > MIN_PRIMITIVES {
            let (list, ctx, min_index, keys) = choose|
                list: Vec<usize>,
                ctx: C,
                min_index: i32,
                keys: Seq<Option<i64>>,
            |
                #[trigger] split_made(
                    splits_of(split),
                    keys_of(key),
                    level,
                    list,
                    ctx,
                    min_index,
                    keys,
                ) && self.split_by(
                    level,
                    keys,
                    min_index as i64,
                    splits_of(split),
                    keys_of(key),
                    boxes_of(bounds),
                    empty,
                );
            let left = side_of(level, keys, min_index as i64, true);
            let right = side_of(level, keys, min_index as i64, false);
            if !(left.len() == level.len() || right.len() == level.len()) {
                match self.left_node() {
                    Some(n) => {
                        let m = other.left_node().unwrap();
                        assert(n.same_tree(m));
                        assert(n.prims() == m.prims());
                        n.lemma_same_tree_built(m, left, split, key, bounds, empty);
                    },
                    None => {},
                }
                match self.right_node() {
                    Some(n) => {
                        let m = other.right_node().unwrap();
                        assert(n.same_tree(m));
                        assert(n.prims() == m.prims());
                        n.lemma_same_tree_built(m, right, split, key, bounds, empty);
                    },
                    None => {},
                }
            }
            assert(other.split_by(
                level,
                keys,
                min_index as i64,
                splits_of(split),
                keys_of(key),
                boxes_of(bounds),
                empty,
            ));
        }
    }

    /// Builds the hierarchy over all of `primitives` (see `recursive_helper`
    /// for the roles of `empty`, `split`, `key` and `bounds`): the result is
    /// built over the list of all primitives in order. Whatever those give
    /// back, every leaf names primitives of the scene only, and no primitive
    /// is in two leaves or twice in one.
    pub fn create<C, FS, FK, FB>(
        primitives: &'a Vec<P>,
        empty: B,
        split: &FS,
        key: &FK,
        bounds: &FB,
    ) -> (r: Self) where
        B: Copy,
        FS: Fn(&Vec<usize>) -> (C, i32),
        FK: Fn(&C, usize) -> Option<i64>,
        FB: Fn(&Vec<usize>) -> B,

        requires
            forall|l: &Vec<usize>| call_requires(*split, (l,)),
            forall|c: &C, i: usize| call_requires(*key, (c, i)),
            forall|l: &Vec<usize>| call_requires(*bounds, (l,)),
        ensures
            r.built_from(
                Seq::new(primitives.len() as nat, |i: int| i as usize),
                *split,
                *key,
                *bounds,
                empty,
            ),
            r.prims() == primitives@,
            r.leaves().no_duplicates(),
            forall|k: int| 0 <= k < r.leaves().len() ==> #[trigger] r.leaves()[k] < primitives.len(),
            keys_defined(*split, *key) ==> forall|i: usize| i < primitives.len() ==> #[trigger] r.leaves().contains(i),
            primitives.len() <= MIN_PRIMITIVES ==> r.terminal() && r.leaves() == Seq::new(
                primitives.len() as nat,
                |i: int| i as usize,
            ),
            r.cached() is None,
            r.cached_old() is None,
    {
        let n = primitives.len();
        let mut all: Vec<usize> = Vec::new();
        let mut i: usize = 0;
        while i < n
            invariant
                n == primitives.len(),
                i <= n,
                all.len() == i,
                forall|k: int| 0 <= k < i ==> #[trigger] all@[k] == k,
            decreases n - i,
        {
            all.push(i);
            i = i + 1;
        }
        let ghost everything = all@;
        proof {
            assert(everything =~= Seq::new(primitives.len() as nat, |i: int| i as usize));
        }
        let r = Self::recursive_helper(primitives, all, empty, split, key, bounds);
        proof {
            assert(everything.no_duplicates());
            everything.lemma_multiset_has_no_duplicates();
            let lv = r.leaves();
            assert forall|x: usize| lv.to_multiset().contains(x) implies lv.to_multiset().count(x)
                == 1 by {
                assert(everything.to_multiset().count(x) >= lv.to_multiset().count(x));
            }
            lv.lemma_multiset_has_no_duplicates_conv();
            if keys_defined(*split, *key) {
                assert forall|i: usize| i < primitives.len() implies #[trigger] lv.contains(i) by {
                    assert(everything[i as int] == i);
                    assert(everything.to_multiset().count(i) > 0);
                    assert(lv.to_multiset().count(i) > 0);
                }
            }
            assert forall|k: int| 0 <= k < lv.len() implies #[trigger] lv[k] < primitives.len() by {
                let x = lv[k];
                assert(lv.to_multiset().count(x) > 0);
                assert(everything.to_multiset().count(x) > 0);
                let j = choose|j: int| 0 <= j < everything.len() && everything[j] == x;
            }
        }
        r
    }

    /// Builds the hierarchy over `primitives_at_level` (see `built_from`). A
    /// level of at most `MIN_PRIMITIVES` primitives becomes a leaf. A larger
    /// one is split: `split` looks at the level and gives back what `key`
    /// needs to place each primitive (in the scene, the centroid bounds and
    /// the axis of largest extent) together with the cheapest bucket to split
    /// after; primitives whose key is at most that bucket go left and the
    /// others right (see `partition_level`), and `bounds` gives the box around
    /// each side. When one side would take the whole level, the level becomes
    /// a leaf instead; otherwise each non-empty side becomes a child.
    pub fn recursive_helper<C, FS, FK, FB>(
        primitives: &'a Vec<P>,
        primitives_at_level: Vec<usize>,
        empty: B,
        split: &FS,
        key: &FK,
        bounds: &FB,
    ) -> (r: Self) where
        B: Copy,
        FS: Fn(&Vec<usize>) -> (C, i32),
        FK: Fn(&C, usize) -> Option<i64>,
        FB: Fn(&Vec<usize>) -> B,

        requires
            forall|k: int|
                0 <= k < primitives_at_level.len() ==> #[trigger] primitives_at_level@[k]
                    < primitives.len(),
            forall|l: &Vec<usize>| call_requires(*split, (l,)),
            forall|c: &C, i: usize| call_requires(*key, (c, i)),
            forall|l: &Vec<usize>| call_requires(*bounds, (l,)),
        ensures
            r.built_from(primitives_at_level@, *split, *key, *bounds, empty),
            r.prims() == primitives@,
            r.leaves().to_multiset().subset_of(primitives_at_level@.to_multiset()),
            keys_defined(*split, *key) ==> r.leaves().to_multiset() =~= primitives_at_level@.to_multiset(),
            primitives_at_level.len() <= MIN_PRIMITIVES ==> r.terminal() && r.leaves()
                == primitives_at_level@,
            r.cached() is None,
            r.cached_old() is None,
        decreases primitives_at_level.len(),
    {
        if primitives_at_level.len() <= MIN_PRIMITIVES {
            return Self::leaf(primitives, primitives_at_level, empty);
        }
        let (context, min_index) = split(&primitives_at_level);
        let n = primitives_at_level.len();
        let mut keys: Vec<Option<i64>> = Vec::new();
        let mut k: usize = 0;
        while k < n
            invariant
                n == primitives_at_level.len(),
                k <= n,
                keys.len() == k,
                forall|c: &C, i: usize| call_requires(*key, (c, i)),
                forall|j: int|
                    0 <= j < k ==> call_ensures(
                        *key,
                        (&context, primitives_at_level@[j]),
                        #[trigger] keys@[j],
                    ),
            decreases n - k,
        {
            keys.push(key(&context, primitives_at_level[k]));
            k = k + 1;
        }
        let min_key = min_index as i64;
        let (left_primitives, right_primitives) = partition_level(&primitives_at_level, &keys, min_key);
        let ghost level = primitives_at_level@;
        let ghost ls = left_primitives@;
        let ghost rs = right_primitives@;
        proof {
            assert(split_made(
                splits_of(*split),
                keys_of(*key),
                level,
                primitives_at_level,
                context,
                min_index,
                keys@,
            ));
            lemma_partition_sides(level, keys@, min_key);
            if keys_defined(*split, *key) {
                assert forall|j: int| 0 <= j < keys@.len() implies #[trigger] keys@[j] is Some by {
                    assert(call_ensures(*key, (&context, primitives_at_level@[j]), keys@[j]));
                }
            }
            lemma_side_len(level, keys@, min_key, true);
            lemma_side_len(level, keys@, min_key, false);
            assert forall|j: int| 0 <= j < left_primitives.len() implies #[trigger] left_primitives@[j]
                < primitives.len() by {
                let x = left_primitives@[j];
                assert(left_primitives@.to_multiset().count(x) > 0);
                assert(level.to_multiset().count(x) > 0);
                let i = choose|i: int| 0 <= i < level.len() && level[i] == x;
            }
            assert forall|j: int| 0 <= j < right_primitives.len() implies #[trigger] right_primitives@[j]
                < primitives.len() by {
                let x = right_primitives@[j];
                assert(right_primitives@.to_multiset().count(x) > 0);
                assert(level.to_multiset().count(x) > 0);
                let i = choose|i: int| 0 <= i < level.len() && level[i] == x;
            }
        }
        let left_bounding_box = bounds(&left_primitives);
        let right_bounding_box = bounds(&right_primitives);
        proof {
            assert(boxes_of(*bounds)(left_primitives, left_bounding_box));
            assert(boxes_of(*bounds)(right_primitives, right_bounding_box));
            assert(bounds_of(boxes_of(*bounds), ls, left_bounding_box));
            assert(bounds_of(boxes_of(*bounds), rs, right_bounding_box));
        }
        if left_primitives.len() == n || right_primitives.len() == n {
            // Nothing would be split off: the whole level stays together.
            proof {
                if keys_defined(*split, *key) {
                    let lm = left_primitives@.to_multiset();
                    let rm = right_primitives@.to_multiset();
                    assert(lm.add(rm).len() == lm.len() + rm.len());
                    if left_primitives.len() == n {
                        assert(right_primitives@ =~= Seq::<usize>::empty());
                        assert(rm =~= Multiset::<usize>::empty());
                        assert(lm.add(rm) =~= lm);
                    } else {
                        assert(left_primitives@ =~= Seq::<usize>::empty());
                        assert(lm =~= Multiset::<usize>::empty());
                        assert(lm.add(rm) =~= rm);
                    }
                }
            }
            let kept = if left_primitives.len() == n {
                left_primitives
            } else {
                right_primitives
            };
            let r = Self::leaf(primitives, kept, empty);
            proof {
                assert(r.split_by(
                    level,
                    keys@,
                    min_key,
                    splits_of(*split),
                    keys_of(*key),
                    boxes_of(*bounds),
                    empty,
                ));
            }
            return r;
        }
        let left_len = left_primitives.len();
        let right_len = right_primitives.len();
        let left_node = if left_len > 0 {
            Some(Box::new(Self::recursive_helper(primitives, left_primitives, empty, split, key, bounds)))
        } else {
            None
        };
        let right_node = if right_len > 0 {
            Some(Box::new(Self::recursive_helper(primitives, right_primitives, empty, split, key, bounds)))
        } else {
            None
        };
        let r = BVHNode {
            primitives,
            primitives_at_level: Vec::new(),
            is_terminal: false,
            left: left_node,
            right: right_node,
            left_bounding_box,
            right_bounding_box,
            cached_primitive: None,
            cached_primitive_old: None,
        };
        proof {
            vstd::seq_lib::lemma_multiset_commutative(r.left_leaves(), r.right_leaves());
            assert(r.split_by(
                level,
                keys@,
                min_key,
                splits_of(*split),
                keys_of(*key),
                boxes_of(*bounds),
                empty,
            ));
        }
        r
    }

    /// Finds the nearest intersection of a ray with the primitives under this
    /// node. `hit` intersects the ray with one primitive; `box_hit` tells
    /// whether the ray meets a bounding box. A leaf tries each of its
    /// primitives in order and keeps the nearest hit with `min_intersection`;
    /// an inner node descends into each child whose box the ray meets, left
    /// before right, and keeps the nearer of the two results. The node
    /// remembers the primitive that produced its result (the previous one is
    /// kept as the old one) and gives it back with the hit and a count of the
    /// tests made (saturating). Nothing but the remembered hits changes.
    pub fn intersection_helper<T, FH, FB>(&mut self, hit: &FH, box_hit: &FB) -> (r: (
        Option<T>,
        Option<usize>,
        usize,
    )) where
        T: PartialOrd + Copy,
        FH: Fn(&P) -> Option<T>,
        FB: Fn(&B) -> bool,

        requires
            forall|p: &P| call_requires(*hit, (p,)),
            forall|b: &B| call_requires(*box_hit, (b,)),
        ensures
            old(self).same_tree(*final(self)),
            final(self).prims() == old(self).prims(),
            final(self).leaves() == old(self).leaves(),
            final(self).terminal() == old(self).terminal(),
            final(self).cached_old() == old(self).cached(),
            final(self).cached() == r.1,
            r.1 matches Some(i) ==> i < old(self).prims().len() && old(self).leaves().contains(i),
            r.0 is Some ==> r.1 is Some && call_ensures(
                *hit,
                (&old(self).prims()[r.1.unwrap() as int],),
                r.0,
            ),
            r.0 is None ==> old(self).misses_all(*hit, *box_hit),
            deterministic_hit(*hit) && deterministic_box(*box_hit) && old(self).misses_all(
                *hit,
                *box_hit,
            ) ==> r.0 is None,
            r.0 is None && (old(self).terminal() || deterministic_box(*box_hit)) ==> r.1 == old(self).miss_index(*box_hit),
            old(self).terminal() ==> r.2 == old(self).prims().len(),
            deterministic_box(*box_hit) ==> r.2 == saturated(old(self).tests(*box_hit)),
            lawful_order::<T>() && deterministic_hit(*hit) && deterministic_box(*box_hit) ==> r.0
                == old(self).nearest_found(*hit, *box_hit),
        decreases *old(self),
    {
        proof {
            use_type_invariant(&*self);
        }
        let ghost s0: Self = *self;
        self.cached_primitive_old = self.cached_primitive;
        self.cached_primitive = None;
        if self.is_terminal {
            let n = self.primitives_at_level.len();
            let mut hits: Vec<Option<T>> = Vec::new();
            let mut k: usize = 0;
            while k < n
                invariant
                    n == self.primitives_at_level.len(),
                    k <= n,
                    hits.len() == k,
                    forall|j: int|
                        0 <= j < n ==> #[trigger] self.primitives_at_level@[j]
                            < self.primitives.len(),
                    forall|p: &P| call_requires(*hit, (p,)),
                    forall|j: int|
                        0 <= j < k ==> call_ensures(
                            *hit,
                            (&self.primitives@[self.primitives_at_level@[j] as int],),
                            #[trigger] hits@[j],
                        ),
                decreases n - k,
            {
                let i = self.primitives_at_level[k];
                hits.push(hit(&self.primitives[i]));
                k = k + 1;
            }
            let (nearest, index) = nearest_hit(&self.primitives_at_level, &hits);
            proof {
                if deterministic_hit(*hit) {
                    assert forall|j: int| 0 <= j < n implies #[trigger] hits@[j] == s0.level_hits(
                        *hit,
                    )[j] by {
                        let p = self.primitives@[self.primitives_at_level@[j] as int];
                        assert(call_ensures(*hit, (&p,), hits@[j]));
                        assert(call_ensures(*hit, (&p,), hit_result(*hit, p)));
                    }
                    assert(hits@ =~= s0.level_hits(*hit));
                }
                if nearest is None {
                    assert forall|j: int| 0 <= j < s0.level().len() implies call_ensures(
                        *hit,
                        (&s0.prims()[#[trigger] s0.level()[j] as int],),
                        None::<T>,
                    ) by {
                        assert(hits@[j] is None);
                    }
                }
                if deterministic_hit(*hit) && s0.misses_all(*hit, *box_hit) {
                    assert forall|j: int| 0 <= j < n implies #[trigger] hits@[j] is None by {
                        let p = self.primitives@[self.primitives_at_level@[j] as int];
                        assert(call_ensures(*hit, (&p,), hits@[j]));
                        assert(s0.level()[j] == self.primitives_at_level@[j]);
                        assert(call_ensures(*hit, (&p,), None::<T>));
                    }
                }
                match s0.left_node() {
                    Some(c) => c.lemma_same_tree_refl(),
                    None => {},
                }
                match s0.right_node() {
                    Some(c) => c.lemma_same_tree_refl(),
                    None => {},
                }
            }
            self.cached_primitive = index;
            return (nearest, index, self.primitives.len());
        }
        let mut ray_intersection: Option<T> = None;
        let mut intersection_count: usize = 2;
        let left_meets = box_hit(&self.left_bounding_box);
        let ghost mut lres: Option<(Option<T>, Option<usize>, usize)> = None;
        let ghost mut lnode: Option<Self> = s0.left_node();
        proof {
            if deterministic_box(*box_hit) {
                assert(call_ensures(
                    *box_hit,
                    (&self.left_bounding_box,),
                    box_result(*box_hit, self.left_bounding_box),
                ));
            }
        }
        if left_meets {
            let mut child: Option<Box<Self>> = None;
            std::mem::swap(&mut child, &mut self.left);
            match child {
                Some(mut left) => {
                    proof {
                        use_type_invariant(&*left);
                    }
                    let ghost before: Self = *left;
                    let res = left.intersection_helper(hit, box_hit);
                    proof {
                        lres = Some(res);
                        lnode = Some(*left);
                        assert(s0.left_node() == Some(before));
                    }
                    self.left = Some(left);
                    ray_intersection = res.0;
                    self.cached_primitive = res.1;
                    intersection_count = intersection_count.saturating_add(res.2);
                },
                None => {},
            }
        }
        let ghost mid_count = intersection_count;
        let ghost mid_ray = ray_intersection;
        let ghost mid_cached = self.cached_primitive;
        let right_meets = box_hit(&self.right_bounding_box);
        let ghost mut rres: Option<(Option<T>, Option<usize>, usize)> = None;
        let ghost mut rnode: Option<Self> = s0.right_node();
        proof {
            if deterministic_box(*box_hit) {
                assert(call_ensures(
                    *box_hit,
                    (&self.right_bounding_box,),
                    box_result(*box_hit, self.right_bounding_box),
                ));
            }
        }
        if right_meets {
            let mut child: Option<Box<Self>> = None;
            std::mem::swap(&mut child, &mut self.right);
            match child {
                Some(mut right) => {
                    proof {
                        use_type_invariant(&*right);
                    }
                    let ghost before: Self = *right;
                    let res = right.intersection_helper(hit, box_hit);
                    proof {
                        rres = Some(res);
                        rnode = Some(*right);
                        assert(s0.right_node() == Some(before));
                    }
                    self.right = Some(right);
                    let (nearest, is_min) = min_intersection(ray_intersection, res.0);
                    ray_intersection = nearest;
                    if is_min {
                        self.cached_primitive = res.1;
                    }
                    intersection_count = intersection_count.saturating_add(res.2);
                },
                None => {},
            }
        }
        proof {
            assert(self.left_node() == lnode);
            assert(self.right_node() == rnode);
            assert(s0.leaves() == s0.left_leaves() + s0.right_leaves());
            let lt: nat = match s0.left_node() {
                Some(c) => if lres is Some {
                    c.tests(*box_hit)
                } else {
                    0
                },
                None => 0,
            };
            let rt: nat = match s0.right_node() {
                Some(c) => if rres is Some {
                    c.tests(*box_hit)
                } else {
                    0
                },
                None => 0,
            };
            match s0.left_node() {
                Some(c) => {
                    if lres is None {
                        c.lemma_same_tree_refl();
                    }
                    c.lemma_same_tree(lnode.unwrap());
                },
                None => {},
            }
            match s0.right_node() {
                Some(c) => {
                    if rres is None {
                        c.lemma_same_tree_refl();
                    }
                    c.lemma_same_tree(rnode.unwrap());
                },
                None => {},
            }
            lemma_saturated_add(2, lt);
            lemma_saturated_add(2 + lt, rt);
            if self.cached_primitive is Some {
                broadcast use vstd::seq_lib::group_seq_properties;

                assert(s0.leaves().contains(self.cached_primitive.unwrap()));
            }
        }
        (ray_intersection, self.cached_primitive, intersection_count)
    }

    /// The hits a leaf's sweep sees: what `hit` gives back for each of its
    /// primitives, in order.
    pub open spec fn level_hits<T, FH: Fn(&P) -> Option<T>>(self, hit: FH) -> Seq<Option<T>> {
        self.level_hits_by(hits_of(hit))
    }

    /// What `result` gives for each primitive of this node itself, in order.
    pub open spec fn level_hits_by<T>(self, result: spec_fn(P) -> Option<T>) -> Seq<Option<T>> {
        Seq::new(self.level().len(), |k: int| result(self.prims()[self.level()[k] as int]))
    }

    /// What `hit` gives back for every primitive of every leaf under this
    /// node, in the order of `leaves`.
    pub open spec fn leaf_hits<T, FH: Fn(&P) -> Option<T>>(self, hit: FH) -> Seq<Option<T>> {
        self.leaf_hits_by(hits_of(hit))
    }

    /// What `result` gives for every primitive of every leaf under this node,
    /// in the order of `leaves`.
    pub open spec fn leaf_hits_by<T>(self, result: spec_fn(P) -> Option<T>) -> Seq<Option<T>>
        decreases self,
    {
        if self.terminal() {
            self.level_hits_by(result)
        } else {
            (match self.left_node() {
                Some(n) => n.leaf_hits_by(result),
                None => seq![],
            }) + (match self.right_node() {
                Some(n) => n.leaf_hits_by(result),
                None => seq![],
            })
        }
    }

    /// Every primitive that a query reaches was asked about and missed: each
    /// primitive of a leaf, and under an inner node each child whose box
    /// `box_hit` did not turn down (see `misses_all_by`).
    pub open spec fn misses_all<T, FH: Fn(&P) -> Option<T>, FB: Fn(&B) -> bool>(
        self,
        hit: FH,
        box_hit: FB,
    ) -> bool {
        self.misses_all_by(misses_of(hit), refusals_of(box_hit))
    }

    /// Every primitive of a leaf is `missed`; under an inner node each child
    /// whose box is not `refused` misses all.
    pub open spec fn misses_all_by(self, missed: spec_fn(P) -> bool, refused: spec_fn(B) -> bool) -> bool
        decreases self,
    {
        if self.terminal() {
            forall|j: int|
                0 <= j < self.level().len() ==> missed(self.prims()[#[trigger] self.level()[j] as int])
        } else {
            &&& match self.left_node() {
                Some(n) => refused(self.left_box()) || n.misses_all_by(missed, refused),
                None => true,
            }
            &&& match self.right_node() {
                Some(n) => refused(self.right_box()) || n.misses_all_by(missed, refused),
                None => true,
            }
        }
    }

    /// The primitive a query remembers when it finds nothing (see
    /// `miss_index_by`).
    pub open spec fn miss_index<FB: Fn(&B) -> bool>(self, box_hit: FB) -> Option<usize> {
        self.miss_index_by(enters_of(box_hit))
    }

    /// The primitive a query remembers when it finds nothing: a leaf the last
    /// primitive it tried; an inner node what the right child remembered if
    /// the right box was entered, else what the left child remembered if the
    /// left box was, else nothing.
    pub open spec fn miss_index_by(self, enters: spec_fn(B) -> bool) -> Option<usize>
        decreases self,
    {
        if self.terminal() {
            if self.level().len() == 0 {
                None
            } else {
                Some(self.level().last())
            }
        } else {
            let l = match self.left_node() {
                Some(n) => if enters(self.left_box()) {
                    n.miss_index_by(enters)
                } else {
                    None
                },
                None => None,
            };
            match self.right_node() {
                Some(n) => if enters(self.right_box()) {
                    n.miss_index_by(enters)
                } else {
                    l
                },
                None => l,
            }
        }
    }

    /// The tests a query counts (see `tests_by`).
    pub open spec fn tests<FB: Fn(&B) -> bool>(self, box_hit: FB) -> nat {
        self.tests_by(enters_of(box_hit))
    }

    /// The tests a query counts: a leaf counts the scene's primitives; an
    /// inner node two box tests and what each child it enters counts.
    pub open spec fn tests_by(self, enters: spec_fn(B) -> bool) -> nat
        decreases self,
    {
        if self.terminal() {
            self.prims().len()
        } else {
            2 + (match self.left_node() {
                Some(n) => if enters(self.left_box()) {
                    n.tests_by(enters)
                } else {
                    0
                },
                None => 0,
            }) + (match self.right_node() {
                Some(n) => if enters(self.right_box()) {
                    n.tests_by(enters)
                } else {
                    0
                },
                None => 0,
            })
        }
    }

    /// The intersection that `intersection_helper` finds when `hit` and
    /// `box_hit` always answer the same way for the same question (see
    /// `nearest_found_by`).
    pub open spec fn nearest_found<T: PartialOrd, FH: Fn(&P) -> Option<T>, FB: Fn(&B) -> bool>(
        self,
        hit: FH,
        box_hit: FB,
    ) -> Option<T> {
        self.nearest_found_by(hits_of(hit), enters_of(box_hit))
    }

    /// The nearest intersection found under this node when each primitive's
    /// intersection is `result` and the query enters the boxes that `enters`
    /// admits: a leaf sweeps its primitives; an inner node keeps the nearer of
    /// what it finds in the entered children, left first.
    pub open spec fn nearest_found_by<T: PartialOrd>(
        self,
        result: spec_fn(P) -> Option<T>,
        enters: spec_fn(B) -> bool,
    ) -> Option<T>
        decreases self,
    {
        if self.terminal() {
            nearest_in(self.level(), self.level_hits_by(result)).0
        } else {
            let l = match self.left_node() {
                Some(n) => if enters(self.left_box()) {
                    n.nearest_found_by(result, enters)
                } else {
                    None
                },
                None => None,
            };
            let r = match self.right_node() {
                Some(n) => if enters(self.right_box()) {
                    n.nearest_found_by(result, enters)
                } else {
                    None
                },
                None => None,
            };
            nearer(l, r).0
        }
    }

    /// Every box that the ray misses holds only primitives that the ray
    /// misses (see `boxes_conservative_by`).
    pub open spec fn boxes_conservative<T, FH: Fn(&P) -> Option<T>, FB: Fn(&B) -> bool>(
        self,
        hit: FH,
        box_hit: FB,
    ) -> bool {
        self.boxes_conservative_by(hits_of(hit), enters_of(box_hit))
    }

    /// Under every inner node, a child whose box `enters` turns down has only
    /// primitives whose `result` is a miss.
    pub open spec fn boxes_conservative_by<T>(
        self,
        result: spec_fn(P) -> Option<T>,
        enters: spec_fn(B) -> bool,
    ) -> bool
        decreases self,
    {
        !self.terminal() ==> {
            &&& match self.left_node() {
                Some(n) => (!enters(self.left_box()) ==> all_missed(n.leaf_hits_by(result)))
                    && n.boxes_conservative_by(result, enters),
                None => true,
            }
            &&& match self.right_node() {
                Some(n) => (!enters(self.right_box()) ==> all_missed(n.leaf_hits_by(result)))
                    && n.boxes_conservative_by(result, enters),
                None => true,
            }
        }
    }

    /// Descending only into boxes that the ray meets loses nothing: when
    /// every missed box holds only missed primitives and the intersections of
    /// the leaves' primitives are ordered by a strict weak order, the
    /// hierarchy finds the same nearest intersection as a sweep over all the
    /// primitives of its leaves.
    pub proof fn lemma_traversal_finds_nearest<T: PartialOrd, FH: Fn(&P) -> Option<T>, FB: Fn(&B) -> bool>(
        self,
        hit: FH,
        box_hit: FB,
    )
        requires
            weak_order_on(self.leaf_hits(hit)),
            self.boxes_conservative(hit, box_hit),
        ensures
            self.nearest_found(hit, box_hit) == nearest_in(self.leaves(), self.leaf_hits(hit)).0,
        decreases self,
    {
        if !self.terminal() {
            let ll = self.left_leaves();
            let rl = self.right_leaves();
            let lh = match self.left_node() {
                Some(n) => n.leaf_hits(hit),
                None => seq![],
            };
            let rh = match self.right_node() {
                Some(n) => n.leaf_hits(hit),
                None => seq![],
            };
            let all = lh + rh;
            assert(self.leaf_hits(hit) == all);
            lemma_nearest_concat(ll, lh, rl, rh);
            assert forall|k: int| 0 <= k < lh.len() && #[trigger] lh[k] is Some implies exists|j: int|
                0 <= j < all.len() && #[trigger] all[j] == lh[k] by {
                assert(all[k] == lh[k]);
            }
            assert forall|k: int| 0 <= k < rh.len() && #[trigger] rh[k] is Some implies exists|j: int|
                0 <= j < all.len() && #[trigger] all[j] == rh[k] by {
                assert(all[lh.len() + k] == rh[k]);
            }
            lemma_weak_order_sub(all, lh);
            lemma_weak_order_sub(all, rh);
            match self.left_node() {
                Some(n) => {
                    n.lemma_traversal_finds_nearest(hit, box_hit);
                    if !box_result(box_hit, self.left_box()) {
                        lemma_nearest_of_misses(ll, lh);
                    }
                },
                None => {},
            }
            match self.right_node() {
                Some(n) => {
                    n.lemma_traversal_finds_nearest(hit, box_hit);
                    if !box_result(box_hit, self.right_box()) {
                        lemma_nearest_of_misses(rl, rh);
                    }
                },
                None => {},
            }
        }
    }

    /// Every primitive under a built node is one of the level it was built
    /// over.
    pub proof fn lemma_built_leaves_in_level<C, FS, FK, FB>(
        self,
        level: Seq<usize>,
        split: FS,
        key: FK,
        bounds: FB,
        empty: B,
    ) where
        FS: Fn(&Vec<usize>) -> (C, i32),
        FK: Fn(&C, usize) -> Option<i64>,
        FB: Fn(&Vec<usize>) -> B,

        requires
            self.built_from(level, split, key, bounds, empty),
        ensures
            forall|k: int| 0 <= k < self.leaves().len() ==> level.contains(#[trigger] self.leaves()[k]),
        decreases self,
    {
        if level.len() > MIN_PRIMITIVES {
            let (list, ctx, min_index, keys) = choose|
                list: Vec<usize>,
                ctx: C,
                min_index: i32,
                keys: Seq<Option<i64>>,
            |
                #[trigger] split_made(
                    splits_of(split),
                    keys_of(key),
                    level,
                    list,
                    ctx,
                    min_index,
                    keys,
                ) && self.split_by(
                    level,
                    keys,
                    min_index as i64,
                    splits_of(split),
                    keys_of(key),
                    boxes_of(bounds),
                    empty,
                );
            let left = side_of(level, keys, min_index as i64, true);
            let right = side_of(level, keys, min_index as i64, false);
            lemma_side_in_level(level, keys, min_index as i64, true);
            lemma_side_in_level(level, keys, min_index as i64, false);
            if !(left.len() == level.len() || right.len() == level.len()) {
                let ll = self.left_leaves();
                let rl = self.right_leaves();
                match self.left_node() {
                    Some(n) => n.lemma_built_leaves_in_level(left, split, key, bounds, empty),
                    None => {},
                }
                match self.right_node() {
                    Some(n) => n.lemma_built_leaves_in_level(right, split, key, bounds, empty),
                    None => {},
                }
                assert forall|k: int| 0 <= k < self.leaves().len() implies level.contains(
                    #[trigger] self.leaves()[k],
                ) by {
                    if k < ll.len() {
                        assert(self.leaves()[k] == ll[k]);
                        assert(left.contains(ll[k]));
                        let j = choose|j: int| 0 <= j < left.len() && left[j] == ll[k];
                    } else {
                        assert(self.leaves()[k] == rl[k - ll.len()]);
                        assert(right.contains(rl[k - ll.len()]));
                        let j = choose|j: int| 0 <= j < right.len() && right[j] == rl[k - ll.len()];
                    }
                }
            } else {
                let side = if left.len() == level.len() {
                    left
                } else {
                    right
                };
                assert forall|k: int| 0 <= k < self.leaves().len() implies level.contains(
                    #[trigger] self.leaves()[k],
                ) by {
                    assert(self.leaves()[k] == side[k]);
                }
            }
        }
    }

    /// Under a built node, the leaf hits are what `hit` gives back for the
    /// primitives of the leaves, one for one.
    pub proof fn lemma_leaf_hits<C, FS, FK, FB, T, FH: Fn(&P) -> Option<T>>(
        self,
        level: Seq<usize>,
        split: FS,
        key: FK,
        bounds: FB,
        empty: B,
        hit: FH,
    ) where
        FS: Fn(&Vec<usize>) -> (C, i32),
        FK: Fn(&C, usize) -> Option<i64>,
        FB: Fn(&Vec<usize>) -> B,

        requires
            self.built_from(level, split, key, bounds, empty),
        ensures
            self.leaf_hits(hit).len() == self.leaves().len(),
            forall|k: int|
                0 <= k < self.leaves().len() ==> #[trigger] self.leaf_hits(hit)[k] == hit_result(
                    hit,
                    self.prims()[self.leaves()[k] as int],
                ),
        decreases self,
    {
        if level.len() > MIN_PRIMITIVES && !self.terminal() {
            let (list, ctx, min_index, keys) = choose|
                list: Vec<usize>,
                ctx: C,
                min_index: i32,
                keys: Seq<Option<i64>>,
            |
                #[trigger] split_made(
                    splits_of(split),
                    keys_of(key),
                    level,
                    list,
                    ctx,
                    min_index,
                    keys,
                ) && self.split_by(
                    level,
                    keys,
                    min_index as i64,
                    splits_of(split),
                    keys_of(key),
                    boxes_of(bounds),
                    empty,
                );
            let left = side_of(level, keys, min_index as i64, true);
            let right = side_of(level, keys, min_index as i64, false);
            match self.left_node() {
                Some(n) => n.lemma_leaf_hits(left, split, key, bounds, empty, hit),
                None => {},
            }
            match self.right_node() {
                Some(n) => n.lemma_leaf_hits(right, split, key, bounds, empty, hit),
                None => {},
            }
            let ll = self.left_leaves();
            let lh = match self.left_node() {
                Some(n) => n.leaf_hits(hit),
                None => seq![],
            };
            assert forall|k: int| 0 <= k < self.leaves().len() implies #[trigger] self.leaf_hits(
                hit,
            )[k] == hit_result(hit, self.prims()[self.leaves()[k] as int]) by {
                if k >= ll.len() {
                    assert(self.leaves()[k] == self.right_leaves()[k - ll.len()]);
                } else {
                    assert(self.leaves()[k] == ll[k]);
                }
            }
        }
    }

    /// In a hierarchy built with bounds that never put a missed box around a
    /// hit primitive, every box that the ray misses holds only primitives that
    /// the ray misses.
    pub proof fn lemma_built_conservative<C, FS, FK, FX, T, FH, FB>(
        self,
        level: Seq<usize>,
        split: FS,
        key: FK,
        bounds: FX,
        empty: B,
        hit: FH,
        box_hit: FB,
    ) where
        FS: Fn(&Vec<usize>) -> (C, i32),
        FK: Fn(&C, usize) -> Option<i64>,
        FX: Fn(&Vec<usize>) -> B,
        FH: Fn(&P) -> Option<T>,
        FB: Fn(&B) -> bool,

        requires
            self.built_from(level, split, key, bounds, empty),
            forall|k: int| 0 <= k < level.len() ==> #[trigger] level[k] < self.prims().len(),
            bounds_conservative(self.prims(), bounds, hit, box_hit),
        ensures
            self.boxes_conservative(hit, box_hit),
        decreases self,
    {
        if level.len() > MIN_PRIMITIVES && !self.terminal() {
            let (list, ctx, min_index, keys) = choose|
                list: Vec<usize>,
                ctx: C,
                min_index: i32,
                keys: Seq<Option<i64>>,
            |
                #[trigger] split_made(
                    splits_of(split),
                    keys_of(key),
                    level,
                    list,
                    ctx,
                    min_index,
                    keys,
                ) && self.split_by(
                    level,
                    keys,
                    min_index as i64,
                    splits_of(split),
                    keys_of(key),
                    boxes_of(bounds),
                    empty,
                );
            let mi = min_index as i64;
            let left = side_of(level, keys, mi, true);
            let right = side_of(level, keys, mi, false);
            lemma_side_in_level(level, keys, mi, true);
            lemma_side_in_level(level, keys, mi, false);
            assert forall|k: int| 0 <= k < left.len() implies #[trigger] left[k] < self.prims().len() by {
                let j = choose|j: int| 0 <= j < level.len() && level[j] == left[k];
            }
            assert forall|k: int| 0 <= k < right.len() implies #[trigger] right[k] < self.prims().len() by {
                let j = choose|j: int| 0 <= j < level.len() && level[j] == right[k];
            }
            match self.left_node() {
                Some(n) => {
                    n.lemma_built_conservative(left, split, key, bounds, empty, hit, box_hit);
                    n.lemma_built_leaves_in_level(left, split, key, bounds, empty);
                    n.lemma_leaf_hits(left, split, key, bounds, empty, hit);
                    if !box_result(box_hit, self.left_box()) {
                        let lst = choose|lst: Vec<usize>|
                            lst@ == left && #[trigger] boxes_of(bounds)(lst, self.left_box());
                        assert forall|k: int| 0 <= k < n.leaf_hits(hit).len() implies #[trigger] n.leaf_hits(
                            hit,
                        )[k] is None by {
                            let x = n.leaves()[k];
                            assert(left.contains(x));
                            let j = choose|j: int| 0 <= j < left.len() && left[j] == x;
                            assert(lst@[j] == x);
                        }
                    }
                },
                None => {},
            }
            match self.right_node() {
                Some(n) => {
                    n.lemma_built_conservative(right, split, key, bounds, empty, hit, box_hit);
                    n.lemma_built_leaves_in_level(right, split, key, bounds, empty);
                    n.lemma_leaf_hits(right, split, key, bounds, empty, hit);
                    if !box_result(box_hit, self.right_box()) {
                        let lst = choose|lst: Vec<usize>|
                            lst@ == right && #[trigger] boxes_of(bounds)(lst, self.right_box());
                        assert forall|k: int| 0 <= k < n.leaf_hits(hit).len() implies #[trigger] n.leaf_hits(
                            hit,
                        )[k] is None by {
                            let x = n.leaves()[k];
                            assert(right.contains(x));
                            let j = choose|j: int| 0 <= j < right.len() && right[j] == x;
                            assert(lst@[j] == x);
                        }
                    }
                },
                None => {},
            }
        }
    }

    /// A hierarchy built over all the scene's primitives, with every
    /// primitive in some leaf and no leaf naming anything else, with bounds
    /// that never put a missed box around a hit primitive, and with the
    /// scene's intersections ordered by a strict weak order (as distances are
    /// when none of them is NaN), finds an intersection
    /// exactly when a sweep over all the primitives in scene order does, and
    /// then one at the same distance: neither is strictly nearer than the
    /// other.
    pub proof fn lemma_hierarchy_matches_scan<C, FS, FK, FX, T: PartialOrd, FH, FB>(
        self,
        split: FS,
        key: FK,
        bounds: FX,
        empty: B,
        hit: FH,
        box_hit: FB,
    ) where
        FS: Fn(&Vec<usize>) -> (C, i32),
        FK: Fn(&C, usize) -> Option<i64>,
        FX: Fn(&Vec<usize>) -> B,
        FH: Fn(&P) -> Option<T>,
        FB: Fn(&B) -> bool,

        requires
            self.built_from(
                Seq::new(self.prims().len(), |i: int| i as usize),
                split,
                key,
                bounds,
                empty,
            ),
            self.prims().len() <= usize::MAX,
            forall|i: usize| i < self.prims().len() ==> #[trigger] self.leaves().contains(i),
            forall|k: int| 0 <= k < self.leaves().len() ==> #[trigger] self.leaves()[k] < self.prims().len(),
            bounds_conservative(self.prims(), bounds, hit, box_hit),
            weak_order_on(scene_hits(self.prims(), hit)),
        ensures
            ({
                let found = self.nearest_found(hit, box_hit);
                let scan = nearest_in(
                    Seq::new(self.prims().len(), |i: int| i as usize),
                    scene_hits(self.prims(), hit),
                ).0;
                &&& found is None <==> scan is None
                &&& found is Some ==> !precedes(found.unwrap(), scan.unwrap()) && !precedes(
                    scan.unwrap(),
                    found.unwrap(),
                )
            }),
    {
        let all = Seq::new(self.prims().len(), |i: int| i as usize);
        let s = scene_hits(self.prims(), hit);
        let lv = self.leaves();
        let l = self.leaf_hits(hit);
        self.lemma_built_conservative(all, split, key, bounds, empty, hit, box_hit);
        self.lemma_leaf_hits(all, split, key, bounds, empty, hit);
        assert forall|k: int| 0 <= k < l.len() && #[trigger] l[k] is Some implies exists|j: int|
            0 <= j < s.len() && #[trigger] s[j] == l[k] by {
            assert(s[lv[k] as int] == l[k]);
        }
        lemma_weak_order_sub(s, l);
        self.lemma_traversal_finds_nearest(hit, box_hit);
        lemma_nearest_none(lv, l);
        lemma_nearest_none(all, s);
        lemma_nearest_first_minimal(lv, l);
        lemma_nearest_first_minimal(all, s);
        let found = nearest_in(lv, l).0;
        let scan = nearest_in(all, s).0;
        if found is None {
            assert forall|i: int| 0 <= i < s.len() implies #[trigger] s[i] is None by {
                assert(lv.contains(i as usize));
                let k = choose|k: int| 0 <= k < lv.len() && lv[k] == i as usize;
                assert(l[k] is None);
            }
        }
        if scan is None {
            assert forall|k: int| 0 <= k < l.len() implies #[trigger] l[k] is None by {
                assert(s[lv[k] as int] is None);
            }
        }
        if found is Some && scan is Some {
            let kf = choose|k: int|
                #![trigger l[k]]
                0 <= k < l.len() && l[k] == found && nearest_in(lv, l).1 == Some(lv[k]) && (forall|j: int|
                    0 <= j < k && #[trigger] l[j] is Some ==> precedes(found.unwrap(), l[j].unwrap()))
                    && (forall|j: int|
                    0 <= j < l.len() && #[trigger] l[j] is Some ==> !precedes(
                        l[j].unwrap(),
                        found.unwrap(),
                    ));
            assert(s[lv[kf] as int] == found);
            let ks = choose|k: int|
                #![trigger s[k]]
                0 <= k < s.len() && s[k] == scan && nearest_in(all, s).1 == Some(all[k]) && (forall|j: int|
                    0 <= j < k && #[trigger] s[j] is Some ==> precedes(scan.unwrap(), s[j].unwrap()))
                    && (forall|j: int|
                    0 <= j < s.len() && #[trigger] s[j] is Some ==> !precedes(
                        s[j].unwrap(),
                        scan.unwrap(),
                    ));
            assert(lv.contains(ks as usize));
            let k2 = choose|k: int| 0 <= k < lv.len() && lv[k] == ks as usize;
            assert(lv[k2] as int == ks);
            assert(l[k2] == scan);
        }
    }

    /// The nearest intersection of a ray with the primitives under this node
    /// (see `intersection_helper`).
    pub fn intersection<T, FH, FB>(&mut self, hit: &FH, box_hit: &FB) -> (r: Option<T>) where
        T: PartialOrd + Copy,
        FH: Fn(&P) -> Option<T>,
        FB: Fn(&B) -> bool,

        requires
            forall|p: &P| call_requires(*hit, (p,)),
            forall|b: &B| call_requires(*box_hit, (b,)),
        ensures
            old(self).same_tree(*final(self)),
            final(self).prims() == old(self).prims(),
            final(self).leaves() == old(self).leaves(),
            final(self).cached_old() == old(self).cached(),
            r is Some ==> final(self).cached() is Some && call_ensures(
                *hit,
                (&old(self).prims()[final(self).cached().unwrap() as int],),
                r,
            ),
            final(self).cached() matches Some(i) ==> i < old(self).prims().len()
                && old(self).leaves().contains(i),
            r is None ==> old(self).misses_all(*hit, *box_hit),
            deterministic_hit(*hit) && deterministic_box(*box_hit) && old(self).misses_all(
                *hit,
                *box_hit,
            ) ==> r is None,
            r is None && (old(self).terminal() || deterministic_box(*box_hit)) ==> final(self).cached() == old(self).miss_index(*box_hit),
            lawful_order::<T>() && deterministic_hit(*hit) && deterministic_box(*box_hit) ==> r
                == old(self).nearest_found(*hit, *box_hit),
    {
        let (ray_intersection, _, _) = self.intersection_helper(hit, box_hit);
        ray_intersection
    }

    /// A copy of this hierarchy for another worker: the same primitives,
    /// structure, boxes and remembered hits.
    pub fn duplicate(&self) -> (r: Self) where B: Copy
        ensures
            self.same_tree(r),
            r.prims() == self.prims(),
            r.leaves() == self.leaves(),
            r.terminal() == self.terminal(),
            r.cached() == self.cached(),
            r.cached_old() == self.cached_old(),
            r.left_box() == self.left_box(),
            r.right_box() == self.right_box(),
        decreases self,
    {
        proof {
            use_type_invariant(self);
        }
        let left = match &self.left {
            Some(n) => Some(Box::new(n.duplicate())),
            None => None,
        };
        let right = match &self.right {
            Some(n) => Some(Box::new(n.duplicate())),
            None => None,
        };
        let r = BVHNode {
            primitives: self.primitives,
            primitives_at_level: self.primitives_at_level.clone(),
            is_terminal: self.is_terminal,
            left,
            right,
            left_bounding_box: self.left_bounding_box,
            right_bounding_box: self.right_bounding_box,
            cached_primitive: self.cached_primitive,
            cached_primitive_old: self.cached_primitive_old,
        };
        proof {
            match self.left_node() {
                Some(n) => n.lemma_same_tree(r.left_node().unwrap()),
                None => {},
            }
            match self.right_node() {
                Some(n) => n.lemma_same_tree(r.right_node().unwrap()),
                None => {},
            }
        }
        r
    }

    /// The scene's primitives.
    pub fn primitives(&self) -> (r: &'a Vec<P>)
        ensures
            r@ == self.prims(),
    {
        self.primitives
    }

    /// The primitives a leaf holds (empty for an inner node).
    pub fn primitives_at_level(&self) -> (r: &Vec<usize>)
        ensures
            r@ == self.level(),
    {
        &self.primitives_at_level
    }

    /// Whether this node is a leaf.
    pub fn is_terminal(&self) -> (r: bool)
        ensures
            r == self.terminal(),
    {
        self.is_terminal
    }

    /// The left child, if any.
    pub fn left(&self) -> (r: Option<&BVHNode<'a, P, B>>)
        ensures
            r is Some <==> !self.terminal() && self.left_node() is Some,
            r matches Some(n) ==> self.left_node() == Some(*n) && n.prims() == self.prims(),
    {
        proof {
            use_type_invariant(self);
        }
        if self.is_terminal {
            return None;
        }
        match &self.left {
            Some(n) => Some(&**n),
            None => None,
        }
    }

    /// The right child, if any.
    pub fn right(&self) -> (r: Option<&BVHNode<'a, P, B>>)
        ensures
            r is Some <==> !self.terminal() && self.right_node() is Some,
            r matches Some(n) ==> self.right_node() == Some(*n) && n.prims() == self.prims(),
    {
        proof {
            use_type_invariant(self);
        }
        if self.is_terminal {
            return None;
        }
        match &self.right {
            Some(n) => Some(&**n),
            None => None,
        }
    }

    /// The box around the left child's primitives.
    pub fn left_bounding_box(&self) -> (r: &B)
        ensures
            *r == self.left_box(),
    {
        &self.left_bounding_box
    }

    /// The box around the right child's primitives.
    pub fn right_bounding_box(&self) -> (r: &B)
        ensures
            *r == self.right_box(),
    {
        &self.right_bounding_box
    }

    /// The primitive found by the latest intersection query, if any.
    pub fn cached_primitive(&self) -> (r: Option<usize>)
        ensures
            r == self.cached(),
    {
        self.cached_primitive
    }

    /// The primitive found by the query before the latest one, if any.
    pub fn cached_primitive_old(&self) -> (r: Option<usize>)
        ensures
            r == self.cached_old(),
    {
        self.cached_primitive_old
    }

    /// The primitive found by the latest intersection query, if any: the one
    /// whose material and emission shade the hit.
    pub fn cached_primitive_ref(&self) -> (r: Option<&P>)
        ensures
            r is Some <==> self.cached() is Some,
            r matches Some(p) ==> *p == self.prims()[self.cached().unwrap() as int],
    {
        proof {
            use_type_invariant(self);
        }
        match self.cached_primitive {
            Some(i) => Some(&self.primitives[i]),
            None => None,
        }
    }

    /// The primitive found by the query before the latest one, if any.
    pub fn cached_primitive_old_ref(&self) -> (r: Option<&P>)
        ensures
            r is Some <==> self.cached_old() is Some,
            r matches Some(p) ==> *p == self.prims()[self.cached_old().unwrap() as int],
    {
        proof {
            use_type_invariant(self);
        }
        match self.cached_primitive_old {
            Some(i) => Some(&self.primitives[i]),
            None => None,
        }
    }

    /// A leaf holding `primitives_at_level`, with empty child boxes.
    fn leaf(primitives: &'a Vec<P>, primitives_at_level: Vec<usize>, empty: B) -> (r: Self)
        where B: Copy,
        requires
            forall|k: int|
                0 <= k < primitives_at_level.len() ==> #[trigger] primitives_at_level@[k]
                    < primitives.len(),
        ensures
            r.is_leaf_of(primitives_at_level@, empty),
            r.prims() == primitives@,
            r.leaves() == primitives_at_level@,
            r.cached() is None,
            r.cached_old() is None,
    {
        BVHNode {
            primitives,
            primitives_at_level,
            is_terminal: true,
            left: None,
            right: None,
            left_bounding_box: empty,
            right_bounding_box: empty,
            cached_primitive: None,
            cached_primitive_old: None,
        }
    }
}

/// Capping at the largest `usize` before or after adding two counts gives
/// the same.
proof fn lemma_saturated_add(a: nat, b: nat)
    ensures
        (if saturated(a) + saturated(b) > usize::MAX {
            usize::MAX as int
        } else {
            saturated(a) + saturated(b)
        }) == saturated(a + b),
{
}

} // verus!
