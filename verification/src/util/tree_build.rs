//! How a vantage-point tree grows out of a sequence of points and a stream
//! of draws, and what every tree grown that way satisfies.

use crate::util::tree_model::{height_of, points_of, wf_of, TreeModel};
use crate::util::vptree::MetricPoint;
use vstd::prelude::*;

verus! {

/// The next draw of a stream; zero once the stream has run dry.
pub open spec fn first_draw(draws: Seq<u32>) -> u32 {
    if draws.len() > 0 {
        draws[0]
    } else {
        0
    }
}

/// The stream after its next draw was taken.
pub open spec fn rest_draws(draws: Seq<u32>) -> Seq<u32> {
    if draws.len() > 0 {
        draws.skip(1)
    } else {
        draws
    }
}

/// `s` with the items at `i` and `j` exchanged.
pub open spec fn swapped<T>(s: Seq<T>, i: int, j: int) -> Seq<T> {
    s.update(i, s[j]).update(j, s[i])
}

/// What is left of `s` once the item at `i` was taken out as the vantage
/// point: the item is exchanged with the first one, and the last item then
/// fills the first place.
pub open spec fn without_vantage<T>(s: Seq<T>, i: int) -> Seq<T> {
    let fronted = swapped(s, 0, i);
    fronted.update(0, fronted.last()).drop_last()
}

/// The scan that splits `s` around the threshold `t`, resumed at item `i`
/// with `pos` near items already in front. An item within `t` of `v` is
/// exchanged with the item at `pos`. Yields the rearranged sequence and the
/// number of near items.
pub open spec fn partition_from<T: MetricPoint>(
    v: T,
    t: u64,
    s: Seq<T>,
    i: int,
    pos: int,
) -> (Seq<T>, int)
    decreases s.len() - i,
{
    if !(0 <= pos <= i < s.len()) {
        (s, pos)
    } else if T::distance(&v, &s[i]) <= t {
        partition_from(v, t, swapped(s, pos, i), i + 1, pos + 1)
    } else {
        partition_from(v, t, s, i + 1, pos)
    }
}

/// `s` split around the threshold `t`: the rearranged sequence and the
/// number of items within `t` of `v`, which come first.
pub open spec fn partition<T: MetricPoint>(v: T, t: u64, s: Seq<T>) -> (Seq<T>, int) {
    partition_from(v, t, s, 0, 0)
}

/// What two or more points are split into before each side grows a subtree
/// of its own.
pub struct Split<T> {
    /// The point that stays at the node.
    pub vantage: T,
    /// The distance that parts near from far.
    pub threshold: u64,
    /// The points within the threshold of the vantage point.
    pub near: Seq<T>,
    /// The points beyond it.
    pub far: Seq<T>,
    /// The draws that are left.
    pub draws: Seq<u32>,
}

/// Splits two or more points. The first draw picks the vantage point among
/// them; the second picks, among the rest, the point whose distance from the
/// vantage point is the threshold; the rest is scanned around the threshold.
pub open spec fn split<T: MetricPoint>(points: Seq<T>, draws: Seq<u32>) -> Split<T> {
    let picked = first_draw(draws) as int % points.len() as int;
    let vantage = points[picked];
    let rest = without_vantage(points, picked);
    let after_vantage = rest_draws(draws);
    let marker = first_draw(after_vantage) as int % rest.len() as int;
    let threshold = T::distance(&vantage, &rest[marker]);
    let (arranged, cut) = partition(vantage, threshold, rest);
    Split {
        vantage,
        threshold,
        near: arranged.subrange(0, cut),
        far: arranged.subrange(cut, arranged.len() as int),
        draws: rest_draws(after_vantage),
    }
}

/// The tree that grows out of `points`, and the draws that are left.
///
/// No point makes no tree. One point makes a leaf and takes no draw. More
/// points are split, and each side grows its own subtree, the near side
/// first.
pub open spec fn grow<T: MetricPoint>(points: Seq<T>, draws: Seq<u32>) -> (
    Option<Box<TreeModel<T>>>,
    Seq<u32>,
)
    decreases points.len(),
{
    if points.len() == 0 {
        (None, draws)
    } else if points.len() == 1 {
        (
            Some(Box::new(TreeModel { vantage: points[0], threshold: 0, near: None, far: None })),
            draws,
        )
    } else {
        let first = split(points, draws);
        proof {
            lemma_split_shares(points, draws);
        }
        let (near, after_near) = grow(first.near, first.draws);
        let (far, after_far) = grow(first.far, after_near);
        (
            Some(
                Box::new(
                    TreeModel { vantage: first.vantage, threshold: first.threshold, near, far },
                ),
            ),
            after_far,
        )
    }
}

/// Exchanging two items keeps the length and the items.
pub proof fn lemma_swapped_is_permutation<T>(s: Seq<T>, i: int, j: int)
    requires
        0 <= i < s.len(),
        0 <= j < s.len(),
    ensures
        swapped(s, i, j).len() == s.len(),
        swapped(s, i, j).to_multiset() == s.to_multiset(),
{
    broadcast use vstd::multiset::group_multiset_axioms;

    vstd::seq_lib::to_multiset_update(s, i, s[j]);
    vstd::seq_lib::to_multiset_update(s.update(i, s[j]), j, s[i]);
    vstd::seq_lib::to_multiset_contains(s, s[i]);
    vstd::seq_lib::to_multiset_contains(s, s[j]);
    assert(s.contains(s[i]));
    assert(s.contains(s[j]));
    assert(swapped(s, i, j).to_multiset() =~= s.to_multiset());
}

/// The scan keeps the length, and the count of near items stays within it.
pub proof fn lemma_partition_shape<T: MetricPoint>(v: T, t: u64, s: Seq<T>, i: int, pos: int)
    requires
        0 <= pos <= i <= s.len(),
    ensures
        partition_from(v, t, s, i, pos).0.len() == s.len(),
        pos <= partition_from(v, t, s, i, pos).1 <= s.len(),
    decreases s.len() - i,
{
    if i < s.len() {
        if T::distance(&v, &s[i]) <= t {
            lemma_partition_shape(v, t, swapped(s, pos, i), i + 1, pos + 1);
        } else {
            lemma_partition_shape(v, t, s, i + 1, pos);
        }
    }
}

/// The scan rearranges without loss, and leaves every near item before every
/// far one.
pub proof fn lemma_partition_from_splits<T: MetricPoint>(
    v: T,
    t: u64,
    s: Seq<T>,
    i: int,
    pos: int,
)
    requires
        0 <= pos <= i <= s.len(),
        forall|k: int| 0 <= k < pos ==> T::distance(&v, &#[trigger] s[k]) <= t,
        forall|k: int| pos <= k < i ==> T::distance(&v, &#[trigger] s[k]) > t,
    ensures
        ({
            let (out, cut) = partition_from(v, t, s, i, pos);
            &&& out.len() == s.len()
            &&& pos <= cut <= s.len()
            &&& out.to_multiset() == s.to_multiset()
            &&& forall|k: int| 0 <= k < cut ==> T::distance(&v, &#[trigger] out[k]) <= t
            &&& forall|k: int| cut <= k < out.len() ==> T::distance(&v, &#[trigger] out[k]) > t
        }),
    decreases s.len() - i,
{
    if i < s.len() {
        if T::distance(&v, &s[i]) <= t {
            let next = swapped(s, pos, i);
            lemma_swapped_is_permutation(s, pos, i);
            assert forall|k: int| 0 <= k < pos + 1 implies T::distance(&v, &#[trigger] next[k])
                <= t by {
                if k < pos {
                    assert(next[k] == s[k]);
                }
            }
            assert forall|k: int| pos + 1 <= k < i + 1 implies T::distance(
                &v,
                &#[trigger] next[k],
            ) > t by {
                if k < i {
                    assert(next[k] == s[k]);
                } else {
                    assert(next[k] == s[pos]);
                }
            }
            lemma_partition_from_splits(v, t, next, i + 1, pos + 1);
        } else {
            lemma_partition_from_splits(v, t, s, i + 1, pos);
        }
    }
}

/// A sequence with one more item in front holds that item once more.
pub proof fn lemma_front_item_counts<T>(item: T, s: Seq<T>)
    ensures
        (seq![item] + s).to_multiset() == s.to_multiset().insert(item),
{
    broadcast use vstd::multiset::group_multiset_axioms;

    vstd::seq_lib::lemma_multiset_commutative(seq![item], s);
    vstd::seq_lib::lemma_multiset_commutative(s, seq![item]);
    vstd::seq_lib::to_multiset_build(s, item);
    assert(s + seq![item] =~= s.push(item));
    assert((seq![item] + s).to_multiset() =~= s.to_multiset().insert(item));
}

/// Taking the vantage point out leaves exactly the other points.
pub proof fn lemma_without_vantage_is_rest<T>(s: Seq<T>, i: int)
    requires
        0 <= i < s.len(),
    ensures
        without_vantage(s, i).len() == s.len() - 1,
        without_vantage(s, i).to_multiset().insert(s[i]) == s.to_multiset(),
{
    broadcast use vstd::multiset::group_multiset_axioms;

    let fronted = swapped(s, 0, i);
    lemma_swapped_is_permutation(s, 0, i);
    assert(fronted.len() == s.len());
    assert(fronted[0] == s[i]);
    let filled = fronted.update(0, fronted.last());
    assert(filled.len() == s.len());
    vstd::seq_lib::to_multiset_update(fronted, 0, fronted.last());
    let last = filled.len() - 1;
    assert(filled.drop_last() =~= filled.remove(last));
    vstd::seq_lib::to_multiset_remove(filled, last);
    assert(filled[last] == fronted.last());
    vstd::seq_lib::to_multiset_contains(fronted, fronted[0]);
    assert(fronted.contains(fronted[0]));
    let rest = without_vantage(s, i);
    assert(rest == filled.remove(last));
    assert(rest.to_multiset() == fronted.to_multiset().insert(fronted.last()).remove(
        fronted[0],
    ).remove(fronted.last()));
    assert(rest.to_multiset().insert(s[i]) =~= fronted.to_multiset());
}

/// The two sides of a split share all points but the vantage point.
pub proof fn lemma_split_shares<T: MetricPoint>(points: Seq<T>, draws: Seq<u32>)
    requires
        points.len() >= 2,
    ensures
        split(points, draws).near.len() + split(points, draws).far.len() == points.len() - 1,
{
    let picked = first_draw(draws) as int % points.len() as int;
    let vantage = points[picked];
    let rest = without_vantage(points, picked);
    lemma_without_vantage_is_rest(points, picked);
    let marker = first_draw(rest_draws(draws)) as int % rest.len() as int;
    let threshold = T::distance(&vantage, &rest[marker]);
    lemma_partition_shape(vantage, threshold, rest, 0, 0);
}

/// A split loses no point and gains none, puts on the near side exactly the
/// points within the threshold of the vantage point, and takes two draws, or
/// as many as there are.
pub proof fn lemma_split_sound<T: MetricPoint>(points: Seq<T>, draws: Seq<u32>)
    requires
        points.len() >= 2,
    ensures
        ({
            let first = split(points, draws);
            &&& first.near.len() + first.far.len() == points.len() - 1
            &&& (seq![first.vantage] + (first.near + first.far)).to_multiset()
                == points.to_multiset()
            &&& forall|k: int|
                0 <= k < first.near.len() ==> T::distance(&first.vantage, &#[trigger] first.near[k])
                    <= first.threshold
            &&& forall|k: int|
                0 <= k < first.far.len() ==> T::distance(&first.vantage, &#[trigger] first.far[k])
                    > first.threshold
            &&& first.draws == draws.skip(
                if draws.len() >= 2 {
                    2
                } else {
                    draws.len() as int
                },
            )
        }),
{
    let first = split(points, draws);
    let picked = first_draw(draws) as int % points.len() as int;
    let vantage = points[picked];
    let rest = without_vantage(points, picked);
    lemma_without_vantage_is_rest(points, picked);
    let marker = first_draw(rest_draws(draws)) as int % rest.len() as int;
    let threshold = T::distance(&vantage, &rest[marker]);
    let (arranged, cut) = partition(vantage, threshold, rest);
    lemma_partition_from_splits(vantage, threshold, rest, 0, 0);
    assert(arranged =~= first.near + first.far);
    lemma_front_item_counts(vantage, first.near + first.far);
    assert forall|k: int| 0 <= k < first.near.len() implies T::distance(
        &first.vantage,
        &#[trigger] first.near[k],
    ) <= first.threshold by {
        assert(first.near[k] == arranged[k]);
    }
    assert forall|k: int| 0 <= k < first.far.len() implies T::distance(
        &first.vantage,
        &#[trigger] first.far[k],
    ) > first.threshold by {
        assert(first.far[k] == arranged[cut + k]);
    }
    assert(first.draws =~= draws.skip(
        if draws.len() >= 2 {
            2
        } else {
            draws.len() as int
        },
    ));
}

/// Every grown tree is well formed, holds exactly the points it grew from,
/// and is lower than their number; nothing grows out of no points.
pub proof fn lemma_grow_sound<T: MetricPoint>(points: Seq<T>, draws: Seq<u32>)
    ensures
        grow(points, draws).0 is None <==> points.len() == 0,
        wf_of(grow(points, draws).0),
        points_of(grow(points, draws).0).to_multiset() == points.to_multiset(),
        points_of(grow(points, draws).0).len() == points.len(),
        points.len() > 0 ==> height_of(grow(points, draws).0) <= points.len() - 1,
    decreases points.len(),
{
    broadcast use vstd::multiset::group_multiset_axioms;

    if points.len() == 0 {
        assert(points_of(grow(points, draws).0) =~= points);
    } else if points.len() == 1 {
        let leaf = grow(points, draws).0->0;
        assert(points_of::<T>(None) =~= Seq::empty());
        assert(leaf.points() =~= points);
        assert(leaf.wf());
    } else {
        let first = split(points, draws);
        lemma_split_sound(points, draws);
        let (near, after_near) = grow(first.near, first.draws);
        let (far, after_far) = grow(first.far, after_near);
        lemma_grow_sound(first.near, first.draws);
        lemma_grow_sound(first.far, after_near);
        let node = TreeModel { vantage: first.vantage, threshold: first.threshold, near, far };
        assert(grow(points, draws).0 == Some(Box::new(node)));

        assert forall|i: int| 0 <= i < points_of(near).len() implies T::distance(
            &node.vantage,
            &#[trigger] points_of(near)[i],
        ) <= node.threshold by {
            let p = points_of(near)[i];
            vstd::seq_lib::to_multiset_contains(points_of(near), p);
            vstd::seq_lib::to_multiset_contains(first.near, p);
            assert(points_of(near).contains(p));
            let k = choose|k: int| 0 <= k < first.near.len() && first.near[k] == p;
            assert(T::distance(&first.vantage, &first.near[k]) <= first.threshold);
        }
        assert forall|i: int| 0 <= i < points_of(far).len() implies T::distance(
            &node.vantage,
            &#[trigger] points_of(far)[i],
        ) > node.threshold by {
            let p = points_of(far)[i];
            vstd::seq_lib::to_multiset_contains(points_of(far), p);
            vstd::seq_lib::to_multiset_contains(first.far, p);
            assert(points_of(far).contains(p));
            let k = choose|k: int| 0 <= k < first.far.len() && first.far[k] == p;
            assert(T::distance(&first.vantage, &first.far[k]) > first.threshold);
        }
        assert(near is Some || far is Some);
        assert(node.wf());
        assert(wf_of(Some(Box::new(node))));

        vstd::seq_lib::lemma_multiset_commutative(first.near, first.far);
        lemma_front_item_counts(first.vantage, first.near + first.far);
        lemma_front_item_counts(first.vantage, points_of(near) + points_of(far));
        vstd::seq_lib::lemma_multiset_commutative(points_of(near), points_of(far));
        assert(node.points() =~= seq![first.vantage] + (points_of(near) + points_of(far)));
        assert(node.points().to_multiset() =~= points.to_multiset());
    }
}

/// Growing takes its draws from the front of the stream, and no more than
/// two for each point but one.
pub proof fn lemma_grow_takes_few_draws<T: MetricPoint>(points: Seq<T>, draws: Seq<u32>) -> (taken:
    int)
    ensures
        0 <= taken <= draws.len(),
        points.len() == 0 ==> taken == 0,
        points.len() > 0 ==> taken <= 2 * (points.len() - 1),
        grow(points, draws).1 == draws.skip(taken),
    decreases points.len(),
{
    if points.len() <= 1 {
        assert(draws.skip(0) =~= draws);
        0
    } else {
        let first = split(points, draws);
        lemma_split_sound(points, draws);
        let for_picks: int = if draws.len() >= 2 {
            2
        } else {
            draws.len() as int
        };
        let for_near = lemma_grow_takes_few_draws(first.near, first.draws);
        let after_near = grow(first.near, first.draws).1;
        let for_far = lemma_grow_takes_few_draws(first.far, after_near);
        let taken = for_picks + for_near + for_far;
        assert(draws.skip(for_picks).skip(for_near).skip(for_far) =~= draws.skip(taken));
        taken
    }
}

/// Growing reads no draw past two for each point but one: two streams that
/// agree that far grow the same tree and are left at the same place.
pub proof fn lemma_grow_reads_only_its_draws<T: MetricPoint>(
    points: Seq<T>,
    a: Seq<u32>,
    b: Seq<u32>,
    agree: int,
) -> (taken: int)
    requires
        0 <= agree <= a.len(),
        agree <= b.len(),
        forall|i: int| 0 <= i < agree ==> a[i] == b[i],
        points.len() > 0 ==> agree >= 2 * (points.len() - 1),
    ensures
        grow(points, a).0 == grow(points, b).0,
        0 <= taken <= agree,
        points.len() == 0 ==> taken == 0,
        points.len() > 0 ==> taken <= 2 * (points.len() - 1),
        grow(points, a).1 == a.skip(taken),
        grow(points, b).1 == b.skip(taken),
    decreases points.len(),
{
    if points.len() <= 1 {
        assert(a.skip(0) =~= a);
        assert(b.skip(0) =~= b);
        0
    } else {
        let first = split(points, a);
        let other = split(points, b);
        lemma_split_sound(points, a);
        lemma_split_sound(points, b);
        assert(first_draw(a) == first_draw(b));
        assert(first_draw(rest_draws(a)) == first_draw(rest_draws(b))) by {
            assert(a.skip(1)[0] == a[1]);
            assert(b.skip(1)[0] == b[1]);
        }
        assert(first.near == other.near);
        assert(first.far == other.far);
        assert(first.draws == a.skip(2));
        assert(other.draws == b.skip(2));
        assert forall|i: int| 0 <= i < agree - 2 implies first.draws[i] == other.draws[i] by {
            assert(a.skip(2)[i] == a[i + 2]);
            assert(b.skip(2)[i] == b[i + 2]);
        }
        let for_near = lemma_grow_reads_only_its_draws(
            first.near,
            first.draws,
            other.draws,
            agree - 2,
        );
        let after_near_a = grow(first.near, first.draws).1;
        let after_near_b = grow(first.near, other.draws).1;
        assert forall|i: int| 0 <= i < agree - 2 - for_near implies after_near_a[i]
            == after_near_b[i] by {
            assert(first.draws.skip(for_near)[i] == first.draws[i + for_near]);
            assert(other.draws.skip(for_near)[i] == other.draws[i + for_near]);
        }
        let for_far = lemma_grow_reads_only_its_draws(
            first.far,
            after_near_a,
            after_near_b,
            agree - 2 - for_near,
        );
        let taken = 2 + for_near + for_far;
        assert(a.skip(2).skip(for_near).skip(for_far) =~= a.skip(taken));
        assert(b.skip(2).skip(for_near).skip(for_far) =~= b.skip(taken));
        taken
    }
}

/// Whether any two points of `s` are at distance zero from each other.
pub open spec fn all_coincide<T: MetricPoint>(s: Seq<T>) -> bool {
    forall|i: int, j: int|
        #![trigger s[i], s[j]]
        0 <= i < s.len() && 0 <= j < s.len() ==> T::distance(&s[i], &s[j]) == 0
}

/// Where every item is within the threshold, the scan leaves the sequence as
/// it is and counts every item as near.
pub proof fn lemma_partition_all_near<T: MetricPoint>(v: T, t: u64, s: Seq<T>, i: int)
    requires
        0 <= i <= s.len(),
        forall|k: int| 0 <= k < s.len() ==> T::distance(&v, &#[trigger] s[k]) <= t,
    ensures
        partition_from(v, t, s, i, i) == (s, s.len() as int),
    decreases s.len() - i,
{
    if i < s.len() {
        assert(swapped(s, i, i) =~= s);
        lemma_partition_all_near(v, t, s, i + 1);
    }
}

/// Points that all coincide grow into a chain: the tree is as high as it can
/// be, and its top node has threshold zero and nothing on the far side.
pub proof fn lemma_coinciding_points_make_a_chain<T: MetricPoint>(points: Seq<T>, draws: Seq<u32>)
    requires
        points.len() > 0,
        all_coincide(points),
    ensures
        height_of(grow(points, draws).0) == points.len() - 1,
        grow(points, draws).0->0.far is None,
        grow(points, draws).0->0.threshold == 0,
    decreases points.len(),
{
    if points.len() > 1 {
        let picked = first_draw(draws) as int % points.len() as int;
        let vantage = points[picked];
        let rest = without_vantage(points, picked);
        lemma_without_vantage_is_rest(points, picked);
        assert forall|k: int| 0 <= k < rest.len() implies points.contains(#[trigger] rest[k]) by {
            vstd::seq_lib::to_multiset_contains(rest, rest[k]);
            vstd::seq_lib::to_multiset_contains(points, rest[k]);
            assert(rest.contains(rest[k]));
        }
        assert forall|k: int| 0 <= k < rest.len() implies T::distance(
            &vantage,
            &#[trigger] rest[k],
        ) == 0 by {
            assert(points.contains(rest[k]));
            let at = choose|at: int| 0 <= at < points.len() && points[at] == rest[k];
            assert(T::distance(&points[picked], &points[at]) == 0);
        }
        assert(all_coincide(rest)) by {
            assert forall|i: int, j: int|
                #![trigger rest[i], rest[j]]
                0 <= i < rest.len() && 0 <= j < rest.len() implies T::distance(&rest[i], &rest[j])
                == 0 by {
                assert(points.contains(rest[i]));
                assert(points.contains(rest[j]));
                let a = choose|a: int| 0 <= a < points.len() && points[a] == rest[i];
                let b = choose|b: int| 0 <= b < points.len() && points[b] == rest[j];
                assert(T::distance(&points[a], &points[b]) == 0);
            }
        }
        let marker = first_draw(rest_draws(draws)) as int % rest.len() as int;
        let threshold = T::distance(&vantage, &rest[marker]);
        lemma_partition_all_near(vantage, threshold, rest, 0);
        assert(partition(vantage, threshold, rest) == (rest, rest.len() as int));
        let first = split(points, draws);
        assert(first.near =~= rest);
        assert(first.far =~= Seq::<T>::empty());
        let (near, after_near) = grow(first.near, first.draws);
        let (far, after_far) = grow(first.far, after_near);
        lemma_coinciding_points_make_a_chain(rest, first.draws);
        lemma_grow_sound(rest, first.draws);
        assert(far is None);
        assert(near is Some);
        let node = TreeModel { vantage, threshold, near, far };
        assert(grow(points, draws).0 == Some(Box::new(node)));
        assert(node.height() == 1 + height_of(near));
    }
}

/// Growing is a function of the points and the draws: two trees grown out of
/// the same points in the same order with the same draws have the same
/// vantage points, thresholds and subtrees, and so the same height.
pub proof fn lemma_grow_is_deterministic<T: MetricPoint>(
    points: Seq<T>,
    draws: Seq<u32>,
    first: TreeModel<T>,
    second: TreeModel<T>,
)
    requires
        grow(points, draws).0 == Some(Box::new(first)),
        grow(points, draws).0 == Some(Box::new(second)),
    ensures
        first == second,
        first.height() == second.height(),
{
}

} // verus!
