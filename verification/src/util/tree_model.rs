//! The mathematical shape of a vantage-point tree and what a query finds in it.

use crate::util::vptree::MetricPoint;
use vstd::prelude::*;

verus! {

/// A node: its vantage point, the threshold that splits the other points, and
/// the two subtrees.
pub struct TreeModel<T> {
    pub vantage: T,
    pub threshold: u64,
    pub near: Option<Box<TreeModel<T>>>,
    pub far: Option<Box<TreeModel<T>>>,
}

/// Points of an optional subtree; none for a missing one.
pub open spec fn points_of<T: MetricPoint>(tree: Option<Box<TreeModel<T>>>) -> Seq<T>
    decreases tree,
{
    match tree {
        None => Seq::empty(),
        Some(node) => node.points(),
    }
}

/// Height of an optional subtree; zero for a missing one.
pub open spec fn height_of<T: MetricPoint>(tree: Option<Box<TreeModel<T>>>) -> nat
    decreases tree,
{
    match tree {
        None => 0,
        Some(node) => node.height(),
    }
}

/// Whether an optional subtree is well formed; a missing one is.
pub open spec fn wf_of<T: MetricPoint>(tree: Option<Box<TreeModel<T>>>) -> bool
    decreases tree,
{
    match tree {
        None => true,
        Some(node) => node.wf(),
    }
}

/// Order in which a query for `q` meets the points of an optional subtree.
pub open spec fn order_of<T: MetricPoint>(tree: Option<Box<TreeModel<T>>>, q: T) -> Seq<T>
    decreases tree,
{
    match tree {
        None => Seq::empty(),
        Some(node) => node.visit_order(q),
    }
}

impl<T: MetricPoint> TreeModel<T> {
    /// A node without children.
    pub open spec fn is_leaf(self) -> bool {
        self.near is None && self.far is None
    }

    /// Every point of the tree: the vantage point, then the near side, then
    /// the far side.
    pub open spec fn points(self) -> Seq<T>
        decreases self,
    {
        seq![self.vantage] + points_of(self.near) + points_of(self.far)
    }

    /// Number of edges on the longest way down from this node.
    pub open spec fn height(self) -> nat
        decreases self,
    {
        if self.is_leaf() {
            0
        } else {
            let near = height_of(self.near);
            let far = height_of(self.far);
            1 + if near >= far {
                near
            } else {
                far
            }
        }
    }

    /// The partition invariant: at every node the near side holds exactly
    /// points within the threshold of the vantage point, the far side points
    /// beyond it, and a leaf has threshold zero.
    pub open spec fn wf(self) -> bool
        decreases self,
    {
        &&& self.is_leaf() ==> self.threshold == 0
        &&& forall|i: int|
            0 <= i < points_of(self.near).len() ==> T::distance(
                &self.vantage,
                &#[trigger] points_of(self.near)[i],
            ) <= self.threshold
        &&& forall|i: int|
            0 <= i < points_of(self.far).len() ==> T::distance(
                &self.vantage,
                &#[trigger] points_of(self.far)[i],
            ) > self.threshold
        &&& wf_of(self.near)
        &&& wf_of(self.far)
    }

    /// Whether a query for `q` descends into the near side first.
    pub open spec fn near_first(self, q: T) -> bool {
        T::distance(&self.vantage, &q) <= self.threshold
    }

    /// Order in which a query for `q` meets the points when nothing is
    /// pruned: the vantage point, then the side `q` falls on, then the other.
    pub open spec fn visit_order(self, q: T) -> Seq<T>
        decreases self,
    {
        if self.near_first(q) {
            seq![self.vantage] + order_of(self.near, q) + order_of(self.far, q)
        } else {
            seq![self.vantage] + order_of(self.far, q) + order_of(self.near, q)
        }
    }
}

/// The nearer to `q` of two optional candidates. On equal distances the
/// first one stays.
pub open spec fn closer_of<T: MetricPoint>(q: T, a: Option<T>, b: Option<T>) -> Option<T> {
    match (a, b) {
        (None, _) => b,
        (_, None) => a,
        (Some(x), Some(y)) => if T::distance(&x, &q) <= T::distance(&y, &q) {
            a
        } else {
            b
        },
    }
}

/// The point of `s` nearest to `q`, the earliest one among equally near
/// points; nothing for an empty sequence.
pub open spec fn nearest_in<T: MetricPoint>(s: Seq<T>, q: T) -> Option<T>
    decreases s.len(),
{
    if s.len() == 0 {
        None
    } else {
        closer_of(q, nearest_in(s.drop_last(), q), Some(s.last()))
    }
}

/// What `nearest_in` yields is a point of the sequence that no other point
/// beats, and every earlier point is strictly farther away.
pub proof fn lemma_nearest_in_is_first_minimum<T: MetricPoint>(s: Seq<T>, q: T)
    requires
        s.len() > 0,
    ensures
        nearest_in(s, q) is Some,
        exists|k: int|
            {
                &&& 0 <= k < s.len()
                &&& #[trigger] s[k] == nearest_in(s, q)->0
                &&& forall|j: int|
                    0 <= j < k ==> T::distance(&#[trigger] s[j], &q) > T::distance(&s[k], &q)
            },
        forall|i: int|
            0 <= i < s.len() ==> T::distance(&nearest_in(s, q)->0, &q) <= T::distance(
                &#[trigger] s[i],
                &q,
            ),
    decreases s.len(),
{
    let front = s.drop_last();
    if front.len() == 0 {
        assert(nearest_in(front, q) is None);
        assert(s[0] == s.last());
    } else {
        lemma_nearest_in_is_first_minimum(front, q);
        let k = choose|k: int|
            {
                &&& 0 <= k < front.len()
                &&& #[trigger] front[k] == nearest_in(front, q)->0
                &&& forall|j: int|
                    0 <= j < k ==> T::distance(&#[trigger] front[j], &q) > T::distance(
                        &front[k],
                        &q,
                    )
            };
        let best = nearest_in(front, q)->0;
        assert forall|i: int| 0 <= i < s.len() implies T::distance(&nearest_in(s, q)->0, &q)
            <= T::distance(&#[trigger] s[i], &q) by {
            if i < front.len() {
                assert(front[i] == s[i]);
            }
        }
        if T::distance(&best, &q) <= T::distance(&s.last(), &q) {
            assert(s[k] == front[k]);
            assert forall|j: int| 0 <= j < k implies T::distance(&#[trigger] s[j], &q)
                > T::distance(&s[k], &q) by {
                assert(front[j] == s[j]);
            }
        } else {
            let last = s.len() - 1;
            assert(s[last] == nearest_in(s, q)->0);
            assert forall|j: int| 0 <= j < last implies T::distance(&#[trigger] s[j], &q)
                > T::distance(&s[last], &q) by {
                assert(front[j] == s[j]);
            }
        }
    }
}

/// Choosing the nearer candidate does not depend on how the choices are
/// grouped.
pub proof fn lemma_closer_of_associative<T: MetricPoint>(
    q: T,
    a: Option<T>,
    b: Option<T>,
    c: Option<T>,
)
    ensures
        closer_of(q, closer_of(q, a, b), c) == closer_of(q, a, closer_of(q, b, c)),
{
}

/// Searching a concatenation is searching both parts and keeping the nearer
/// find.
pub proof fn lemma_nearest_in_concat<T: MetricPoint>(a: Seq<T>, b: Seq<T>, q: T)
    ensures
        nearest_in(a + b, q) == closer_of(q, nearest_in(a, q), nearest_in(b, q)),
    decreases b.len(),
{
    if b.len() == 0 {
        assert(a + b =~= a);
    } else {
        lemma_nearest_in_concat(a, b.drop_last(), q);
        assert((a + b).drop_last() =~= a + b.drop_last());
        assert((a + b).last() == b.last());
        lemma_closer_of_associative(
            q,
            nearest_in(a, q),
            nearest_in(b.drop_last(), q),
            Some(b.last()),
        );
    }
}

/// With a find in hand, a part whose points are all at least as far away as
/// the find changes nothing.
pub proof fn lemma_nearest_in_past<T: MetricPoint>(best: T, a: Seq<T>, b: Seq<T>, q: T)
    requires
        forall|i: int|
            0 <= i < a.len() ==> T::distance(&best, &q) <= T::distance(&#[trigger] a[i], &q),
    ensures
        closer_of(q, Some(best), nearest_in(a + b, q)) == closer_of(
            q,
            Some(best),
            nearest_in(b, q),
        ),
{
    lemma_nearest_in_concat(a, b, q);
    lemma_closer_of_associative(q, Some(best), nearest_in(a, q), nearest_in(b, q));
    if a.len() > 0 {
        lemma_nearest_in_is_first_minimum(a, q);
    }
}

/// Looking at one more point and then at a part is looking at the point in
/// front of the part.
pub proof fn lemma_nearest_in_front<T: MetricPoint>(earlier: Option<T>, p: T, b: Seq<T>, q: T)
    ensures
        closer_of(q, earlier, nearest_in(seq![p] + b, q)) == closer_of(
            q,
            closer_of(q, earlier, Some(p)),
            nearest_in(b, q),
        ),
{
    let head = seq![p];
    assert(nearest_in(head, q) == Some(p)) by {
        assert(nearest_in(head.drop_last(), q) is None);
    }
    lemma_nearest_in_concat(head, b, q);
    lemma_closer_of_associative(q, earlier, Some(p), nearest_in(b, q));
}

/// A query meets exactly the points of the tree, each as often as the tree
/// holds it.
pub proof fn lemma_visit_order_is_permutation<T: MetricPoint>(tree: TreeModel<T>, q: T)
    ensures
        tree.visit_order(q).to_multiset() == tree.points().to_multiset(),
    decreases tree,
{
    broadcast use vstd::seq_lib::group_to_multiset_ensures;

    let head = seq![tree.vantage];
    let near_order = order_of(tree.near, q);
    let far_order = order_of(tree.far, q);
    let near_points = points_of(tree.near);
    let far_points = points_of(tree.far);
    if tree.near is Some {
        lemma_visit_order_is_permutation(*tree.near->0, q);
    }
    if tree.far is Some {
        lemma_visit_order_is_permutation(*tree.far->0, q);
    }
    assert(near_order.to_multiset() == near_points.to_multiset());
    assert(far_order.to_multiset() == far_points.to_multiset());
    vstd::seq_lib::lemma_multiset_commutative(head, near_points);
    vstd::seq_lib::lemma_multiset_commutative(head + near_points, far_points);
    if tree.near_first(q) {
        vstd::seq_lib::lemma_multiset_commutative(head, near_order);
        vstd::seq_lib::lemma_multiset_commutative(head + near_order, far_order);
    } else {
        vstd::seq_lib::lemma_multiset_commutative(head, far_order);
        vstd::seq_lib::lemma_multiset_commutative(head + far_order, near_order);
        assert(head.to_multiset().add(far_points.to_multiset()).add(near_points.to_multiset())
            =~= head.to_multiset().add(near_points.to_multiset()).add(far_points.to_multiset()));
    }
}

/// When the query lies within the threshold, every point on the far side is
/// farther from it than the gap between its distance and the threshold.
pub proof fn lemma_far_side_is_farther<T: MetricPoint>(tree: TreeModel<T>, q: T, bound: u64)
    requires
        tree.wf(),
        T::distance(&tree.vantage, &q) <= tree.threshold,
        bound <= tree.threshold - T::distance(&tree.vantage, &q),
    ensures
        forall|i: int|
            0 <= i < order_of(tree.far, q).len() ==> bound < T::distance(
                &#[trigger] order_of(tree.far, q)[i],
                &q,
            ),
{
    let order = order_of(tree.far, q);
    assert forall|i: int| 0 <= i < order.len() implies bound < T::distance(
        &#[trigger] order[i],
        &q,
    ) by {
        let p = order[i];
        lemma_visit_order_is_permutation(*tree.far->0, q);
        vstd::seq_lib::to_multiset_contains(order, p);
        vstd::seq_lib::to_multiset_contains(points_of(tree.far), p);
        assert(order.contains(p));
        let k = choose|k: int| 0 <= k < points_of(tree.far).len() && points_of(tree.far)[k] == p;
        assert(T::distance(&tree.vantage, &points_of(tree.far)[k]) > tree.threshold);
        T::triangle(&tree.vantage, &q, &p);
        T::symmetric(&q, &p);
    }
}

/// When the query lies beyond the threshold, every point on the near side is
/// at least as far from it as the gap between its distance and the
/// threshold.
pub proof fn lemma_near_side_is_farther<T: MetricPoint>(tree: TreeModel<T>, q: T, bound: u64)
    requires
        tree.wf(),
        T::distance(&tree.vantage, &q) > tree.threshold,
        bound <= T::distance(&tree.vantage, &q) - tree.threshold,
    ensures
        forall|i: int|
            0 <= i < order_of(tree.near, q).len() ==> bound <= T::distance(
                &#[trigger] order_of(tree.near, q)[i],
                &q,
            ),
{
    let order = order_of(tree.near, q);
    assert forall|i: int| 0 <= i < order.len() implies bound <= T::distance(
        &#[trigger] order[i],
        &q,
    ) by {
        let p = order[i];
        lemma_visit_order_is_permutation(*tree.near->0, q);
        vstd::seq_lib::to_multiset_contains(order, p);
        vstd::seq_lib::to_multiset_contains(points_of(tree.near), p);
        assert(order.contains(p));
        let k = choose|k: int|
            0 <= k < points_of(tree.near).len() && points_of(tree.near)[k] == p;
        assert(T::distance(&tree.vantage, &points_of(tree.near)[k]) <= tree.threshold);
        T::triangle(&tree.vantage, &p, &q);
    }
}

/// The first nearest point on the way of a query is a point of the tree, and
/// no point of the tree is nearer to the query.
pub proof fn lemma_nearest_meets_every_point<T: MetricPoint>(tree: TreeModel<T>, q: T)
    ensures
        nearest_in(tree.visit_order(q), q) is Some,
        tree.points().contains(nearest_in(tree.visit_order(q), q)->0),
        forall|i: int|
            0 <= i < tree.points().len() ==> T::distance(
                &nearest_in(tree.visit_order(q), q)->0,
                &q,
            ) <= T::distance(&#[trigger] tree.points()[i], &q),
{
    let order = tree.visit_order(q);
    let points = tree.points();
    lemma_visit_order_is_permutation(tree, q);
    vstd::seq_lib::to_multiset_len(order);
    vstd::seq_lib::to_multiset_len(points);
    assert(points.len() > 0);
    lemma_nearest_in_is_first_minimum(order, q);
    let best = nearest_in(order, q)->0;
    vstd::seq_lib::to_multiset_contains(order, best);
    vstd::seq_lib::to_multiset_contains(points, best);
    assert(order.contains(best));
    assert forall|i: int| 0 <= i < points.len() implies T::distance(&best, &q) <= T::distance(
        &#[trigger] points[i],
        &q,
    ) by {
        let p = points[i];
        vstd::seq_lib::to_multiset_contains(order, p);
        vstd::seq_lib::to_multiset_contains(points, p);
        assert(points.contains(p));
        let k = choose|k: int| 0 <= k < order.len() && order[k] == p;
        assert(T::distance(&best, &q) <= T::distance(&order[k], &q));
    }
}

/// A query through a tree that holds exactly the points of `points` finds
/// what a scan of `points` from end to end finds: a point of `points` at the
/// least distance from the query that any of them has.
pub proof fn lemma_search_matches_linear_scan<T: MetricPoint>(
    points: Seq<T>,
    tree: TreeModel<T>,
    q: T,
)
    requires
        tree.points().to_multiset() == points.to_multiset(),
    ensures
        nearest_in(tree.visit_order(q), q) is Some,
        nearest_in(points, q) is Some,
        points.contains(nearest_in(tree.visit_order(q), q)->0),
        T::distance(&nearest_in(tree.visit_order(q), q)->0, &q) == T::distance(
            &nearest_in(points, q)->0,
            &q,
        ),
        forall|i: int|
            0 <= i < points.len() ==> T::distance(&nearest_in(tree.visit_order(q), q)->0, &q)
                <= T::distance(&#[trigger] points[i], &q),
{
    let held = tree.points();
    lemma_nearest_meets_every_point(tree, q);
    let found = nearest_in(tree.visit_order(q), q)->0;
    vstd::seq_lib::to_multiset_len(held);
    vstd::seq_lib::to_multiset_len(points);
    vstd::seq_lib::to_multiset_contains(held, found);
    vstd::seq_lib::to_multiset_contains(points, found);
    assert forall|i: int| 0 <= i < points.len() implies T::distance(&found, &q) <= T::distance(
        &#[trigger] points[i],
        &q,
    ) by {
        let p = points[i];
        vstd::seq_lib::to_multiset_contains(held, p);
        vstd::seq_lib::to_multiset_contains(points, p);
        assert(points.contains(p));
        let k = choose|k: int| 0 <= k < held.len() && held[k] == p;
        assert(T::distance(&found, &q) <= T::distance(&held[k], &q));
    }
    lemma_nearest_in_is_first_minimum(points, q);
    let scanned = nearest_in(points, q)->0;
    let at = choose|at: int| 0 <= at < points.len() && points[at] == found;
    assert(T::distance(&scanned, &q) <= T::distance(&points[at], &q));
    let back = choose|k: int|
        {
            &&& 0 <= k < points.len()
            &&& #[trigger] points[k] == nearest_in(points, q)->0
            &&& forall|j: int|
                0 <= j < k ==> T::distance(&#[trigger] points[j], &q) > T::distance(
                    &points[k],
                    &q,
                )
        };
    assert(T::distance(&found, &q) <= T::distance(&points[back], &q));
}

} // verus!
