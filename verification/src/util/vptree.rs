//! Vantage-point tree: exact nearest-neighbour search in a metric space.
//!
//! A tree is built once from a batch of points and is read-only afterwards.
//! Every node keeps one point, the vantage point, and a threshold; the other
//! points of the node are split into those within the threshold of the
//! vantage point and those beyond it. A query descends towards the side it
//! falls on and visits the other side only where the triangle inequality
//! does not rule it out.
//!
//! Building and searching keep their unfinished work on a stack of their
//! own, so that neither goes deeper into the call stack for a higher tree.

use crate::util::draws::{draws_for, draws_needed, pick_index, seeded_draws, BUILD_SEED};
use crate::util::tree_build::{
    grow, lemma_grow_sound, lemma_partition_shape, lemma_split_shares,
    lemma_without_vantage_is_rest, partition, partition_from, split, swapped, without_vantage,
};
use crate::util::tree_model::{
    closer_of, height_of, lemma_far_side_is_farther, lemma_near_side_is_farther,
    lemma_nearest_in_front, lemma_nearest_in_past, lemma_nearest_meets_every_point, nearest_in,
    order_of, points_of, wf_of, TreeModel,
};
use vstd::prelude::*;

verus! {

/// A point of a metric space whose distances are whole numbers.
///
/// The search prunes by the triangle inequality, so an implementation owes
/// the two laws below. Verus holds an implementation in verified code to
/// them; one in unverified code answers for them itself, and a tree over
/// points that break them may return a point that is not the nearest.
pub trait MetricPoint: Sized {
    /// The distance from `from` to `to`.
    spec fn distance(from: &Self, to: &Self) -> u64;

    /// Computes the distance from `from` to `to`.
    fn dist(from: &Self, to: &Self) -> (d: u64)
        ensures
            d == Self::distance(from, to),
    ;

    /// The distance is the same in both directions.
    proof fn symmetric(a: &Self, b: &Self)
        ensures
            Self::distance(a, b) == Self::distance(b, a),
    ;

    /// Going through `b` is never shorter than going straight.
    proof fn triangle(a: &Self, b: &Self, c: &Self)
        ensures
            Self::distance(a, c) <= Self::distance(a, b) + Self::distance(b, c),
    ;
}

/// Why a tree could not be built.
#[derive(Debug, PartialEq, Eq)]
pub enum BuildError {
    /// There was no point to build from.
    EmptyInput,
}

/// A vantage-point tree that owns its points. Its view is the
/// [`TreeModel`] of the same shape.
#[derive(Debug)]
pub struct VPTree<T: MetricPoint> {
    root: T,
    threshold: u64,
    near: Option<Box<VPTree<T>>>,
    far: Option<Box<VPTree<T>>>,
    height: usize,
}

/// The shape of an optional subtree.
spec fn model_of<T: MetricPoint>(tree: Option<Box<VPTree<T>>>) -> Option<
    Box<TreeModel<T>>,
>
    decreases tree,
{
    match tree {
        None => None,
        Some(node) => Some(
            Box::new(
                TreeModel {
                    vantage: node.root,
                    threshold: node.threshold,
                    near: model_of(node.near),
                    far: model_of(node.far),
                },
            ),
        ),
    }
}

impl<T: MetricPoint> View for VPTree<T> {
    type V = TreeModel<T>;

    closed spec fn view(&self) -> TreeModel<T> {
        TreeModel {
            vantage: self.root,
            threshold: self.threshold,
            near: model_of(self.near),
            far: model_of(self.far),
        }
    }
}

/// The shape behind an optional reference to a tree.
spec fn model_of_ref<T: MetricPoint>(tree: Option<&VPTree<T>>) -> Option<Box<TreeModel<T>>> {
    match tree {
        None => None,
        Some(node) => Some(Box::new(node@)),
    }
}

/// Whether the height kept at the top node of an optional subtree is the
/// height of its shape.
spec fn height_kept<T: MetricPoint>(tree: Option<Box<VPTree<T>>>) -> bool {
    match tree {
        None => true,
        Some(node) => node.height == node@.height(),
    }
}

/// The point behind an optional reference.
spec fn pointee<T>(found: Option<&T>) -> Option<T> {
    match found {
        None => None,
        Some(point) => Some(*point),
    }
}

impl<T: MetricPoint> VPTree<T> {
    /// Every tree satisfies the partition invariant and knows its height.
    #[verifier::type_invariant]
    closed spec fn sound(&self) -> bool {
        &&& self@.wf()
        &&& self.height == self@.height()
    }

    /// Builds the tree of `points`, picking vantage points and thresholds by
    /// the draws of a generator seeded with [`BUILD_SEED`]. The tree owns the
    /// points from then on. Fails with `EmptyInput` where there is no point.
    pub fn build(points: Vec<T>) -> (res: Result<Self, BuildError>)
        ensures
            res is Err <==> points@.len() == 0,
            res matches Err(error) ==> error == BuildError::EmptyInput,
            res matches Ok(tree) ==> {
                &&& exists|draws: Seq<u32>|
                    draws.len() == draws_for(points@.len()) && Some(Box::new(tree@)) == grow(
                        points@,
                        draws,
                    ).0
                &&& tree@.wf()
                &&& tree@.points().to_multiset() == points@.to_multiset()
                &&& tree@.height() <= points@.len() - 1
            },
    {
        let count: usize = draws_needed(points.len());
        let draws = seeded_draws(BUILD_SEED, count);
        Self::build_from_draws(points, &draws)
    }

    /// Builds the tree of `points` with the picks that `draws` dictates: the
    /// result is a function of the two. Fails with `EmptyInput` where there
    /// is no point.
    pub fn build_from_draws(points: Vec<T>, draws: &Vec<u32>) -> (res: Result<Self, BuildError>)
        ensures
            res is Err <==> points@.len() == 0,
            res matches Err(error) ==> error == BuildError::EmptyInput,
            res matches Ok(tree) ==> {
                &&& Some(Box::new(tree@)) == grow(points@, draws@).0
                &&& tree@.wf()
                &&& tree@.points().to_multiset() == points@.to_multiset()
                &&& tree@.height() <= points@.len() - 1
            },
    {
        proof {
            lemma_grow_sound(points@, draws@);
            assert(draws@.skip(0) =~= draws@);
        }
        let (tree, _) = Self::construct(points, draws, 0);
        match tree {
            Some(boxed) => Ok(*boxed),
            None => Err(BuildError::EmptyInput),
        }
    }

    /// The height of the tree: the number of edges on the longest way down
    /// from the top node.
    pub fn height(&self) -> (h: usize)
        ensures
            h == self@.height(),
    {
        proof {
            use_type_invariant(self);
        }
        self.height
    }

    /// Takes the tree apart and hands its points back: the vantage point of
    /// a node, then the points of its near side, then those of its far side.
    pub fn into_points(self) -> (points: Vec<T>)
        ensures
            points@ == self@.points(),
    {
        let ghost whole = self@.points();
        let mut points: Vec<T> = Vec::new();
        let mut stack: Vec<Box<VPTree<T>>> = Vec::new();
        let top = Box::new(self);
        proof {
            lemma_waiting_push(stack@, top);
            assert(points@ + (whole + Seq::<T>::empty()) =~= whole);
        }
        stack.push(top);
        while stack.len() > 0
            invariant
                points@ + waiting_points(stack@) == whole,
            decreases waiting_points(stack@).len(),
        {
            let ghost before = stack@;
            let ghost taken = points@;
            let node = stack.pop().unwrap();
            let ghost rest = waiting_points(stack@);
            let ghost near_points = points_of(model_of(node.near));
            let ghost far_points = points_of(model_of(node.far));
            proof {
                assert(before =~= stack@.push(node));
                lemma_waiting_push(stack@, node);
            }
            let VPTree { root, threshold: _, near, far, height: _ } = *node;
            points.push(root);
            if let Some(tree) = far {
                proof {
                    lemma_waiting_push(stack@, tree);
                }
                stack.push(tree);
            }
            assert(waiting_points(stack@) =~= far_points + rest);
            if let Some(tree) = near {
                proof {
                    lemma_waiting_push(stack@, tree);
                }
                stack.push(tree);
            }
            assert(waiting_points(stack@) =~= near_points + (far_points + rest));
            assert(points@ + waiting_points(stack@) =~= taken + (seq![root] + near_points
                + far_points + rest));
        }
        assert(points@ + Seq::<T>::empty() =~= points@);
        points
    }

    /// The point of the tree nearest to `point`. Among equally near points
    /// it is the one the search meets first.
    pub fn nearest<'a, 'b>(&'a self, point: &'b T) -> (found: &'a T)
        ensures
            Some(*found) == nearest_in(self@.visit_order(*point), *point),
            self@.points().contains(*found),
            forall|i: int|
                0 <= i < self@.points().len() ==> T::distance(found, point) <= T::distance(
                    &#[trigger] self@.points()[i],
                    point,
                ),
    {
        proof {
            use_type_invariant(self);
            lemma_nearest_meets_every_point(self@, *point);
        }
        Self::nearest_impl(Some(self), point).unwrap()
    }
}

/// `<[T]>::swap`: exchanges the items at `i` and `j` and leaves the others
/// where they are. The indices must be in bounds, as `swap` panics otherwise.
#[verifier::external_body]
fn swap_items<T>(items: &mut Vec<T>, i: usize, j: usize)
    requires
        i < old(items)@.len(),
        j < old(items)@.len(),
    ensures
        final(items)@ == swapped(old(items)@, i as int, j as int),
{
    items.swap(i, j)
}

/// Cuts `vec` in two before the item at `idx`.
fn split_at<T>(vec: Vec<T>, idx: usize) -> (parts: (Vec<T>, Vec<T>))
    requires
        idx <= vec@.len(),
    ensures
        parts.0@ == vec@.subrange(0, idx as int),
        parts.1@ == vec@.subrange(idx as int, vec@.len() as int),
{
    let mut vec = vec;
    let right = vec.split_off(idx);
    (vec, right)
}

/// A node whose sides are still growing: its vantage point and threshold,
/// the near side once it is grown, and the points of the far side until that
/// side is turned to. `given` and `stream` are the points and the draws that
/// the node grows from.
struct Frame<T: MetricPoint> {
    root: T,
    threshold: u64,
    near: Option<Box<VPTree<T>>>,
    far_points: Vec<T>,
    near_done: bool,
    given: Ghost<Seq<T>>,
    stream: Ghost<Seq<u32>>,
}

/// What building does next: grow a subtree out of points, or hand a grown
/// subtree to the node that waits for it.
enum Step<T: MetricPoint> {
    Grow(Vec<T>),
    Hand(Option<Box<VPTree<T>>>),
}

/// Whether a frame holds what the split of its points says.
spec fn frame_ok<T: MetricPoint>(frame: Frame<T>) -> bool {
    let first = split(frame.given@, frame.stream@);
    &&& 2 <= frame.given@.len() <= usize::MAX
    &&& frame.root == first.vantage
    &&& frame.threshold == first.threshold
    &&& if frame.near_done {
        &&& model_of(frame.near) == grow(first.near, first.draws).0
        &&& height_kept(frame.near)
    } else {
        frame.far_points@ == first.far
    }
}

/// The points and the draws that the side a frame waits for grows from.
spec fn job_above<T: MetricPoint>(frame: Frame<T>) -> (Seq<T>, Seq<u32>) {
    let first = split(frame.given@, frame.stream@);
    if frame.near_done {
        (first.far, grow(first.near, first.draws).1)
    } else {
        (first.near, first.draws)
    }
}

/// The points and the draws that the subtree being grown above a stack of
/// frames grows from: those of the whole tree where no frame waits.
spec fn job_of<T: MetricPoint>(stack: Seq<Frame<T>>, given: Seq<T>, stream: Seq<u32>) -> (
    Seq<T>,
    Seq<u32>,
) {
    if stack.len() == 0 {
        (given, stream)
    } else {
        job_above(stack.last())
    }
}

/// Whether every frame of a stack is in order and waits for the frame above
/// it.
spec fn stack_ok<T: MetricPoint>(stack: Seq<Frame<T>>, given: Seq<T>, stream: Seq<u32>) -> bool {
    forall|k: int|
        0 <= k < stack.len() ==> {
            &&& frame_ok(#[trigger] stack[k])
            &&& (stack[k].given@, stack[k].stream@) == job_of(stack.take(k), given, stream)
        }
}

/// Whether a step fits its job: points to grow are the points of the job, a
/// grown subtree is what grows out of the job and `left` are the draws it
/// left.
spec fn step_ok<T: MetricPoint>(step: Step<T>, job: (Seq<T>, Seq<u32>), left: Seq<u32>) -> bool {
    match step {
        Step::Grow(points) => (points@, left) == job,
        Step::Hand(built) => (model_of(built), left) == grow(job.0, job.1) && height_kept(built),
    }
}

/// A measure of the work that a frame stands for.
spec fn frame_weight<T: MetricPoint>(frame: Frame<T>) -> nat {
    if frame.near_done {
        1
    } else {
        4 * frame.far_points@.len() + 3
    }
}

/// A measure of the work that a stack of frames stands for.
spec fn stack_weight<T: MetricPoint>(stack: Seq<Frame<T>>) -> nat
    decreases stack.len(),
{
    if stack.len() == 0 {
        0
    } else {
        frame_weight(stack.last()) + stack_weight(stack.drop_last())
    }
}

/// A measure of the work that a step stands for.
spec fn step_weight<T: MetricPoint>(step: Step<T>) -> nat {
    match step {
        Step::Grow(points) => 4 * points@.len() + 1,
        Step::Hand(built) => 0,
    }
}

/// A frame that fits the job above a stack can be put on top of it.
proof fn lemma_stack_push<T: MetricPoint>(
    stack: Seq<Frame<T>>,
    frame: Frame<T>,
    given: Seq<T>,
    stream: Seq<u32>,
)
    requires
        stack_ok(stack, given, stream),
        frame_ok(frame),
        (frame.given@, frame.stream@) == job_of(stack, given, stream),
    ensures
        stack_ok(stack.push(frame), given, stream),
        job_of(stack.push(frame), given, stream) == job_above(frame),
        stack_weight(stack.push(frame)) == stack_weight(stack) + frame_weight(frame),
{
    let more = stack.push(frame);
    assert(more.drop_last() =~= stack);
    assert forall|k: int| 0 <= k < more.len() implies {
        &&& frame_ok(#[trigger] more[k])
        &&& (more[k].given@, more[k].stream@) == job_of(more.take(k), given, stream)
    } by {
        if k < stack.len() {
            assert(more[k] == stack[k]);
            assert(more.take(k) =~= stack.take(k));
        } else {
            assert(more.take(k) =~= stack);
        }
    }
}

/// The top frame of a stack comes off with the job it grows from.
proof fn lemma_stack_pop<T: MetricPoint>(stack: Seq<Frame<T>>, given: Seq<T>, stream: Seq<u32>)
    requires
        stack_ok(stack, given, stream),
        stack.len() > 0,
    ensures
        stack_ok(stack.drop_last(), given, stream),
        frame_ok(stack.last()),
        (stack.last().given@, stack.last().stream@) == job_of(stack.drop_last(), given, stream),
        stack_weight(stack) == stack_weight(stack.drop_last()) + frame_weight(stack.last()),
{
    let fewer = stack.drop_last();
    let top = stack.len() - 1;
    assert(frame_ok(stack[top]));
    assert(stack.take(top) =~= fewer);
    assert forall|k: int| 0 <= k < fewer.len() implies {
        &&& frame_ok(#[trigger] fewer[k])
        &&& (fewer[k].given@, fewer[k].stream@) == job_of(fewer.take(k), given, stream)
    } by {
        assert(fewer[k] == stack[k]);
        assert(fewer.take(k) =~= stack.take(k));
    }
}

impl<T: MetricPoint> VPTree<T> {
    /// Splits two or more points: takes out the vantage point that the draw
    /// at `next` picks, takes as threshold its distance from the point that
    /// the following draw picks among the rest, and scans the rest around the
    /// threshold. Returns the vantage point, the threshold, the near points,
    /// the far points and the place of the first draw that is left.
    fn split_node(points: Vec<T>, draws: &Vec<u32>, next: usize) -> (parts: (
        T,
        u64,
        Vec<T>,
        Vec<T>,
        usize,
    ))
        requires
            points@.len() >= 2,
            next <= draws@.len(),
        ensures
            parts.0 == split(points@, draws@.skip(next as int)).vantage,
            parts.1 == split(points@, draws@.skip(next as int)).threshold,
            parts.2@ == split(points@, draws@.skip(next as int)).near,
            parts.3@ == split(points@, draws@.skip(next as int)).far,
            next <= parts.4 <= draws@.len(),
            draws@.skip(parts.4 as int) == split(points@, draws@.skip(next as int)).draws,
    {
        let mut points = points;
        let n: usize = points.len();
        let ghost given = points@;

        let (root_idx, after_vantage) = pick_index(draws, next, n);
        swap_items(&mut points, 0, root_idx);
        let root = points.swap_remove(0);
        let ghost rest = points@;
        proof {
            lemma_without_vantage_is_rest(given, root_idx as int);
            assert(rest == without_vantage(given, root_idx as int));
        }

        let (split_idx, after_marker) = pick_index(draws, after_vantage, n - 1);
        let threshold: u64 = T::dist(&root, &points[split_idx]);

        let mut pos: usize = 0;
        let mut i: usize = 0;
        while i < n - 1
            invariant
                points@.len() == n - 1,
                pos <= i <= n - 1,
                partition_from(root, threshold, points@, i as int, pos as int) == partition(
                    root,
                    threshold,
                    rest,
                ),
            decreases n - 1 - i,
        {
            if T::dist(&root, &points[i]) <= threshold {
                swap_items(&mut points, pos, i);
                pos += 1;
            }
            i += 1;
        }
        proof {
            lemma_partition_shape(root, threshold, rest, 0, 0);
        }

        let (left, right) = split_at(points, pos);
        (root, threshold, left, right, after_marker)
    }

    /// Grows the subtree of `points`, reading `draws` from place `next` on.
    /// Returns the subtree, none for no points, and the place of the first
    /// draw it left. The nodes whose sides are still growing wait on a
    /// stack, so that a high tree costs memory on the heap and not on the
    /// call stack.
    #[verifier::loop_isolation(false)]
    fn construct(points: Vec<T>, draws: &Vec<u32>, next: usize) -> (res: (
        Option<Box<Self>>,
        usize,
    ))
        requires
            next <= draws@.len(),
        ensures
            next <= res.1 <= draws@.len(),
            (model_of(res.0), draws@.skip(res.1 as int)) == grow(
                points@,
                draws@.skip(next as int),
            ),
            height_kept(res.0),
    {
        let ghost given = points@;
        let ghost stream = draws@.skip(next as int);
        let mut place: usize = next;
        let mut stack: Vec<Frame<T>> = Vec::new();
        let mut step = Step::Grow(points);
        loop
            invariant
                next <= place <= draws@.len(),
                stack_ok(stack@, given, stream),
                step_ok(step, job_of(stack@, given, stream), draws@.skip(place as int)),
            decreases step_weight(step) + stack_weight(stack@),
        {
            let ghost job = job_of(stack@, given, stream);
            match step {
                Step::Grow(cur) => {
                    let n: usize = cur.len();
                    if n == 0 {
                        step = Step::Hand(None);
                    } else if n == 1 {
                        let mut cur = cur;
                        let root = cur.swap_remove(0);
                        proof {
                            lemma_grow_sound(job.0, job.1);
                        }
                        let leaf = VPTree { root, threshold: 0, near: None, far: None, height: 0 };
                        step = Step::Hand(Some(Box::new(leaf)));
                    } else {
                        let (root, threshold, left, right, after) = Self::split_node(
                            cur,
                            draws,
                            place,
                        );
                        let frame = Frame {
                            root,
                            threshold,
                            near: None,
                            far_points: right,
                            near_done: false,
                            given: Ghost(job.0),
                            stream: Ghost(job.1),
                        };
                        proof {
                            lemma_split_shares(job.0, job.1);
                            lemma_stack_push(stack@, frame, given, stream);
                        }
                        stack.push(frame);
                        place = after;
                        step = Step::Grow(left);
                    }
                },
                Step::Hand(built) => {
                    if stack.len() == 0 {
                        return (built, place);
                    }
                    proof {
                        lemma_stack_pop(stack@, given, stream);
                    }
                    let frame = stack.pop().unwrap();
                    let ghost first = split(frame.given@, frame.stream@);
                    if !frame.near_done {
                        let Frame { root, threshold, near: _, far_points, near_done: _, given: g, stream: s } = frame;
                        let waiting = Frame {
                            root,
                            threshold,
                            near: built,
                            far_points: Vec::new(),
                            near_done: true,
                            given: g,
                            stream: s,
                        };
                        proof {
                            lemma_stack_push(stack@, waiting, given, stream);
                        }
                        stack.push(waiting);
                        step = Step::Grow(far_points);
                    } else {
                        let Frame { root, threshold, near, far_points: _, near_done: _, given: g, stream: s } = frame;
                        let far = built;
                        let ghost shape = TreeModel {
                            vantage: root,
                            threshold,
                            near: model_of(near),
                            far: model_of(far),
                        };
                        proof {
                            lemma_grow_sound(g@, s@);
                            assert(grow(g@, s@) == (
                                Some(Box::new(shape)),
                                draws@.skip(place as int),
                            ));
                            assert(height_of(Some(Box::new(shape))) == shape.height());
                        }
                        let mut tallest: usize = 0;
                        if let Some(near) = &near {
                            tallest = near.height;
                        }
                        if let Some(far) = &far {
                            if far.height > tallest {
                                tallest = far.height;
                            }
                        }
                        let height: usize = tallest + 1;
                        let node = VPTree { root, threshold, near, far, height };
                        step = Step::Hand(Some(Box::new(node)));
                    }
                },
            }
        }
    }
}

/// A reference to what an optional box holds.
fn to_optref<T>(opt: &Option<Box<T>>) -> (res: Option<&T>)
    ensures
        res == (match *opt {
            Some(boxed) => Some(&*boxed),
            None => None,
        }),
{
    match opt {
        Some(boxed) => Some(&**boxed),
        None => None,
    }
}

/// A subtree that a query has still to look at, and a distance that no point
/// of the subtree comes nearer to the query than.
struct Pending<'a, T: MetricPoint> {
    tree: &'a VPTree<T>,
    bound: u64,
}

/// Whether a pending subtree is well formed and keeps its bound for a query
/// for `q`.
spec fn pending_ok<'a, T: MetricPoint>(item: Pending<'a, T>, q: T) -> bool {
    &&& item.tree@.wf()
    &&& forall|i: int|
        0 <= i < item.tree@.visit_order(q).len() ==> item.bound <= T::distance(
            &#[trigger] item.tree@.visit_order(q)[i],
            &q,
        )
}

/// Order in which a query for `q` meets the points of the pending subtrees
/// when nothing is pruned. The last subtree is looked at first.
spec fn pending_order<'a, T: MetricPoint>(stack: Seq<Pending<'a, T>>, q: T) -> Seq<T>
    decreases stack.len(),
{
    if stack.len() == 0 {
        Seq::empty()
    } else {
        stack.last().tree@.visit_order(q) + pending_order(stack.drop_last(), q)
    }
}

/// Number of points in the pending subtrees.
spec fn pending_points<'a, T: MetricPoint>(stack: Seq<Pending<'a, T>>) -> nat
    decreases stack.len(),
{
    if stack.len() == 0 {
        0
    } else {
        stack.last().tree@.points().len() + pending_points(stack.drop_last())
    }
}

/// A subtree put on the stack is looked at before the others.
proof fn lemma_pending_push<'a, T: MetricPoint>(stack: Seq<Pending<'a, T>>, item: Pending<'a, T>, q: T)
    ensures
        pending_order(stack.push(item), q) == item.tree@.visit_order(q) + pending_order(stack, q),
        pending_points(stack.push(item)) == item.tree@.points().len() + pending_points(stack),
{
    assert(stack.push(item).drop_last() =~= stack);
}

impl<T: MetricPoint> VPTree<T> {
    /// The first nearest point on the way of a query through an optional
    /// subtree. The subtrees still to look at wait on a stack, so that a high
    /// tree costs memory on the heap and not on the call stack. A subtree is
    /// left out only where the triangle inequality, or a find at distance
    /// zero, shows that it holds nothing nearer than the best find.
    fn nearest_impl<'a, 'b>(vptree: Option<&'a Self>, point: &'b T) -> (res: Option<&'a T>)
        requires
            wf_of(model_of_ref(vptree)),
        ensures
            pointee(res) == nearest_in(order_of(model_of_ref(vptree), *point), *point),
    {
        let ghost q = *point;
        let ghost whole = order_of(model_of_ref(vptree), q);
        let mut stack: Vec<Pending<'a, T>> = Vec::new();
        if let Some(tree) = vptree {
            let item = Pending { tree, bound: 0 };
            proof {
                lemma_pending_push(stack@, item, q);
                assert(whole + Seq::<T>::empty() =~= whole);
            }
            stack.push(item);
        }
        let mut closest: Option<&'a T> = None;
        let mut closest_dist: u64 = 0;
        while stack.len() > 0
            invariant
                q == *point,
                forall|k: int| 0 <= k < stack@.len() ==> pending_ok(#[trigger] stack@[k], q),
                closer_of(q, pointee(closest), nearest_in(pending_order(stack@, q), q))
                    == nearest_in(whole, q),
                closest matches Some(best) ==> closest_dist == T::distance(best, point),
            decreases pending_points(stack@),
        {
            let ghost before = stack@;
            let item = stack.pop().unwrap();
            let ghost rest = pending_order(stack@, q);
            let ghost mine = item.tree@.visit_order(q);
            proof {
                assert(before =~= stack@.push(item));
                lemma_pending_push(stack@, item, q);
                assert(pending_ok(before[before.len() - 1], q));
            }
            if closest.is_some() && closest_dist <= item.bound {
                proof {
                    lemma_nearest_in_past(*closest.unwrap(), mine, rest, q);
                }
            } else {
                let vpt = item.tree;
                let root = &vpt.root;
                let root_dist: u64 = T::dist(root, point);
                let ghost earlier = pointee(closest);
                closest = Self::get_closest(point, closest, Some(root));
                closest_dist = T::dist(closest.unwrap(), point);
                let near_first: bool = root_dist <= vpt.threshold;
                let (first, second, bound) = if near_first {
                    (to_optref(&vpt.near), to_optref(&vpt.far), vpt.threshold - root_dist)
                } else {
                    (to_optref(&vpt.far), to_optref(&vpt.near), root_dist - vpt.threshold)
                };
                let ghost first_order = order_of(model_of_ref(first), q);
                let ghost second_order = order_of(model_of_ref(second), q);
                proof {
                    if near_first {
                        lemma_far_side_is_farther(vpt@, q, bound);
                    } else {
                        lemma_near_side_is_farther(vpt@, q, bound);
                    }
                    assert(mine + rest =~= seq![vpt.root] + (first_order + (second_order + rest)));
                    lemma_nearest_in_front(
                        earlier,
                        vpt.root,
                        first_order + (second_order + rest),
                        q,
                    );
                    assert(vpt@.points().len() == 1 + points_of(model_of_ref(first)).len()
                        + points_of(model_of_ref(second)).len());
                }
                if let Some(tree) = second {
                    let waiting = Pending { tree, bound };
                    proof {
                        lemma_pending_push(stack@, waiting, q);
                    }
                    stack.push(waiting);
                }
                assert(pending_order(stack@, q) =~= second_order + rest);
                if let Some(tree) = first {
                    let next = Pending { tree, bound: 0 };
                    proof {
                        lemma_pending_push(stack@, next, q);
                    }
                    stack.push(next);
                }
                assert(pending_order(stack@, q) =~= first_order + (second_order + rest));
            }
        }
        closest
    }

    /// The nearer to `point` of two optional candidates; `a` on equal
    /// distances.
    fn get_closest<'a, 'b>(point: &'b T, a: Option<&'a T>, b: Option<&'a T>) -> (res: Option<
        &'a T,
    >)
        ensures
            pointee(res) == closer_of(*point, pointee(a), pointee(b)),
    {
        if a.is_none() {
            return b;
        }
        if b.is_none() {
            return a;
        }
        if T::dist(a.unwrap(), point) <= T::dist(b.unwrap(), point) {
            a
        } else {
            b
        }
    }
}

/// The points of the subtrees of a stack, the last subtree first.
spec fn waiting_points<T: MetricPoint>(stack: Seq<Box<VPTree<T>>>) -> Seq<T>
    decreases stack.len(),
{
    if stack.len() == 0 {
        Seq::empty()
    } else {
        stack.last()@.points() + waiting_points(stack.drop_last())
    }
}

/// A subtree put on the stack gives its points before the others.
proof fn lemma_waiting_push<T: MetricPoint>(stack: Seq<Box<VPTree<T>>>, tree: Box<VPTree<T>>)
    ensures
        waiting_points(stack.push(tree)) == tree@.points() + waiting_points(stack),
{
    assert(stack.push(tree).drop_last() =~= stack);
}

} // verus!
