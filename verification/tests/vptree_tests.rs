use blush::util::draws::{draws_needed, pick_index, seeded_draws, BUILD_SEED};
use blush::util::vptree::{BuildError, MetricPoint, VPTree};
use rand::rngs::SmallRng;
use rand::{Rng, SeedableRng};

/// A point of the plane under the Euclidean distance, counted in millionths
/// and rounded up.
#[derive(Clone, Copy, Debug, PartialEq)]
struct Planar([f64; 2]);

fn planar_distance(from: &Planar, to: &Planar) -> u64 {
    let dx = from.0[0] - to.0[0];
    let dy = from.0[1] - to.0[1];
    ((dx * dx + dy * dy).sqrt() * 1_000_000.0).ceil() as u64
}

impl MetricPoint for Planar {
    fn distance(from: &Self, to: &Self) -> u64 {
        planar_distance(from, to)
    }

    fn dist(from: &Self, to: &Self) -> u64 {
        planar_distance(from, to)
    }

    fn symmetric(_a: &Self, _b: &Self) {}

    fn triangle(_a: &Self, _b: &Self, _c: &Self) {}
}

/// A point of the number line.
#[derive(Clone, Copy, Debug, PartialEq, Eq)]
struct OnLine(i64);

impl MetricPoint for OnLine {
    fn distance(from: &Self, to: &Self) -> u64 {
        from.0.abs_diff(to.0)
    }

    fn dist(from: &Self, to: &Self) -> u64 {
        from.0.abs_diff(to.0)
    }

    fn symmetric(_a: &Self, _b: &Self) {}

    fn triangle(_a: &Self, _b: &Self, _c: &Self) {}
}

/// A grid point under the Euclidean distance rounded up to a whole number.
#[derive(Clone, Copy, Debug, PartialEq, Eq)]
struct Grid(i64, i64);

fn grid_distance(from: &Grid, to: &Grid) -> u64 {
    let dx = from.0.abs_diff(to.0);
    let dy = from.1.abs_diff(to.1);
    let square = dx * dx + dy * dy;
    let mut root = (square as f64).sqrt() as u64;
    while root * root < square {
        root += 1;
    }
    while root > 0 && (root - 1) * (root - 1) >= square {
        root -= 1;
    }
    root
}

impl MetricPoint for Grid {
    fn distance(from: &Self, to: &Self) -> u64 {
        grid_distance(from, to)
    }

    fn dist(from: &Self, to: &Self) -> u64 {
        grid_distance(from, to)
    }

    fn symmetric(_a: &Self, _b: &Self) {}

    fn triangle(_a: &Self, _b: &Self, _c: &Self) {}
}

fn line(values: &[i64]) -> Vec<OnLine> {
    values.iter().map(|v| OnLine(*v)).collect()
}

#[test]
fn vptree_one() {
    let data = [[1., 2.], [2., 1.], [0., 0.], [-1., 3.]];
    let vp = VPTree::build(data.iter().map(|p| Planar(*p)).collect()).unwrap();
    assert_eq!(vp.nearest(&Planar([4.0, 3.0])), &Planar([2., 1.]));
}

#[test]
fn empty_input_is_refused() {
    let built = VPTree::<OnLine>::build(Vec::new());
    assert!(matches!(built, Err(BuildError::EmptyInput)));
    let built = VPTree::<OnLine>::build_from_draws(Vec::new(), &vec![3, 1, 4]);
    assert!(matches!(built, Err(BuildError::EmptyInput)));
}

#[test]
fn single_point_answers_every_query() {
    let tree = VPTree::build(vec![Planar([5., 5.])]).unwrap();
    assert_eq!(tree.height(), 0);
    for query in [[5., 5.], [0., 0.], [-100., 250.], [1e6, -1e6]] {
        assert_eq!(tree.nearest(&Planar(query)), &Planar([5., 5.]));
    }
}

#[test]
fn identical_points_make_a_chain() {
    let origin = Planar([0., 0.]);
    let tree = VPTree::build(vec![origin, origin, origin]).unwrap();
    assert_eq!(tree.height(), 2);
    for query in [[0., 0.], [3., 4.], [-7., 0.5]] {
        assert_eq!(tree.nearest(&Planar(query)), &origin);
    }
}

#[test]
fn identical_points_make_a_chain_whatever_the_draws() {
    for draws in [vec![], vec![0, 0, 0, 0], vec![7, 11, 13, 17], vec![u32::MAX; 8]] {
        let tree = VPTree::build_from_draws(line(&[4, 4, 4, 4, 4]), &draws).unwrap();
        assert_eq!(tree.height(), 4);
        assert_eq!(tree.nearest(&OnLine(-9)), &OnLine(4));
    }
}

#[test]
fn random_cloud_matches_linear_scan() {
    let mut rng = SmallRng::seed_from_u64(2024);
    let cloud: Vec<Grid> = (0..1000)
        .map(|_| Grid(rng.gen_range(-100_000..100_000), rng.gen_range(-100_000..100_000)))
        .collect();
    let tree = VPTree::build(cloud.clone()).unwrap();
    assert!(tree.height() <= 999);
    for _ in 0..100 {
        let query = Grid(rng.gen_range(-120_000..120_000), rng.gen_range(-120_000..120_000));
        let best = cloud.iter().map(|p| grid_distance(p, &query)).min().unwrap();
        let found = tree.nearest(&query);
        assert!(cloud.contains(found));
        assert_eq!(grid_distance(found, &query), best);
    }
}

#[test]
fn every_point_is_kept() {
    let values: Vec<i64> = (0..200).map(|i| (i * 37) % 101 - 50).collect();
    let tree = VPTree::build(line(&values)).unwrap();
    for value in &values {
        assert_eq!(tree.nearest(&OnLine(*value)), &OnLine(*value));
    }
    for absent in [-51, 51, 1000] {
        assert_ne!(tree.nearest(&OnLine(absent)), &OnLine(absent));
    }
}

#[test]
fn building_twice_gives_the_same_tree() {
    let values: Vec<i64> = (0..64).map(|i| (i * i * 7 + 3 * i) % 257).collect();
    let first = VPTree::build(line(&values)).unwrap();
    let second = VPTree::build(line(&values)).unwrap();
    assert_eq!(first.height(), second.height());
    for query in -10..270 {
        assert_eq!(first.nearest(&OnLine(query)), second.nearest(&OnLine(query)));
    }
}

#[test]
fn build_uses_the_fixed_seed() {
    let values: Vec<i64> = (0..50).map(|i| (i * 13) % 47).collect();
    let draws = seeded_draws(BUILD_SEED, draws_needed(values.len()));
    let seeded = VPTree::build(line(&values)).unwrap();
    let dictated = VPTree::build_from_draws(line(&values), &draws).unwrap();
    assert_eq!(seeded.height(), dictated.height());
    for query in -5..55 {
        assert_eq!(seeded.nearest(&OnLine(query)), dictated.nearest(&OnLine(query)));
    }
}

#[test]
fn height_stays_below_the_number_of_points() {
    for n in 1..40usize {
        let values: Vec<i64> = (0..n as i64).map(|i| (i * 29) % 31).collect();
        let tree = VPTree::build(line(&values)).unwrap();
        assert!(tree.height() <= n - 1);
    }
}

#[test]
fn draws_dictate_the_shape() {
    // All picks take the first place: 0 is on top with threshold 30 and all
    // others near it; below, 30 has 20 on its near side and 10 on its far side.
    let tree = VPTree::build_from_draws(line(&[0, 10, 20, 30]), &vec![0; 6]).unwrap();
    assert_eq!(tree.height(), 2);
    // The first pick takes 20, the second makes 10 the threshold, which
    // leaves 0 alone on the far side and 30 above 10 on the near side.
    let tree = VPTree::build_from_draws(line(&[0, 10, 20, 30]), &vec![2, 1, 0, 0]).unwrap();
    assert_eq!(tree.height(), 2);
    // 10 on top with threshold 10: both others are near, one below the other.
    let tree = VPTree::build_from_draws(line(&[0, 10, 20]), &vec![1, 0]).unwrap();
    assert_eq!(tree.height(), 2);
    // 0 on top with threshold 10: 10 is near, 20 is far.
    let tree = VPTree::build_from_draws(line(&[0, 10, 20]), &vec![0, 1]).unwrap();
    assert_eq!(tree.height(), 1);
}

#[test]
fn missing_draws_count_as_zero() {
    let short = VPTree::build_from_draws(line(&[5, 1, 9, 3, 7]), &vec![3]).unwrap();
    let padded =
        VPTree::build_from_draws(line(&[5, 1, 9, 3, 7]), &vec![3, 0, 0, 0, 0, 0, 0, 0]).unwrap();
    assert_eq!(short.height(), padded.height());
    for query in 0..10 {
        assert_eq!(short.nearest(&OnLine(query)), padded.nearest(&OnLine(query)));
    }
}

#[test]
fn picked_vantage_point_is_met_first() {
    // The first draw picks 100 as the top vantage point, so of the two
    // points equally near to 50 the search meets 100 first.
    let tree = VPTree::build_from_draws(line(&[0, 100, 1000]), &vec![1, 0, 0, 0]).unwrap();
    assert_eq!(tree.nearest(&OnLine(50)), &OnLine(100));
    // With 0 on top the tie goes the other way.
    let tree = VPTree::build_from_draws(line(&[0, 100, 1000]), &vec![0, 0, 0, 0]).unwrap();
    assert_eq!(tree.nearest(&OnLine(50)), &OnLine(0));
}

#[test]
fn ties_go_to_the_side_of_the_query() {
    // 0 is on top with threshold 10; on its near side 4 stands above 10, on
    // its far side 16 stands alone.
    let tree = VPTree::build_from_draws(line(&[0, 10, 16, 4]), &vec![0, 1, 0, 0]).unwrap();
    assert_eq!(tree.height(), 2);
    // 13 lies beyond the threshold, so the far side is searched first and 16
    // wins the tie with 10.
    assert_eq!(tree.nearest(&OnLine(13)), &OnLine(16));
    // 7 lies within it: 4 is met before 10.
    assert_eq!(tree.nearest(&OnLine(7)), &OnLine(4));
    // The top vantage point is met before everything else.
    assert_eq!(tree.nearest(&OnLine(2)), &OnLine(0));
}

#[test]
fn pick_index_reads_the_stream() {
    let draws = vec![17, 4, u32::MAX];
    assert_eq!(pick_index(&draws, 0, 5), (2, 1));
    assert_eq!(pick_index(&draws, 1, 5), (4, 2));
    assert_eq!(pick_index(&draws, 2, 10), (5, 3));
    assert_eq!(pick_index(&draws, 3, 10), (0, 3));
}

#[test]
fn draws_needed_is_two_per_point_but_one() {
    assert_eq!(draws_needed(0), 0);
    assert_eq!(draws_needed(1), 0);
    assert_eq!(draws_needed(2), 2);
    assert_eq!(draws_needed(1000), 1998);
    assert_eq!(draws_needed(usize::MAX), usize::MAX);
}

#[test]
fn seeded_draws_have_the_asked_length() {
    assert_eq!(seeded_draws(BUILD_SEED, 0).len(), 0);
    assert_eq!(seeded_draws(BUILD_SEED, 17).len(), 17);
    assert_eq!(seeded_draws(1, 5), seeded_draws(1, 5));
}

/// A point of the number line with a tag that the distance ignores.
#[derive(Debug, PartialEq)]
struct Tagged(i64, u8);

impl MetricPoint for Tagged {
    fn distance(from: &Self, to: &Self) -> u64 {
        from.0.abs_diff(to.0)
    }

    fn dist(from: &Self, to: &Self) -> u64 {
        from.0.abs_diff(to.0)
    }

    fn symmetric(_a: &Self, _b: &Self) {}

    fn triangle(_a: &Self, _b: &Self, _c: &Self) {}
}

#[test]
fn coinciding_points_answer_with_the_top_point() {
    let points = vec![Tagged(3, 0), Tagged(3, 1), Tagged(3, 2)];
    let tree = VPTree::build_from_draws(points, &vec![1, 0, 0, 0]).unwrap();
    assert_eq!(tree.height(), 2);
    assert_eq!(tree.nearest(&Tagged(10, 9)), &Tagged(3, 1));
    assert_eq!(tree.nearest(&Tagged(3, 9)), &Tagged(3, 1));
}

#[test]
fn two_points_make_a_tree_of_height_one() {
    let tree = VPTree::build(line(&[1, 2])).unwrap();
    assert_eq!(tree.height(), 1);
    assert_eq!(tree.nearest(&OnLine(0)), &OnLine(1));
    assert_eq!(tree.nearest(&OnLine(3)), &OnLine(2));
}

#[test]
fn far_side_is_searched_when_it_may_hold_something_nearer() {
    // 0 is on top with threshold 10, 10 on its near side, 11 on its far
    // side. A query at 10 finds 10 without the far side; one at 12 lies
    // beyond the threshold and finds 11 on the far side.
    let tree = VPTree::build_from_draws(line(&[0, 11, 10]), &vec![0, 0]).unwrap();
    assert_eq!(tree.height(), 1);
    assert_eq!(tree.nearest(&OnLine(10)), &OnLine(10));
    assert_eq!(tree.nearest(&OnLine(12)), &OnLine(11));
    assert_eq!(tree.nearest(&OnLine(-4)), &OnLine(0));
}

#[test]
fn far_side_is_searched_from_within_the_threshold() {
    // 0 is on top with threshold 80; -80 and 10 are on its near side, 90 on
    // its far side.
    let tree = VPTree::build_from_draws(line(&[0, -80, 10, 90]), &vec![0, 1, 0, 0]).unwrap();
    assert_eq!(tree.height(), 2);
    // 79 lies within the threshold, but the best find on the near side is 69
    // away, more than the gap of 1 to the threshold: the far side holds 90.
    assert_eq!(tree.nearest(&OnLine(79)), &OnLine(90));
    // 5 is as near to 0 as to 10; 0 is met first, and the far side is out of
    // reach.
    assert_eq!(tree.nearest(&OnLine(5)), &OnLine(0));
    assert_eq!(tree.nearest(&OnLine(-70)), &OnLine(-80));
}

#[test]
fn a_very_high_tree_is_built_and_searched() {
    // Coinciding points make a chain as high as the number of points allows.
    let n = 40_000;
    let mut points: Vec<Tagged> = (0..n).map(|i| Tagged(7, (i % 251) as u8)).collect();
    points.push(Tagged(9, 0));
    let tree = VPTree::build(points).unwrap();
    assert!(tree.height() >= n - 1);
    assert!(tree.height() <= n);
    assert_eq!(tree.nearest(&Tagged(100, 0)), &Tagged(9, 0));
    assert_eq!(tree.nearest(&Tagged(-3, 0)).0, 7);
    let points = tree.into_points();
    assert_eq!(points.len(), n + 1);
    assert_eq!(points.iter().filter(|p| p.0 == 9).count(), 1);
}

#[test]
fn the_tree_holds_each_point_as_often_as_the_input() {
    let values: Vec<i64> = (0..500).map(|i| (i * 37) % 101 - 50).collect();
    let tree = VPTree::build(line(&values)).unwrap();
    let mut held: Vec<i64> = tree.into_points().iter().map(|p| p.0).collect();
    let mut given = values.clone();
    held.sort();
    given.sort();
    assert_eq!(held, given);
}

#[test]
fn points_come_back_vantage_point_first() {
    // 0 is on top with threshold 80; on its near side -80 stands above 10,
    // on its far side 90 stands alone.
    let tree = VPTree::build_from_draws(line(&[0, -80, 10, 90]), &vec![0, 1, 0, 0]).unwrap();
    assert_eq!(tree.into_points(), line(&[0, -80, 10, 90]));
    let tree = VPTree::build_from_draws(line(&[0, 10, 20, 30]), &vec![0; 6]).unwrap();
    assert_eq!(tree.into_points(), line(&[0, 30, 20, 10]));
    let tree = VPTree::build(line(&[5])).unwrap();
    assert_eq!(tree.into_points(), line(&[5]));
}

#[test]
fn crowded_cloud_matches_linear_scan() {
    // Many points coincide and many distances tie.
    let mut rng = SmallRng::seed_from_u64(7);
    let cloud: Vec<Grid> = (0..600).map(|_| Grid(rng.gen_range(0..12), rng.gen_range(0..12))).collect();
    for draws in [vec![], vec![5; 1200], seeded_draws(99, 1198)] {
        let tree = VPTree::build_from_draws(cloud.clone(), &draws).unwrap();
        assert!(tree.height() <= 599);
        for _ in 0..200 {
            let query = Grid(rng.gen_range(-3..15), rng.gen_range(-3..15));
            let best = cloud.iter().map(|p| grid_distance(p, &query)).min().unwrap();
            let found = tree.nearest(&query);
            assert!(cloud.contains(found));
            assert_eq!(grid_distance(found, &query), best);
        }
    }
}

#[test]
fn build_fails_only_on_empty_input() {
    for n in 1..20i64 {
        assert!(VPTree::build(line(&(0..n).collect::<Vec<i64>>())).is_ok());
    }
    assert_eq!(VPTree::<OnLine>::build(vec![]).err(), Some(BuildError::EmptyInput));
}

#[test]
fn draws_past_two_per_point_change_nothing() {
    let values: Vec<i64> = (0..40).map(|i| (i * 17) % 43).collect();
    let enough = seeded_draws(3, draws_needed(values.len()));
    let mut more = enough.clone();
    more.extend([1, 2, 3, 4, 5]);
    let first = VPTree::build_from_draws(line(&values), &enough).unwrap();
    let second = VPTree::build_from_draws(line(&values), &more).unwrap();
    assert_eq!(first.height(), second.height());
    assert_eq!(first.into_points(), second.into_points());
}

#[test]
fn same_points_and_draws_give_the_same_tree() {
    let values: Vec<i64> = (0..100).map(|i| (i * i) % 97).collect();
    let draws = seeded_draws(11, 198);
    let first = VPTree::build_from_draws(line(&values), &draws).unwrap();
    let second = VPTree::build_from_draws(line(&values), &draws).unwrap();
    assert_eq!(first.height(), second.height());
    for query in -5..105 {
        assert_eq!(first.nearest(&OnLine(query)), second.nearest(&OnLine(query)));
    }
    assert_eq!(first.into_points(), second.into_points());
}
