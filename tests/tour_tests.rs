use rand::rngs::StdRng;
use rand::SeedableRng;
use tsp_heuristics::hillclimb::{hillclimb, hillclimb_step};
use tsp_heuristics::metric::total_distance;
use tsp_heuristics::nearest_neighbor::{nearest_index, nearest_neighbor, nearest_neighbor_from};
use tsp_heuristics::point::{distance, Node};
use tsp_heuristics::two_opt::{find_move, reverse_range, two_opt};

fn node(id: i32, x: i32, y: i32) -> Node {
    Node { id, x, y }
}

fn crossed_square() -> Vec<Node> {
    vec![node(1, 0, 0), node(2, 1000, 1000), node(3, 0, 1000), node(4, 1000, 0)]
}

fn scattered() -> Vec<Node> {
    vec![
        node(1, 6734, 1453),
        node(2, 2233, 10),
        node(3, 5530, 1424),
        node(4, 401, 841),
        node(5, 3082, 1644),
        node(6, 7608, 4458),
        node(7, 7573, 3716),
        node(8, 7265, 1268),
        node(9, 6898, 1885),
        node(10, 1112, 2049),
        node(11, 5468, 2606),
        node(12, 5989, 2873),
    ]
}

fn sorted_ids(route: &Vec<Node>) -> Vec<i32> {
    let mut ids: Vec<i32> = route.iter().map(|n| n.id).collect();
    ids.sort();
    ids
}

fn same_points(a: &Vec<Node>, b: &Vec<Node>) -> bool {
    let mut x = a.clone();
    let mut y = b.clone();
    x.sort_by_key(|n| (n.id, n.x, n.y));
    y.sort_by_key(|n| (n.id, n.x, n.y));
    x == y
}

#[test]
fn distance_three_four_five() {
    assert_eq!(distance(&node(1, 0, 0), &node(2, 3, 4)), 5);
    assert_eq!(distance(&node(1, -3, -4), &node(2, 0, 0)), 5);
}

#[test]
fn distance_rounds_down() {
    assert_eq!(distance(&node(1, 0, 0), &node(2, 1, 1)), 1);
    assert_eq!(distance(&node(1, 0, 0), &node(2, 1000, 1000)), 1414);
    assert_eq!(distance(&node(1, 0, 0), &node(2, 0, 7)), 7);
}

#[test]
fn distance_extreme_coordinates() {
    let a = node(1, i32::MIN, i32::MIN);
    let b = node(2, i32::MAX, i32::MAX);
    assert_eq!(distance(&a, &b), 6074000998);
    assert_eq!(distance(&b, &a), 6074000998);
}

#[test]
fn distance_to_self_is_zero() {
    let a = node(1, 12, -40);
    assert_eq!(distance(&a, &a), 0);
}

#[test]
fn total_distance_two_points() {
    let route = vec![node(1, 0, 0), node(2, 3, 4)];
    assert_eq!(total_distance(&route), 10);
}

#[test]
fn total_distance_single_point() {
    let route = vec![node(1, 5, 9)];
    assert_eq!(total_distance(&route), 0);
}

#[test]
fn total_distance_square_perimeter_and_crossed() {
    let perimeter = vec![node(1, 0, 0), node(3, 0, 1000), node(2, 1000, 1000), node(4, 1000, 0)];
    assert_eq!(total_distance(&perimeter), 4000);
    assert_eq!(total_distance(&crossed_square()), 1414 + 1000 + 1414 + 1000);
}

#[test]
fn total_distance_rotation_invariant() {
    let route = scattered();
    let expected = total_distance(&route);
    for k in 0..route.len() {
        let mut rotated = route.clone();
        rotated.rotate_left(k);
        assert_eq!(total_distance(&rotated), expected);
    }
}

#[test]
fn total_distance_reversal_invariant() {
    let route = scattered();
    let mut reversed = route.clone();
    reversed.reverse();
    assert_eq!(total_distance(&reversed), total_distance(&route));
}

#[test]
fn total_distance_zero_only_when_coincident() {
    let same = vec![node(1, 7, 7), node(2, 7, 7), node(3, 7, 7)];
    assert_eq!(total_distance(&same), 0);
    let one_apart = vec![node(1, 7, 7), node(2, 7, 7), node(3, 7, 8)];
    assert_eq!(total_distance(&one_apart), 2);
}

#[test]
fn nearest_index_first_on_ties() {
    let route = vec![node(1, 0, 0), node(2, 5, 0), node(3, -1, 0), node(4, 1, 0), node(5, 0, 1)];
    assert_eq!(nearest_index(&route, 1), 2);
    let route = vec![node(1, 0, 0), node(2, 9, 0), node(3, 4, 0), node(4, 2, 0)];
    assert_eq!(nearest_index(&route, 1), 3);
    assert_eq!(nearest_index(&route, 3), 3);
}

#[test]
fn nearest_neighbor_from_on_a_line() {
    let mut route = vec![node(1, 0, 0), node(2, 50, 0), node(3, 10, 0), node(4, 30, 0)];
    nearest_neighbor_from(&mut route, 0);
    assert_eq!(route, vec![node(1, 0, 0), node(3, 10, 0), node(4, 30, 0), node(2, 50, 0)]);
}

#[test]
fn nearest_neighbor_from_moves_start_to_front() {
    let mut route = vec![node(1, 0, 0), node(2, 50, 0), node(3, 10, 0), node(4, 30, 0)];
    nearest_neighbor_from(&mut route, 1);
    assert_eq!(route, vec![node(2, 50, 0), node(4, 30, 0), node(3, 10, 0), node(1, 0, 0)]);
}

#[test]
fn nearest_neighbor_is_permutation() {
    for seed in 0..20u64 {
        let mut rng = StdRng::seed_from_u64(seed);
        let input = scattered();
        let mut route = input.clone();
        nearest_neighbor(&mut route, &mut rng);
        assert_eq!(route.len(), input.len());
        assert_eq!(sorted_ids(&route), sorted_ids(&input));
        assert!(same_points(&route, &input));
        for i in 1..route.len() {
            for j in (i + 1)..route.len() {
                assert!(distance(&route[i - 1], &route[i]) <= distance(&route[i - 1], &route[j]));
            }
        }
    }
}

#[test]
fn hillclimb_step_accepts_strict_improvement() {
    let mut route = crossed_square();
    hillclimb_step(&mut route, 1, 2);
    assert_eq!(route, vec![node(1, 0, 0), node(3, 0, 1000), node(2, 1000, 1000), node(4, 1000, 0)]);
    assert_eq!(total_distance(&route), 4000);
}

#[test]
fn hillclimb_step_rejects_worse_or_equal() {
    let perimeter = vec![node(1, 0, 0), node(3, 0, 1000), node(2, 1000, 1000), node(4, 1000, 0)];
    let mut route = perimeter.clone();
    hillclimb_step(&mut route, 1, 2);
    assert_eq!(route, perimeter);
    hillclimb_step(&mut route, 0, 2);
    assert_eq!(route, perimeter);
    hillclimb_step(&mut route, 3, 3);
    assert_eq!(route, perimeter);
}

#[test]
fn hillclimb_never_longer() {
    for seed in 0..10u64 {
        let mut rng = StdRng::seed_from_u64(seed);
        let input = scattered();
        let mut route = input.clone();
        let mut previous = total_distance(&route);
        for _ in 0..50 {
            hillclimb(&mut route, 20, &mut rng);
            let now = total_distance(&route);
            assert!(now <= previous);
            previous = now;
        }
        assert!(same_points(&route, &input));
    }
}

#[test]
fn hillclimb_without_iterations_is_a_no_op() {
    let mut rng = StdRng::seed_from_u64(3);
    let mut route = crossed_square();
    hillclimb(&mut route, 0, &mut rng);
    assert_eq!(route, crossed_square());
    hillclimb(&mut route, -5, &mut rng);
    assert_eq!(route, crossed_square());
}

#[test]
fn reverse_range_reverses_the_segment() {
    let mut route: Vec<Node> = (0..7).map(|k| node(k, k, 0)).collect();
    reverse_range(&mut route, 2, 5);
    let ids: Vec<i32> = route.iter().map(|n| n.id).collect();
    assert_eq!(ids, vec![0, 1, 5, 4, 3, 2, 6]);
    reverse_range(&mut route, 1, 5);
    let ids: Vec<i32> = route.iter().map(|n| n.id).collect();
    assert_eq!(ids, vec![0, 2, 3, 4, 5, 1, 6]);
    reverse_range(&mut route, 4, 4);
    let ids: Vec<i32> = route.iter().map(|n| n.id).collect();
    assert_eq!(ids, vec![0, 2, 3, 4, 5, 1, 6]);
}

#[test]
fn find_move_on_crossed_square() {
    assert_eq!(find_move(&crossed_square()), Some((0, 2)));
    let perimeter = vec![node(1, 0, 0), node(3, 0, 1000), node(2, 1000, 1000), node(4, 1000, 0)];
    assert_eq!(find_move(&perimeter), None);
}

#[test]
fn two_opt_uncrosses_square() {
    let base = crossed_square();
    for k in 0..base.len() {
        let mut route = base.clone();
        route.rotate_left(k);
        two_opt(&mut route, 100000);
        assert_eq!(total_distance(&route), 4000);
        let mut reversed = base.clone();
        reversed.rotate_left(k);
        reversed.reverse();
        two_opt(&mut reversed, 100000);
        assert_eq!(total_distance(&reversed), 4000);
    }
}

#[test]
fn two_opt_not_longer_and_idempotent() {
    let input = scattered();
    let mut route = input.clone();
    two_opt(&mut route, 100000);
    assert!(total_distance(&route) <= total_distance(&input));
    assert!(same_points(&route, &input));
    assert_eq!(find_move(&route), None);
    let once = route.clone();
    two_opt(&mut route, 100000);
    assert_eq!(route, once);
}

#[test]
fn two_opt_respects_iteration_cap() {
    let mut route = crossed_square();
    two_opt(&mut route, 0);
    assert_eq!(route, crossed_square());
    two_opt(&mut route, 1);
    assert_eq!(total_distance(&route), 4000);
}

#[test]
fn single_point_unchanged_by_every_algorithm() {
    let single = vec![node(1, 3, 3)];
    assert_eq!(total_distance(&single), 0);
    let mut rng = StdRng::seed_from_u64(1);
    let mut route = single.clone();
    nearest_neighbor(&mut route, &mut rng);
    assert_eq!(route, single);
    hillclimb(&mut route, 1000, &mut rng);
    assert_eq!(route, single);
    two_opt(&mut route, 1000);
    assert_eq!(route, single);
}

#[test]
fn two_points_unchanged_by_every_algorithm() {
    let pair = vec![node(1, 0, 0), node(2, 3, 4)];
    assert_eq!(total_distance(&pair), 10);
    let mut rng = StdRng::seed_from_u64(9);
    let mut route = pair.clone();
    hillclimb(&mut route, 1000, &mut rng);
    assert_eq!(route, pair);
    two_opt(&mut route, 1000);
    assert_eq!(route, pair);
    nearest_neighbor_from(&mut route, 0);
    assert_eq!(route, pair);
    nearest_neighbor(&mut route, &mut rng);
    assert_eq!(total_distance(&route), 10);
    assert!(same_points(&route, &pair));
}
