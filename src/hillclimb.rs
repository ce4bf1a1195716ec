use vstd::prelude::*;
use rand::rngs::StdRng;
use crate::point::Node;
use crate::metric::{tour_len, total_distance};
use crate::tour::{swap_at, swap_nodes, lemma_swap_multiset};
use crate::random::gen_usize;

verus! {

/// One step of the climb: exchange the points at `i` and `j`, and keep the
/// exchange only if it makes the tour strictly shorter.
pub open spec fn climb_step(s: Seq<Node>, i: int, j: int) -> Seq<Node> {
    if tour_len(swap_at(s, i, j)) < tour_len(s) {
        swap_at(s, i, j)
    } else {
        s
    }
}

/// The climb that tries the exchanges of `moves` in order.
pub open spec fn climb_run(s: Seq<Node>, moves: Seq<(int, int)>) -> Seq<Node>
    decreases moves.len(),
{
    if moves.len() == 0 {
        s
    } else {
        climb_step(climb_run(s, moves.drop_last()), moves.last().0, moves.last().1)
    }
}

/// Every exchange of `moves` is between positions of a tour of `n` points.
pub open spec fn moves_in_range(moves: Seq<(int, int)>, n: int) -> bool {
    forall|k: int|
        0 <= k < moves.len() ==> 0 <= (#[trigger] moves[k]).0 < n && 0 <= moves[k].1 < n
}

/// A single step never lengthens the tour, and keeps its points.
pub proof fn lemma_step_not_longer(s: Seq<Node>, i: int, j: int)
    requires
        0 <= i < s.len(),
        0 <= j < s.len(),
    ensures
        tour_len(climb_step(s, i, j)) <= tour_len(s),
        climb_step(s, i, j).to_multiset() == s.to_multiset(),
        climb_step(s, i, j).len() == s.len(),
{
    lemma_swap_multiset(s, i, j);
}

/// A whole climb never lengthens the tour, and keeps its points.
pub proof fn lemma_run_not_longer(s: Seq<Node>, moves: Seq<(int, int)>)
    requires
        moves_in_range(moves, s.len() as int),
    ensures
        tour_len(climb_run(s, moves)) <= tour_len(s),
        climb_run(s, moves).to_multiset() == s.to_multiset(),
        climb_run(s, moves).len() == s.len(),
    decreases moves.len(),
{
    if moves.len() > 0 {
        let d = moves.drop_last();
        assert(moves_in_range(d, s.len() as int)) by {
            assert forall|k: int| 0 <= k < d.len() implies 0 <= (#[trigger] d[k]).0 < s.len() && 0
                <= d[k].1 < s.len() by {
                assert(d[k] == moves[k]);
            }
        }
        lemma_run_not_longer(s, d);
        assert(moves[moves.len() - 1] == moves.last());
        lemma_step_not_longer(climb_run(s, d), moves.last().0, moves.last().1);
    }
}

/// Tries the exchange of the points at `i` and `j`, undoing it unless the
/// tour became strictly shorter.
pub fn hillclimb_step(route: &mut Vec<Node>, i: usize, j: usize)
    requires
        i < old(route).len(),
        j < old(route).len(),
    ensures
        final(route)@ == climb_step(old(route)@, i as int, j as int),
        tour_len(final(route)@) <= tour_len(old(route)@),
        final(route)@.to_multiset() == old(route)@.to_multiset(),
{
    let ghost s = route@;
    let current_total_distance = total_distance(route);
    swap_nodes(route, i, j);
    proof {
        lemma_swap_multiset(s, i as int, j as int);
    }
    let new_total_distance = total_distance(route);
    if new_total_distance >= current_total_distance {
        swap_nodes(route, i, j);
        assert(swap_at(swap_at(s, i as int, j as int), i as int, j as int) =~= s);
    }
}

/// Random-exchange hill climbing for `max_iterations` steps, each on two
/// positions drawn independently and uniformly, equal positions included.
pub fn hillclimb(route: &mut Vec<Node>, max_iterations: i32, rng: &mut StdRng)
    requires
        old(route).len() > 0,
    ensures
        exists|moves: Seq<(int, int)>|
            moves.len() == (if max_iterations > 0 { max_iterations as int } else { 0 })
                && moves_in_range(moves, old(route).len() as int)
                && final(route)@ == climb_run(old(route)@, moves),
        tour_len(final(route)@) <= tour_len(old(route)@),
        final(route)@.to_multiset() == old(route)@.to_multiset(),
        final(route)@.len() == old(route)@.len(),
{
    let ghost s = route@;
    let ghost mut moves: Seq<(int, int)> = Seq::empty();
    let node_count = route.len();
    let mut it: i32 = 0;
    while it < max_iterations
        invariant
            node_count == route.len(),
            node_count == s.len(),
            node_count > 0,
            0 <= it,
            it <= max_iterations || it == 0,
            moves.len() == it,
            moves_in_range(moves, node_count as int),
            route@ == climb_run(s, moves),
        decreases max_iterations - it,
    {
        let rand_index1: usize = gen_usize(rng) % node_count;
        let rand_index2: usize = gen_usize(rng) % node_count;
        hillclimb_step(route, rand_index1, rand_index2);
        proof {
            let m2 = moves.push((rand_index1 as int, rand_index2 as int));
            assert(m2.drop_last() =~= moves);
            assert(moves_in_range(m2, node_count as int)) by {
                assert forall|k: int| 0 <= k < m2.len() implies 0 <= (#[trigger] m2[k]).0
                    < node_count && 0 <= m2[k].1 < node_count by {
                    if k < moves.len() {
                        assert(m2[k] == moves[k]);
                    }
                }
            }
            moves = m2;
        }
        it = it + 1;
    }
    proof {
        lemma_run_not_longer(s, moves);
        assert(moves.len() == (if max_iterations > 0 { max_iterations as int } else { 0 }));
        assert(moves_in_range(moves, s.len() as int) && route@ == climb_run(s, moves));
    }
}

} // verus!
