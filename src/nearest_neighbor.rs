use vstd::prelude::*;
use rand::rngs::StdRng;
use crate::point::{Node, dist, distance};
use crate::tour::{swap_at, swap_nodes, lemma_swap_multiset};
use crate::random::next_u32;

verus! {

/// `m` is the first position in `i..s.len()`, in scan order, whose point is
/// nearest to the point at position `i - 1`.
pub open spec fn is_nearest(s: Seq<Node>, i: int, m: int) -> bool {
    &&& 1 <= i <= m < s.len()
    &&& forall|k: int| i <= k < s.len() ==> dist(s[i - 1], s[m]) <= dist(s[i - 1], #[trigger] s[k])
    &&& forall|k: int| i <= k < m ==> dist(s[i - 1], s[m]) < dist(s[i - 1], #[trigger] s[k])
}

/// The position that the greedy step at `i` brings forward.
pub open spec fn nearest_after(s: Seq<Node>, i: int) -> int {
    choose|m: int| is_nearest(s, i, m)
}

/// The greedy construction from position `i` on: at each position, bring
/// forward the remaining point nearest to the previous one.
pub open spec fn greedy_from(s: Seq<Node>, i: int) -> Seq<Node>
    decreases s.len() - i,
{
    let m = nearest_after(s, i);
    if 1 <= i < s.len() && i <= m < s.len() {
        greedy_from(swap_at(s, i, m), i + 1)
    } else {
        s
    }
}

/// The nearest-neighbour tour of `s` that starts from the point at `start`.
pub open spec fn nn_tour(s: Seq<Node>, start: int) -> Seq<Node> {
    greedy_from(swap_at(s, 0, start), 1)
}

/// Each point after the first is at least as near to its predecessor as any
/// point that comes after it.
pub open spec fn is_greedy(s: Seq<Node>) -> bool {
    forall|i: int, j: int|
        1 <= i < j < s.len() ==> #[trigger] dist(s[i - 1], s[i]) <= #[trigger] dist(s[i - 1], s[j])
}

/// There is exactly one nearest position.
pub proof fn lemma_nearest_unique(s: Seq<Node>, i: int, m: int, m2: int)
    requires
        is_nearest(s, i, m),
        is_nearest(s, i, m2),
    ensures
        m == m2,
{
    if m < m2 {
        assert(dist(s[i - 1], s[m2]) < dist(s[i - 1], s[m]));
    } else if m2 < m {
        assert(dist(s[i - 1], s[m]) < dist(s[i - 1], s[m2]));
    }
}

/// The first position in `i..route.len()` whose point is nearest to the point
/// at position `i - 1`.
pub fn nearest_index(route: &Vec<Node>, i: usize) -> (r: usize)
    requires
        1 <= i < route.len(),
    ensures
        is_nearest(route@, i as int, r as int),
{
    let count = route.len();
    let mut min_distance = distance(&route[i - 1], &route[i]);
    let mut min_index: usize = i;
    let mut j: usize = i + 1;
    while j < count
        invariant
            count == route.len(),
            1 <= i <= min_index < j <= count,
            min_distance == dist(route@[i - 1], route@[min_index as int]),
            forall|k: int| i <= k < j ==> min_distance <= dist(route@[i - 1], #[trigger] route@[k]),
            forall|k: int| i <= k < min_index ==> min_distance < dist(route@[i - 1], #[trigger] route@[k]),
        decreases count - j,
    {
        let temp_distance = distance(&route[i - 1], &route[j]);
        if temp_distance < min_distance {
            min_distance = temp_distance;
            min_index = j;
        }
        j = j + 1;
    }
    min_index
}

/// Greedy construction from the point at `start`: that point is swapped to
/// the front, then each next position receives the nearest remaining point,
/// the first in scan order on ties.
pub fn nearest_neighbor_from(route: &mut Vec<Node>, start: usize)
    requires
        start < old(route).len(),
    ensures
        final(route)@ == nn_tour(old(route)@, start as int),
        final(route)@.to_multiset() == old(route)@.to_multiset(),
        final(route)@.len() == old(route)@.len(),
        final(route)@[0] == old(route)@[start as int],
        is_greedy(final(route)@),
{
    let ghost s = route@;
    let count = route.len();
    swap_nodes(route, 0, start);
    proof {
        lemma_swap_multiset(s, 0, start as int);
    }
    let mut i: usize = 1;
    while i < count
        invariant
            count == route.len(),
            1 <= i <= count,
            greedy_from(route@, i as int) == nn_tour(s, start as int),
            route@.to_multiset() == s.to_multiset(),
            route@[0] == s[start as int],
            forall|a: int, b: int|
                1 <= a < i && a < b < count ==> #[trigger] dist(route@[a - 1], route@[a]) <= #[trigger] dist(
                    route@[a - 1],
                    route@[b],
                ),
        decreases count - i,
    {
        let min_index = nearest_index(route, i);
        let ghost r = route@;
        proof {
            lemma_nearest_unique(r, i as int, min_index as int, nearest_after(r, i as int));
            lemma_swap_multiset(r, i as int, min_index as int);
        }
        swap_nodes(route, i, min_index);
        proof {
            let r2 = route@;
            assert forall|a: int, b: int|
                1 <= a < i + 1 && a < b < count implies #[trigger] dist(r2[a - 1], r2[a]) <= #[trigger] dist(
                r2[a - 1],
                r2[b],
            ) by {
                if a < i {
                    if b == min_index {
                        assert(dist(r[a - 1], r[a]) <= dist(r[a - 1], r[i as int]));
                    } else if b == i {
                        assert(dist(r[a - 1], r[a]) <= dist(r[a - 1], r[min_index as int]));
                    } else {
                        assert(dist(r[a - 1], r[a]) <= dist(r[a - 1], r[b]));
                    }
                } else {
                    if b == min_index {
                        assert(dist(r[i - 1], r[min_index as int]) <= dist(r[i - 1], r[i as int]));
                    } else {
                        assert(dist(r[i - 1], r[min_index as int]) <= dist(r[i - 1], r[b]));
                    }
                }
            }
        }
        i = i + 1;
    }
    proof {
        s.to_multiset_ensures();
        route@.to_multiset_ensures();
    }
}

/// Nearest-neighbour construction from a uniformly drawn starting point: the
/// result is the greedy tour from some starting point of the input.
pub fn nearest_neighbor(route: &mut Vec<Node>, rng: &mut StdRng)
    requires
        old(route).len() > 0,
    ensures
        exists|start: int|
            0 <= start < old(route).len() && final(route)@ == nn_tour(old(route)@, start),
        final(route)@.to_multiset() == old(route)@.to_multiset(),
        final(route)@.len() == old(route)@.len(),
        is_greedy(final(route)@),
{
    let count = route.len();
    let first_index = (next_u32(rng) as usize) % count;
    nearest_neighbor_from(route, first_index);
}

} // verus!
