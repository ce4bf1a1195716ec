use vstd::prelude::*;
use crate::point::{Node, dist, distance, lemma_dist_symmetric};
use crate::metric::{tour_len, link, lemma_path_concat, lemma_path_reverse};
use crate::tour::swap_nodes;

verus! {

/// A 2-opt move on a tour of `n` points removes the edges leaving positions
/// `i` and `j`, which must not be adjacent.
pub open spec fn valid_move(n: int, i: int, j: int) -> bool {
    0 <= i && i + 2 <= j < n
}

/// The cyclic successor of position `i` in a tour of `n` points.
pub open spec fn next(i: int, n: int) -> int {
    (i + 1) % n
}

/// The cost of the two edges that the move at `(i, j)` removes.
pub open spec fn removed_cost(s: Seq<Node>, i: int, j: int) -> nat {
    dist(s[i], s[next(i, s.len() as int)]) + dist(s[j], s[next(j, s.len() as int)])
}

/// The cost of the two edges that the move at `(i, j)` puts in their place.
pub open spec fn added_cost(s: Seq<Node>, i: int, j: int) -> nat {
    dist(s[i], s[j]) + dist(s[next(i, s.len() as int)], s[next(j, s.len() as int)])
}

/// The move at `(i, j)` strictly shortens the tour.
pub open spec fn improves(s: Seq<Node>, i: int, j: int) -> bool {
    added_cost(s, i, j) < removed_cost(s, i, j)
}

/// `s` with the points at positions `lo..=hi` in reverse order.
pub open spec fn reverse_segment(s: Seq<Node>, lo: int, hi: int) -> Seq<Node> {
    s.subrange(0, lo) + s.subrange(lo, hi + 1).reverse() + s.subrange(hi + 1, s.len() as int)
}

/// `(i2, j2)` comes before `(i, j)` in the order in which moves are scanned.
pub open spec fn scanned_before(i2: int, j2: int, i: int, j: int) -> bool {
    i2 < i || (i2 == i && j2 < j)
}

/// `(i, j)` is the first improving move in scan order.
pub open spec fn is_first_move(s: Seq<Node>, i: int, j: int) -> bool {
    &&& valid_move(s.len() as int, i, j)
    &&& improves(s, i, j)
    &&& forall|i2: int, j2: int|
        valid_move(s.len() as int, i2, j2) && scanned_before(i2, j2, i, j) ==> !#[trigger] improves(
            s,
            i2,
            j2,
        )
}

/// Some move improves the tour: it is not 2-opt-locally optimal.
pub open spec fn has_move(s: Seq<Node>) -> bool {
    exists|i: int, j: int| valid_move(s.len() as int, i, j) && #[trigger] improves(s, i, j)
}

/// The tour after one pass: the first improving move applied.
pub open spec fn apply_first_move(s: Seq<Node>) -> Seq<Node> {
    let (i, j) = choose|i: int, j: int| is_first_move(s, i, j);
    reverse_segment(s, i + 1, j)
}

/// The tour after at most `fuel` passes, each applying the first improving
/// move, stopping early at a tour that no move improves.
pub open spec fn two_opt_run(s: Seq<Node>, fuel: int) -> Seq<Node>
    decreases fuel,
{
    if fuel <= 0 || !has_move(s) {
        s
    } else {
        two_opt_run(apply_first_move(s), fuel - 1)
    }
}

/// The search started on `s` reaches a tour that no move improves within
/// `fuel` passes.
pub open spec fn run_converges(s: Seq<Node>, fuel: int) -> bool
    decreases fuel,
{
    if !has_move(s) {
        true
    } else if fuel <= 0 {
        false
    } else {
        run_converges(apply_first_move(s), fuel - 1)
    }
}

/// There is at most one first improving move.
pub proof fn lemma_first_move_unique(s: Seq<Node>, i: int, j: int, i2: int, j2: int)
    requires
        is_first_move(s, i, j),
        is_first_move(s, i2, j2),
    ensures
        i == i2 && j == j2,
{
    if scanned_before(i2, j2, i, j) {
        assert(!improves(s, i2, j2));
    } else if scanned_before(i, j, i2, j2) {
        assert(!improves(s, i, j));
    }
}

/// Where some move improves, a first improving move exists.
pub proof fn lemma_first_move_exists(s: Seq<Node>, i: int, j: int)
    requires
        valid_move(s.len() as int, i, j),
        improves(s, i, j),
    ensures
        exists|i2: int, j2: int| is_first_move(s, i2, j2),
    decreases i, j,
{
    if !is_first_move(s, i, j) {
        let (i2, j2) = choose|i2: int, j2: int|
            valid_move(s.len() as int, i2, j2) && scanned_before(i2, j2, i, j) && #[trigger] improves(
                s,
                i2,
                j2,
            );
        lemma_first_move_exists(s, i2, j2);
    }
}

/// The move at `(i, j)` changes the tour length by exactly the difference
/// between the edges it adds and the edges it removes.
pub proof fn lemma_move_delta(s: Seq<Node>, i: int, j: int)
    requires
        valid_move(s.len() as int, i, j),
    ensures
        tour_len(reverse_segment(s, i + 1, j)) + removed_cost(s, i, j) == tour_len(s) + added_cost(
            s,
            i,
            j,
        ),
        reverse_segment(s, i + 1, j).len() == s.len(),
{
    let n = s.len() as int;
    let a = s.subrange(0, i + 1);
    let b = s.subrange(i + 1, j + 1);
    let c = s.subrange(j + 1, n);
    let rb = b.reverse();
    let r = reverse_segment(s, i + 1, j);
    assert(r =~= a + rb + c);
    assert(s =~= a + b + c);
    lemma_path_concat(a, b);
    lemma_path_concat(a + b, c);
    lemma_path_concat(a, rb);
    lemma_path_concat(a + rb, c);
    lemma_path_reverse(b);
    vstd::arithmetic::div_mod::lemma_small_mod((i + 1) as nat, n as nat);
    assert(next(i, n) == i + 1);
    assert(link(a, b) == dist(s[i], s[i + 1]));
    assert(link(a, rb) == dist(s[i], s[j]));
    if j + 1 < n {
        vstd::arithmetic::div_mod::lemma_small_mod((j + 1) as nat, n as nat);
        assert(next(j, n) == j + 1);
        assert(link(a + b, c) == dist(s[j], s[j + 1]));
        assert(link(a + rb, c) == dist(s[i + 1], s[j + 1]));
        assert(r[n - 1] == s[n - 1]);
    } else {
        vstd::arithmetic::div_mod::lemma_mod_self_0(n);
        assert(next(j, n) == 0);
        assert(a + b + c =~= a + b);
        assert(a + rb + c =~= a + rb);
        assert(r[n - 1] == s[i + 1]);
        assert(s[n - 1] == s[j]);
        lemma_dist_symmetric(s[0], s[j]);
        lemma_dist_symmetric(s[i + 1], s[0]);
    }
    assert(r[0] == s[0]);
}

/// The reversed segment holds the same points.
pub proof fn lemma_reverse_segment_multiset(s: Seq<Node>, lo: int, hi: int)
    requires
        0 <= lo <= hi < s.len(),
    ensures
        reverse_segment(s, lo, hi).to_multiset() == s.to_multiset(),
        reverse_segment(s, lo, hi).len() == s.len(),
{
    let a = s.subrange(0, lo);
    let b = s.subrange(lo, hi + 1);
    let c = s.subrange(hi + 1, s.len() as int);
    assert(s =~= a + b + c);
    b.lemma_reverse_to_multiset();
    vstd::seq_lib::lemma_multiset_commutative(a, b);
    vstd::seq_lib::lemma_multiset_commutative(a + b, c);
    vstd::seq_lib::lemma_multiset_commutative(a, b.reverse());
    vstd::seq_lib::lemma_multiset_commutative(a + b.reverse(), c);
}

/// One pass of the search never lengthens the tour: where a move improves,
/// the pass strictly shortens it.
pub proof fn lemma_pass_shortens(s: Seq<Node>)
    requires
        has_move(s),
    ensures
        tour_len(apply_first_move(s)) < tour_len(s),
        apply_first_move(s).to_multiset() == s.to_multiset(),
{
    let (i0, j0) = choose|i: int, j: int| valid_move(s.len() as int, i, j) && #[trigger] improves(s, i, j);
    lemma_first_move_exists(s, i0, j0);
    let (i, j) = choose|i: int, j: int| is_first_move(s, i, j);
    lemma_move_delta(s, i, j);
    lemma_reverse_segment_multiset(s, i + 1, j);
}

/// The search never lengthens the tour and keeps its points.
pub proof fn lemma_run_not_longer(s: Seq<Node>, fuel: int)
    ensures
        tour_len(two_opt_run(s, fuel)) <= tour_len(s),
        two_opt_run(s, fuel).to_multiset() == s.to_multiset(),
    decreases fuel,
{
    if fuel > 0 && has_move(s) {
        lemma_pass_shortens(s);
        lemma_run_not_longer(apply_first_move(s), fuel - 1);
    }
}

/// Where the search converged, no move improves its result, and running it
/// again on that result changes nothing.
pub proof fn lemma_run_idempotent(s: Seq<Node>, fuel: int, fuel2: int)
    requires
        run_converges(s, fuel),
    ensures
        !has_move(two_opt_run(s, fuel)),
        two_opt_run(two_opt_run(s, fuel), fuel2) == two_opt_run(s, fuel),
    decreases fuel,
{
    if has_move(s) {
        lemma_run_idempotent(apply_first_move(s), fuel - 1, fuel2);
    }
}

/// The first improving move in scan order, if any: positions `i < j` with
/// `j >= i + 2`, scanned by `i` and then by `j`.
pub fn find_move(route: &Vec<Node>) -> (r: Option<(usize, usize)>)
    ensures
        match r {
            None => !has_move(route@),
            Some((i, j)) => is_first_move(route@, i as int, j as int),
        },
{
    let count = route.len();
    let mut i: usize = 0;
    while i < count
        invariant
            count == route.len(),
            i <= count,
            forall|i2: int, j2: int|
                valid_move(count as int, i2, j2) && i2 < i ==> !#[trigger] improves(route@, i2, j2),
        decreases count - i,
    {
        if count - i > 2 {
            let mut j: usize = i + 2;
            while j < count
                invariant
                    count == route.len(),
                    i + 2 <= j <= count,
                    forall|i2: int, j2: int|
                        valid_move(count as int, i2, j2) && scanned_before(i2, j2, i as int, j as int)
                            ==> !#[trigger] improves(route@, i2, j2),
                decreases count - j,
            {
                let ni = (i + 1) % count;
                let nj = (j + 1) % count;
                let current_dist = distance(&route[i], &route[ni]) + distance(&route[j], &route[nj]);
                let changed_dist = distance(&route[i], &route[j]) + distance(&route[ni], &route[nj]);
                if changed_dist < current_dist {
                    return Some((i, j));
                }
                j = j + 1;
            }
        }
        i = i + 1;
    }
    None
}

/// Reverses the points at positions `lo..=hi` by exchanging them in pairs,
/// moving inward from both ends.
pub fn reverse_range(route: &mut Vec<Node>, lo: usize, hi: usize)
    requires
        lo <= hi < old(route).len(),
    ensures
        final(route)@ == reverse_segment(old(route)@, lo as int, hi as int),
        final(route)@.to_multiset() == old(route)@.to_multiset(),
{
    let ghost s = route@;
    let swap_count: usize = (hi - lo) / 2 + 1;
    let mut offset: usize = 0;
    while offset < swap_count
        invariant
            route@.len() == s.len(),
            lo <= hi < s.len(),
            swap_count == (hi - lo) / 2 + 1,
            offset <= swap_count,
            forall|k: int|
                0 <= k < s.len() ==> #[trigger] route@[k] == if (lo <= k < lo + offset) || (hi
                    - offset < k <= hi) {
                    s[lo + hi - k]
                } else {
                    s[k]
                },
        decreases swap_count - offset,
    {
        swap_nodes(route, lo + offset, hi - offset);
        offset = offset + 1;
    }
    let ghost r = reverse_segment(s, lo as int, hi as int);
    assert forall|k: int| 0 <= k < s.len() implies #[trigger] route@[k] == r[k] by {
        if k >= lo && k <= hi {
            assert(r[k] == s.subrange(lo as int, hi + 1).reverse()[k - lo]);
        }
    }
    assert(route@ =~= r);
    proof {
        lemma_reverse_segment_multiset(s, lo as int, hi as int);
    }
}

/// 2-opt local search: repeatedly applies the first improving move in scan
/// order, for at most `max_iterations` moves, and stops early once a full scan
/// finds none.
pub fn two_opt(route: &mut Vec<Node>, max_iterations: i32)
    ensures
        final(route)@ == two_opt_run(old(route)@, max_iterations as int),
        final(route)@.to_multiset() == old(route)@.to_multiset(),
        final(route)@.len() == old(route)@.len(),
        tour_len(final(route)@) <= tour_len(old(route)@),
        run_converges(old(route)@, max_iterations as int) ==> !has_move(final(route)@),
{
    let ghost s = route@;
    let mut it: i32 = 0;
    let mut done = false;
    while it < max_iterations && !done
        invariant
            0 <= it,
            done ==> !has_move(route@),
            two_opt_run(route@, max_iterations - it) == two_opt_run(s, max_iterations as int),
            run_converges(route@, max_iterations - it) == run_converges(s, max_iterations as int),
        decreases max_iterations - it, if done { 0int } else { 1int },
    {
        match find_move(route) {
            None => {
                done = true;
            },
            Some((i, j)) => {
                proof {
                    let (i2, j2) = choose|i2: int, j2: int| is_first_move(route@, i2, j2);
                    lemma_first_move_unique(route@, i as int, j as int, i2, j2);
                }
                reverse_range(route, i + 1, j);
                it = it + 1;
            },
        }
    }
    proof {
        lemma_run_not_longer(s, max_iterations as int);
        s.to_multiset_ensures();
        route@.to_multiset_ensures();
        if max_iterations - it > 0 {
            assert(done);
        }
    }
}

} // verus!
