use vstd::prelude::*;
use crate::point::{Node, dist, coincident, distance, lemma_dist_symmetric, lemma_dist_zero};

verus! {

/// The length of the open path through `s` in order: the sum of
/// `dist(s[i - 1], s[i])` for `i` in `1..s.len()`.
pub open spec fn path_len(s: Seq<Node>) -> nat
    decreases s.len(),
{
    if s.len() <= 1 {
        0
    } else {
        path_len(s.drop_last()) + dist(s[s.len() - 2], s[s.len() - 1])
    }
}

/// The length of the closed tour through `s`: the open path plus the edge that
/// joins the last point back to the first.
pub open spec fn tour_len(s: Seq<Node>) -> nat {
    if s.len() == 0 {
        0
    } else {
        path_len(s) + dist(s[0], s[s.len() - 1])
    }
}

/// The cost of the edge that joins two sequences placed one after the other.
pub open spec fn link(a: Seq<Node>, b: Seq<Node>) -> nat {
    if a.len() > 0 && b.len() > 0 {
        dist(a.last(), b[0])
    } else {
        0
    }
}

/// The path through `a + b` is the path through `a`, the path through `b`, and
/// the edge between them.
pub proof fn lemma_path_concat(a: Seq<Node>, b: Seq<Node>)
    ensures
        path_len(a + b) == path_len(a) + path_len(b) + link(a, b),
    decreases b.len(),
{
    if b.len() == 0 {
        assert(a + b =~= a);
    } else if b.len() == 1 {
        if a.len() > 0 {
            assert((a + b).drop_last() =~= a);
        } else {
            assert(a + b =~= b);
        }
    } else {
        assert((a + b).drop_last() =~= a + b.drop_last());
        lemma_path_concat(a, b.drop_last());
    }
}

/// The open path has the same length in both directions.
pub proof fn lemma_path_reverse(s: Seq<Node>)
    ensures
        path_len(s.reverse()) == path_len(s),
    decreases s.len(),
{
    if s.len() > 1 {
        let d = s.drop_last();
        let l = seq![s.last()];
        assert(s.reverse() =~= l + d.reverse());
        lemma_path_reverse(d);
        lemma_path_concat(l, d.reverse());
        lemma_dist_symmetric(s.last(), d.last());
    }
}

/// The tour length is the same whichever point the tour starts from.
pub proof fn lemma_tour_rotate(s: Seq<Node>, k: int)
    requires
        0 <= k <= s.len(),
    ensures
        tour_len(s.subrange(k, s.len() as int) + s.subrange(0, k)) == tour_len(s),
{
    let a = s.subrange(0, k);
    let b = s.subrange(k, s.len() as int);
    if k == 0 {
        assert(b + a =~= s);
    } else if k == s.len() {
        assert(b + a =~= s);
    } else {
        assert(a + b =~= s);
        lemma_path_concat(a, b);
        lemma_path_concat(b, a);
        lemma_dist_symmetric(a.last(), b[0]);
        lemma_dist_symmetric(a[0], b.last());
    }
}

/// The tour length is the same in both directions.
pub proof fn lemma_tour_reverse(s: Seq<Node>)
    ensures
        tour_len(s.reverse()) == tour_len(s),
{
    if s.len() > 0 {
        lemma_path_reverse(s);
        lemma_dist_symmetric(s[0], s[s.len() - 1]);
    }
}

/// All points of `s` stand where its first point stands.
pub open spec fn all_coincident(s: Seq<Node>) -> bool {
    forall|i: int| 0 <= i < s.len() ==> coincident(#[trigger] s[i], s[0])
}

proof fn lemma_path_zero(s: Seq<Node>)
    ensures
        path_len(s) == 0 <==> all_coincident(s),
    decreases s.len(),
{
    if s.len() > 1 {
        let d = s.drop_last();
        lemma_path_zero(d);
        lemma_dist_zero(s[s.len() - 2], s[s.len() - 1]);
        if path_len(s) == 0 {
            assert forall|i: int| 0 <= i < s.len() implies coincident(#[trigger] s[i], s[0]) by {
                if i < s.len() - 1 {
                    assert(coincident(d[i], d[0]));
                } else {
                    assert(coincident(d[s.len() - 2], d[0]));
                }
            }
        }
        if all_coincident(s) {
            assert forall|i: int| 0 <= i < d.len() implies coincident(#[trigger] d[i], d[0]) by {
                assert(coincident(s[i], s[0]));
            }
            assert(coincident(s[s.len() - 2], s[0]));
            assert(coincident(s[s.len() - 1], s[0]));
        }
    } else if s.len() == 1 {
        assert(coincident(s[0], s[0]));
    }
}

/// A tour of two or more points has length zero exactly when all its points
/// are coincident.
pub proof fn lemma_tour_zero(s: Seq<Node>)
    requires
        s.len() >= 2,
    ensures
        tour_len(s) >= 0,
        tour_len(s) == 0 <==> all_coincident(s),
{
    lemma_path_zero(s);
    lemma_dist_zero(s[0], s[s.len() - 1]);
    if all_coincident(s) {
        assert(coincident(s[s.len() - 1], s[0]));
    }
}

/// The total length of the closed tour through `route`.
pub fn total_distance(route: &Vec<Node>) -> (r: u128)
    requires
        route.len() > 0,
    ensures
        r as nat == tour_len(route@),
{
    let n = route.len();
    let mut total: u128 = 0;
    let mut i: usize = 1;
    while i < n
        invariant
            n == route.len(),
            1 <= i <= n,
            total as nat == path_len(route@.subrange(0, i as int)),
            total <= i * 0x2_0000_0000,
        decreases n - i,
    {
        let d = distance(&route[i - 1], &route[i]);
        proof {
            let t = route@.subrange(0, i + 1);
            assert(t.drop_last() =~= route@.subrange(0, i as int));
        }
        total = total + d as u128;
        i = i + 1;
    }
    assert(route@.subrange(0, n as int) =~= route@);
    let last = distance(&route[0], &route[n - 1]);
    total + last as u128
}

} // verus!
