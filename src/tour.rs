use vstd::prelude::*;
use crate::point::Node;

verus! {

/// `s` with the points at positions `i` and `j` exchanged.
pub open spec fn swap_at(s: Seq<Node>, i: int, j: int) -> Seq<Node> {
    s.update(i, s[j]).update(j, s[i])
}

/// Exchanging two points keeps the same points.
pub proof fn lemma_swap_multiset(s: Seq<Node>, i: int, j: int)
    requires
        0 <= i < s.len(),
        0 <= j < s.len(),
    ensures
        swap_at(s, i, j).to_multiset() == s.to_multiset(),
        swap_at(s, i, j).len() == s.len(),
{
    broadcast use vstd::seq_lib::group_to_multiset_ensures;
    broadcast use vstd::multiset::group_multiset_axioms;
    if i == j {
        assert(swap_at(s, i, j) =~= s);
    } else {
        let t = s.update(i, s[j]);
        vstd::seq_lib::to_multiset_update(s, i, s[j]);
        vstd::seq_lib::to_multiset_update(t, j, s[i]);
        assert(t[j] == s[j]);
        assert(s.to_multiset().count(s[i]) > 0);
        assert(s.to_multiset().insert(s[j]).remove(s[i]).count(s[j]) > 0);
        assert(swap_at(s, i, j).to_multiset() =~= s.to_multiset());
    }
}

/// Exchanges the points at positions `i` and `j` of `route`.
pub fn swap_nodes(route: &mut Vec<Node>, i: usize, j: usize)
    requires
        i < old(route).len(),
        j < old(route).len(),
    ensures
        final(route)@ == swap_at(old(route)@, i as int, j as int),
{
    let a = route[i];
    let b = route[j];
    route[i] = b;
    route[j] = a;
}

} // verus!
