use vstd::prelude::*;

verus! {

/// A point of the instance: an informational identifier and its position.
#[derive(Clone, Copy, Debug, PartialEq, Eq, Structural)]
pub struct Node {
    pub id: i32,
    pub x: i32,
    pub y: i32,
}

/// The squared Euclidean distance between two points.
pub open spec fn sq_dist(a: Node, b: Node) -> nat {
    let dx = a.x - b.x;
    let dy = a.y - b.y;
    (dx * dx + dy * dy) as nat
}

/// The largest `r` with `r * r <= s`.
pub open spec fn floor_sqrt(s: nat) -> nat
    decreases s,
{
    if s == 0 {
        0
    } else {
        let r = floor_sqrt((s - 1) as nat);
        if (r + 1) * (r + 1) <= s {
            r + 1
        } else {
            r
        }
    }
}

/// The Euclidean distance between two points, rounded down.
pub open spec fn dist(a: Node, b: Node) -> nat {
    floor_sqrt(sq_dist(a, b))
}

/// Two points are coincident when they stand at the same position.
pub open spec fn coincident(a: Node, b: Node) -> bool {
    a.x == b.x && a.y == b.y
}

proof fn lemma_square_monotone(a: nat, b: nat)
    requires
        a <= b,
    ensures
        a * a <= b * b,
{
    assert(a * a <= b * b) by (nonlinear_arith)
        requires
            a <= b,
    ;
}

/// `floor_sqrt(s)` is the integer square root of `s`.
pub proof fn lemma_floor_sqrt(s: nat)
    ensures
        floor_sqrt(s) * floor_sqrt(s) <= s,
        s < (floor_sqrt(s) + 1) * (floor_sqrt(s) + 1),
    decreases s,
{
    if s == 0 {
        assert(floor_sqrt(0) == 0);
        assert(s < (0 + 1) * (0 + 1)) by (nonlinear_arith)
            requires
                s == 0,
        ;
    } else {
        let p = (s - 1) as nat;
        lemma_floor_sqrt(p);
        let r = floor_sqrt(p);
        let q = floor_sqrt(s);
        if (r + 1) * (r + 1) <= s {
            assert(q == r + 1);
            assert((r + 1) * (r + 1) == s);
            assert((r + 1) * (r + 1) < (r + 2) * (r + 2)) by (nonlinear_arith);
        } else {
            assert(q == r);
            assert(s < (q + 1) * (q + 1));
            assert(q * q <= s);
        }
    }
}

/// The integer square root is unique.
pub proof fn lemma_floor_sqrt_unique(s: nat, r: nat)
    requires
        r * r <= s,
        s < (r + 1) * (r + 1),
    ensures
        floor_sqrt(s) == r,
{
    lemma_floor_sqrt(s);
    let q = floor_sqrt(s);
    if q < r {
        lemma_square_monotone(q + 1, r);
    } else if r < q {
        lemma_square_monotone(r + 1, q);
    }
}

/// Distance is symmetric.
pub proof fn lemma_dist_symmetric(a: Node, b: Node)
    ensures
        dist(a, b) == dist(b, a),
{
    assert(sq_dist(a, b) == sq_dist(b, a)) by (nonlinear_arith);
}

/// Two points are at distance zero exactly when they are coincident.
pub proof fn lemma_dist_zero(a: Node, b: Node)
    ensures
        dist(a, b) == 0 <==> coincident(a, b),
{
    let dx = a.x - b.x;
    let dy = a.y - b.y;
    let s = sq_dist(a, b);
    lemma_floor_sqrt(s);
    assert(dx * dx >= 0 && dy * dy >= 0) by (nonlinear_arith);
    assert(s == dx * dx + dy * dy);
    if coincident(a, b) {
        assert(dx == 0 && dy == 0);
        assert(dx * dx + dy * dy == 0) by (nonlinear_arith)
            requires
                dx == 0 && dy == 0,
        ;
        assert(s == 0);
        assert(floor_sqrt(0) == 0);
        assert(dist(a, b) == 0);
    } else {
        assert(dx * dx + dy * dy >= 1) by (nonlinear_arith)
            requires
                dx != 0 || dy != 0,
        ;
        let r = floor_sqrt(s);
        assert(r != 0) by (nonlinear_arith)
            requires
                s < (r + 1) * (r + 1),
                s >= 1,
        ;
    }
}

/// Every distance is below `2^33`.
pub proof fn lemma_dist_bound(a: Node, b: Node)
    ensures
        dist(a, b) < 0x2_0000_0000,
{
    let s = sq_dist(a, b);
    let dx = a.x - b.x;
    let dy = a.y - b.y;
    assert(-0x1_0000_0000 < dx < 0x1_0000_0000);
    assert(-0x1_0000_0000 < dy < 0x1_0000_0000);
    assert(dx * dx < 0x1_0000_0000_0000_0000) by (nonlinear_arith)
        requires
            -0x1_0000_0000 < dx < 0x1_0000_0000,
    ;
    assert(dy * dy < 0x1_0000_0000_0000_0000) by (nonlinear_arith)
        requires
            -0x1_0000_0000 < dy < 0x1_0000_0000,
    ;
    assert(dx * dx >= 0 && dy * dy >= 0) by (nonlinear_arith);
    assert(s == dx * dx + dy * dy);
    assert(s < 0x2_0000_0000_0000_0000);
    lemma_floor_sqrt(s);
    let r = floor_sqrt(s);
    if r >= 0x2_0000_0000 {
        assert(0x2_0000_0000 * 0x2_0000_0000 == 0x4_0000_0000_0000_0000);
        lemma_square_monotone(0x2_0000_0000, r);
    }
}

/// Integer square root by bisection: the largest `r` with `r * r <= s`.
fn isqrt(s: u128) -> (r: u64)
    requires
        s < 0x4_0000_0000_0000_0000,
    ensures
        r as nat == floor_sqrt(s as nat),
{
    let mut lo: u128 = 0;
    let mut hi: u128 = 0x2_0000_0000;
    while hi - lo > 1
        invariant
            lo < hi <= 0x2_0000_0000,
            lo * lo <= s,
            s < hi * hi,
        decreases hi - lo,
    {
        let mid: u128 = lo + (hi - lo) / 2;
        assert(mid * mid <= 0x4_0000_0000_0000_0000) by (nonlinear_arith)
            requires
                mid <= 0x2_0000_0000,
        ;
        if mid * mid <= s {
            lo = mid;
        } else {
            hi = mid;
        }
    }
    proof {
        lemma_floor_sqrt_unique(s as nat, lo as nat);
    }
    lo as u64
}

/// The Euclidean distance between two points, rounded down.
pub fn distance(node1: &Node, node2: &Node) -> (r: u64)
    ensures
        r as nat == dist(*node1, *node2),
        r < 0x2_0000_0000,
{
    let dx: i64 = node1.x as i64 - node2.x as i64;
    let dy: i64 = node1.y as i64 - node2.y as i64;
    let ax: u128 = if dx < 0 { (-dx) as u128 } else { dx as u128 };
    let ay: u128 = if dy < 0 { (-dy) as u128 } else { dy as u128 };
    assert(ax * ax < 0x1_0000_0000_0000_0000) by (nonlinear_arith)
        requires
            ax < 0x1_0000_0000,
    ;
    assert(ay * ay < 0x1_0000_0000_0000_0000) by (nonlinear_arith)
        requires
            ay < 0x1_0000_0000,
    ;
    assert(ax * ax == dx * dx) by (nonlinear_arith)
        requires
            ax == dx || ax == -dx,
    ;
    assert(ay * ay == dy * dy) by (nonlinear_arith)
        requires
            ay == dy || ay == -dy,
    ;
    let s: u128 = ax * ax + ay * ay;
    proof {
        lemma_dist_bound(*node1, *node2);
    }
    isqrt(s)
}

} // verus!
