//! The convex hull of a set of points, by two monotone chains.
use vstd::prelude::*;
use crate::fixed::MAX_COORD;
use crate::point::{all_in_range, cross, cross_product, in_range, lex_lt, Point};
use crate::polygon::{run_left, succ_index, turns_back_at, x_bitonic, Polygon};

verus! {

/// `a` comes before `b` in lexicographic order, or is `b`.
pub open spec fn lex_le(a: Point, b: Point) -> bool {
    lex_lt(a, b) || a == b
}

/// The points come in strictly increasing lexicographic order.
pub open spec fn strictly_sorted(s: Seq<Point>) -> bool {
    forall|i: int, j: int| 0 <= i < j < s.len() ==> lex_lt(#[trigger] s[i], #[trigger] s[j])
}

/// On which side of the chain edge that leaves vertex `t` the point `q` lies:
/// non-negative when it is on the edge's line or to its left.
pub open spec fn edge_side(c: Seq<Point>, t: int, q: Point) -> int {
    cross(c[t], c[t + 1], q)
}

/// The turn the chain takes at the vertex after `t`: positive for a left turn.
pub open spec fn turn(c: Seq<Point>, t: int) -> int {
    cross(c[t], c[t + 1], c[t + 2])
}

/// `c` is the lower chain of the first `i` points of the sorted sequence
/// `pts`: it runs from the first to the last of them through points of
/// `pts`, turns strictly left at every vertex, and leaves none of the `i`
/// points to the right of any of its edges.
pub open spec fn chain_of_prefix(c: Seq<Point>, pts: Seq<Point>, i: int) -> bool {
    &&& c.len() >= 1
    &&& c[0] == pts[0]
    &&& c.last() == pts[i - 1]
    &&& strictly_sorted(c)
    &&& forall|t: int| 0 <= t < c.len() ==> exists|q: int| 0 <= q < i && pts[q] == #[trigger] c[t]
    &&& forall|t: int| 0 <= t && t + 2 < c.len() ==> #[trigger] turn(c, t) > 0
    &&& forall|t: int, q: int|
        0 <= t && t + 1 < c.len() && 0 <= q < i ==> #[trigger] edge_side(c, t, pts[q]) >= 0
}

/// The wedge product of two plane vectors.
pub open spec fn wedge(ux: int, uy: int, vx: int, vy: int) -> int {
    ux * vy - uy * vx
}

/// The vector points to the right, or straight up.
pub open spec fn rightward(x: int, y: int) -> bool {
    x > 0 || (x == 0 && y > 0)
}

/// Among vectors of the right half-plane, "turns left of" is transitive.
pub proof fn lemma_wedge_transitive(ux: int, uy: int, vx: int, vy: int, wx: int, wy: int)
    requires
        rightward(vx, vy),
        rightward(ux, uy) || (ux == 0 && uy == 0),
        rightward(wx, wy) || (wx == 0 && wy == 0),
        wedge(ux, uy, vx, vy) >= 0,
        wedge(vx, vy, wx, wy) >= 0,
    ensures
        wedge(ux, uy, wx, wy) >= 0,
{
    let uv = ux * vy - uy * vx;
    let vw = vx * wy - vy * wx;
    let uw = ux * wy - uy * wx;
    if vx > 0 {
        assert(uw * vx == uv * wx + vw * ux) by (nonlinear_arith)
            requires
                uv == ux * vy - uy * vx,
                vw == vx * wy - vy * wx,
                uw == ux * wy - uy * wx,
        ;
        assert(uv * wx >= 0) by (nonlinear_arith)
            requires
                uv >= 0,
                wx >= 0,
        ;
        assert(vw * ux >= 0) by (nonlinear_arith)
            requires
                vw >= 0,
                ux >= 0,
        ;
        assert(uw >= 0) by (nonlinear_arith)
            requires
                uw * vx >= 0,
                vx > 0,
        ;
    } else {
        assert(wx <= 0) by (nonlinear_arith)
            requires
                vx == 0,
                vy > 0,
                vx * wy - vy * wx >= 0,
        ;
        assert(uw >= 0) by (nonlinear_arith)
            requires
                wx == 0,
                wy >= 0,
                ux >= 0,
                uw == ux * wy - uy * wx,
        ;
    }
}

/// Popping a vertex: when `p` does not turn left of the edge `b -> m`, every
/// point at or after `b` that is not right of `b -> m` is not right of
/// `b -> p`.
pub proof fn lemma_pop_keeps_left(b: Point, m: Point, p: Point, q: Point)
    requires
        lex_lt(b, m),
        lex_lt(b, p),
        lex_le(b, q),
        cross(b, m, q) >= 0,
        cross(b, m, p) <= 0,
    ensures
        cross(b, p, q) >= 0,
{
    lemma_wedge_transitive(p.x - b.x, p.y - b.y, m.x - b.x, m.y - b.y, q.x - b.x, q.y - b.y);
}

/// Extending a chain: a point after `b` that is not right of the edge
/// `b -> c` is not right of the edge `a -> b` before it.
pub proof fn lemma_left_of_earlier_edge(a: Point, b: Point, c: Point, p: Point)
    requires
        lex_lt(a, b),
        lex_lt(b, c),
        lex_lt(b, p),
        cross(a, b, c) > 0,
        cross(b, c, p) >= 0,
    ensures
        cross(a, b, p) >= 0,
{
    let (vx, vy) = (b.x - a.x, b.y - a.y);
    let (ux, uy) = (c.x - b.x, c.y - b.y);
    let (wx, wy) = (p.x - b.x, p.y - b.y);
    assert(cross(a, b, c) == wedge(vx, vy, ux, uy)) by (nonlinear_arith)
        requires
            cross(a, b, c) == (b.x - a.x) * (c.y - a.y) - (b.y - a.y) * (c.x - a.x),
            wedge(vx, vy, ux, uy) == vx * uy - vy * ux,
            vx == b.x - a.x,
            vy == b.y - a.y,
            ux == c.x - b.x,
            uy == c.y - b.y,
    ;
    lemma_wedge_transitive(vx, vy, ux, uy, wx, wy);
    assert(cross(a, b, p) == wedge(vx, vy, wx, wy)) by (nonlinear_arith)
        requires
            cross(a, b, p) == (b.x - a.x) * (p.y - a.y) - (b.y - a.y) * (p.x - a.x),
            wedge(vx, vy, wx, wy) == vx * wy - vy * wx,
            vx == b.x - a.x,
            vy == b.y - a.y,
            wx == p.x - b.x,
            wy == p.y - b.y,
    ;
}

/// Behind the new edge: a point at or before `b` that is not right of the
/// edge `a -> b` is not right of `b -> p` when `p` turns left of `a -> b`.
pub proof fn lemma_left_of_later_edge(a: Point, b: Point, p: Point, q: Point)
    requires
        lex_lt(a, b),
        lex_lt(b, p),
        lex_le(q, b),
        cross(a, b, q) >= 0,
        cross(a, b, p) > 0,
    ensures
        cross(b, p, q) >= 0,
{
    let (vx, vy) = (b.x - a.x, b.y - a.y);
    let (wx, wy) = (p.x - b.x, p.y - b.y);
    let (zx, zy) = (b.x - q.x, b.y - q.y);
    assert(cross(a, b, q) == wedge(zx, zy, vx, vy)) by (nonlinear_arith)
        requires
            cross(a, b, q) == (b.x - a.x) * (q.y - a.y) - (b.y - a.y) * (q.x - a.x),
            wedge(zx, zy, vx, vy) == zx * vy - zy * vx,
            vx == b.x - a.x,
            vy == b.y - a.y,
            zx == b.x - q.x,
            zy == b.y - q.y,
    ;
    assert(cross(a, b, p) == wedge(vx, vy, wx, wy)) by (nonlinear_arith)
        requires
            cross(a, b, p) == (b.x - a.x) * (p.y - a.y) - (b.y - a.y) * (p.x - a.x),
            wedge(vx, vy, wx, wy) == vx * wy - vy * wx,
            vx == b.x - a.x,
            vy == b.y - a.y,
            wx == p.x - b.x,
            wy == p.y - b.y,
    ;
    lemma_wedge_transitive(zx, zy, vx, vy, wx, wy);
    assert(cross(b, p, q) == wedge(zx, zy, wx, wy)) by (nonlinear_arith)
        requires
            cross(b, p, q) == (p.x - b.x) * (q.y - b.y) - (p.y - b.y) * (q.x - b.x),
            wedge(zx, zy, wx, wy) == zx * wy - zy * wx,
            wx == p.x - b.x,
            wy == p.y - b.y,
            zx == b.x - q.x,
            zy == b.y - q.y,
    ;
}

/// A point after the end of a chain that is not right of its last edge is not
/// right of any of its edges.
pub proof fn lemma_left_of_whole_chain(c: Seq<Point>, p: Point, t: int)
    requires
        c.len() >= 2,
        strictly_sorted(c),
        lex_lt(c.last(), p),
        forall|s: int| 0 <= s && s + 2 < c.len() ==> #[trigger] turn(c, s) > 0,
        edge_side(c, c.len() - 2, p) >= 0,
        0 <= t <= c.len() - 2,
    ensures
        edge_side(c, t, p) >= 0,
    decreases c.len() - t,
{
    if t < c.len() - 2 {
        lemma_left_of_whole_chain(c, p, t + 1);
        assert(turn(c, t) > 0);
        assert(lex_lt(c[t], c[t + 1]));
        assert(lex_lt(c[t + 1], c[t + 2]));
        assert(lex_lt(c[t + 1], p)) by {
            if t + 1 < c.len() - 1 {
                assert(lex_lt(c[t + 1], c[c.len() - 1]));
            }
        }
        lemma_left_of_earlier_edge(c[t], c[t + 1], c[t + 2], p);
    }
}

/// The chain `c` after every trailing vertex at which `p` would not turn
/// strictly left has been removed.
pub open spec fn popped(c: Seq<Point>, p: Point) -> Seq<Point>
    decreases c.len(),
{
    if c.len() >= 2 && cross(c[c.len() - 2], c[c.len() - 1], p) <= 0 {
        popped(c.drop_last(), p)
    } else {
        c
    }
}

/// The lower chain of the first `i` points of a sorted sequence: the chain of
/// the points before the last, cut back until the last one turns strictly
/// left, and then the last one.
pub open spec fn chain_points(sorted: Seq<Point>, i: nat) -> Seq<Point>
    decreases i,
{
    if i == 0 {
        Seq::empty()
    } else if i == 1 {
        seq![sorted[0]]
    } else {
        popped(chain_points(sorted, (i - 1) as nat), sorted[i - 1]).push(sorted[i - 1])
    }
}

/// Growing a chain: when the chain was cut back until `p` turns strictly
/// left of its last edge, the chain with `p` at its end is the lower chain of
/// the points up to `p`.
proof fn lemma_chain_grows(before: Seq<Point>, c: Seq<Point>, sorted: Seq<Point>, i: int, p: Point)
    requires
        1 <= i < sorted.len(),
        strictly_sorted(sorted),
        p == sorted[i],
        chain_of_prefix(before, sorted, i),
        1 <= c.len() <= before.len(),
        c == before.subrange(0, c.len() as int),
        forall|t: int| 0 <= t < before.len() ==> lex_lt(#[trigger] before[t], p),
        forall|q: int| 0 <= q < i && lex_le(c.last(), #[trigger] sorted[q]) ==> cross(c.last(), p, sorted[q]) >= 0,
        c.len() < 2 || cross(c[c.len() - 2], c[c.len() - 1], p) > 0,
    ensures
        chain_of_prefix(c.push(p), sorted, i + 1),
{
    let len = c.len() as int;
    let grown = c.push(p);
    let top = c[len - 1];
    assert(forall|t: int| 0 <= t < len ==> c[t] == before[t]);
    assert(forall|t: int| 0 <= t < len ==> grown[t] == c[t]);
    assert(grown[len] == p);
    assert(strictly_sorted(grown)) by {
        assert forall|a: int, d: int| 0 <= a < d < grown.len() implies lex_lt(
            #[trigger] grown[a],
            #[trigger] grown[d],
        ) by {
            if d < len {
                assert(lex_lt(before[a], before[d]));
            } else {
                assert(lex_lt(before[a], p));
            }
        }
    }
    assert forall|t: int| 0 <= t < grown.len() implies exists|q: int|
        0 <= q < i + 1 && sorted[q] == #[trigger] grown[t] by {
        if t < len {
            let q = choose|q: int| 0 <= q < i && sorted[q] == before[t];
            assert(0 <= q < i + 1 && sorted[q] == grown[t]);
        } else {
            assert(sorted[i as int] == grown[t]);
        }
    }
    assert forall|t: int| 0 <= t && t + 2 < grown.len() implies #[trigger] turn(grown, t) > 0 by {
        if t + 2 < len {
            assert(turn(before, t) > 0);
        }
    }
    assert forall|t: int, q: int| 0 <= t && t + 1 < grown.len() && 0 <= q < i + 1 implies #[trigger] edge_side(
        grown,
        t,
        sorted[q],
    ) >= 0 by {
        let s = sorted[q];
        if t + 1 < len {
            if q < i {
                assert(edge_side(before, t, s) >= 0);
            } else {
                assert(forall|u: int| 0 <= u && u + 2 < len ==> #[trigger] turn(c, u) == turn(before, u));
                assert(strictly_sorted(c)) by {
                    assert forall|a: int, d: int| 0 <= a < d < c.len() implies lex_lt(
                        #[trigger] c[a],
                        #[trigger] c[d],
                    ) by {
                        assert(lex_lt(before[a], before[d]));
                    }
                }
                assert(edge_side(c, len - 2, p) >= 0);
                lemma_left_of_whole_chain(c, p, t);
                assert(edge_side(grown, t, s) == edge_side(c, t, p));
            }
        } else {
            assert(edge_side(grown, t, s) == cross(top, p, s));
            if q == i {
                assert(cross(top, p, p) == 0) by (nonlinear_arith)
                    requires
                        cross(top, p, p) == (p.x - top.x) * (p.y - top.y) - (p.y - top.y) * (p.x - top.x),
                ;
            } else if lex_le(top, s) {
            } else {
                let w = choose|w: int| 0 <= w < i && sorted[w] == top;
                assert(w != q);
                if w < q {
                    assert(lex_lt(sorted[w], sorted[q]));
                } else {
                    assert(lex_lt(sorted[q], sorted[w]));
                }
                assert(lex_lt(s, top));
                if len >= 2 {
                    let a = c[len - 2];
                    assert(lex_lt(before[len - 2], before[len - 1]));
                    assert(edge_side(before, len - 2, s) >= 0);
                    lemma_left_of_later_edge(a, top, p, s);
                } else {
                    let z = sorted[0];
                    assert(top == z);
                    if q > 0 {
                        assert(lex_lt(sorted[0], sorted[q]));
                    }
                }
            }
        }
    }
    assert(chain_of_prefix(grown, sorted, i + 1));
}

/// Builds the lower chain of points given in strictly increasing
/// lexicographic order.
fn lower_chain(sorted: &Vec<Point>) -> (chain: Vec<Point>)
    requires
        sorted@.len() >= 1,
        all_in_range(sorted@),
        strictly_sorted(sorted@),
    ensures
        chain@ == chain_points(sorted@, sorted@.len()),
        chain_of_prefix(chain@, sorted@, sorted@.len() as int),
        all_in_range(chain@),
{
    let n: usize = sorted.len();
    let mut chain: Vec<Point> = Vec::new();
    chain.push(sorted[0]);
    assert(chain@ =~= seq![sorted@[0]]);
    let mut i: usize = 1;
    while i < n
        invariant
            1 <= i <= n,
            n == sorted@.len(),
            all_in_range(sorted@),
            strictly_sorted(sorted@),
            all_in_range(chain@),
            chain_of_prefix(chain@, sorted@, i as int),
            chain@ == chain_points(sorted@, i as nat),
        decreases n - i,
    {
        let p: Point = sorted[i];
        let ghost before = chain@;
        assert forall|t: int| 0 <= t < before.len() implies lex_lt(#[trigger] before[t], p) by {
            let q = choose|q: int| 0 <= q < i && sorted@[q] == before[t];
            assert(lex_lt(sorted@[q], sorted@[i as int]));
        }
        assert forall|q: int| 0 <= q < i && lex_le(before.last(), #[trigger] sorted@[q]) implies cross(
            before.last(),
            p,
            sorted@[q],
        ) >= 0 by {
            if q < i - 1 {
                assert(lex_lt(sorted@[q], sorted@[i - 1]));
            }
            assert(sorted@[q] == before.last());
            assert(cross(before.last(), p, before.last()) == 0) by (nonlinear_arith)
                requires
                    cross(before.last(), p, before.last()) == (p.x - before.last().x) * (before.last().y
                        - before.last().y) - (p.y - before.last().y) * (before.last().x - before.last().x),
            ;
        }
        let mut popping: bool = chain.len() >= 2 && cross_product(
            &chain[chain.len() - 2],
            &chain[chain.len() - 1],
            &p,
        ) <= 0;
        while popping
            invariant
                1 <= i < n,
                n == sorted@.len(),
                p == sorted@[i as int],
                in_range(p),
                all_in_range(sorted@),
                strictly_sorted(sorted@),
                all_in_range(chain@),
                chain_of_prefix(before, sorted@, i as int),
                1 <= chain@.len() <= before.len(),
                chain@ == before.subrange(0, chain@.len() as int),
                popped(chain@, p) == popped(before, p),
                forall|t: int| 0 <= t < before.len() ==> lex_lt(#[trigger] before[t], p),
                forall|q: int|
                    0 <= q < i && lex_le(chain@.last(), #[trigger] sorted@[q]) ==> cross(
                        chain@.last(),
                        p,
                        sorted@[q],
                    ) >= 0,
                popping ==> chain@.len() >= 2 && cross(
                    chain@[chain@.len() - 2],
                    chain@[chain@.len() - 1],
                    p,
                ) <= 0,
                !popping ==> chain@.len() < 2 || cross(chain@[chain@.len() - 2], chain@[chain@.len() - 1], p)
                    > 0,
            decreases chain@.len(),
        {
            let ghost m = chain@[chain@.len() - 1];
            let ghost b = chain@[chain@.len() - 2];
            let ghost k = chain@.len() - 2;
            proof {
                assert(b == before[k] && m == before[k + 1]);
                assert(lex_lt(before[k], before[k + 1]));
                assert forall|q: int| 0 <= q < i && lex_le(b, #[trigger] sorted@[q]) implies cross(
                    b,
                    p,
                    sorted@[q],
                ) >= 0 by {
                    assert(edge_side(before, k, sorted@[q]) >= 0);
                    lemma_pop_keeps_left(b, m, p, sorted@[q]);
                }
            }
            let ghost full = chain@;
            chain.pop();
            assert(chain@ == full.drop_last());
            assert(chain@ == before.subrange(0, chain@.len() as int));
            popping = chain.len() >= 2 && cross_product(&chain[chain.len() - 2], &chain[chain.len() - 1], &p) <= 0;
        }
        proof {
            lemma_chain_grows(before, chain@, sorted@, i as int, p);
            assert(popped(chain@, p) == chain@);
            assert(chain@.push(p) == chain_points(sorted@, (i + 1) as nat));
        }
        chain.push(p);
        i += 1;
    }
    chain
}

/// The point mirrored through the centre of the accepted square.
pub open spec fn reflected(p: Point) -> Point {
    Point { x: (MAX_COORD - p.x) as i64, y: (MAX_COORD - p.y) as i64 }
}

/// The sequence read backward, each point mirrored.
pub open spec fn mirrored(s: Seq<Point>) -> Seq<Point> {
    Seq::new(s.len(), |i: int| reflected(s[s.len() - 1 - i]))
}

/// Mirroring all three points keeps their orientation.
pub proof fn lemma_reflected_cross(o: Point, a: Point, b: Point)
    requires
        in_range(o),
        in_range(a),
        in_range(b),
    ensures
        cross(reflected(o), reflected(a), reflected(b)) == cross(o, a, b),
{
    let (ro, ra, rb) = (reflected(o), reflected(a), reflected(b));
    assert((ra.x - ro.x) * (rb.y - ro.y) - (ra.y - ro.y) * (rb.x - ro.x) == (a.x - o.x) * (b.y - o.y) - (a.y
        - o.y) * (b.x - o.x)) by (nonlinear_arith)
        requires
            ra.x - ro.x == -(a.x - o.x),
            ra.y - ro.y == -(a.y - o.y),
            rb.x - ro.x == -(b.x - o.x),
            rb.y - ro.y == -(b.y - o.y),
    ;
}

/// On which side of the hull edge that leaves vertex `i` the point `q`
/// lies; the edge after the last vertex returns to the first.
pub open spec fn hull_side(hull: Seq<Point>, i: int, q: Point) -> int {
    cross(hull[i], hull[succ_index(i, hull.len() as int)], q)
}

/// The turn the hull takes at the vertex after `i`, going round: positive
/// for a left turn.
pub open spec fn hull_turn(hull: Seq<Point>, i: int) -> int {
    let n = hull.len() as int;
    cross(hull[i], hull[succ_index(i, n)], hull[succ_index(succ_index(i, n), n)])
}

/// `hull` is the convex hull of `pts`: its vertices are distinct points of
/// `pts`, it starts at the lexicographically smallest of them, no point of
/// `pts` lies to the right of any of its edges, and with three vertices or
/// more it turns strictly left at each of them.
pub open spec fn is_convex_hull(hull: Seq<Point>, pts: Seq<Point>) -> bool {
    &&& pts.len() > 0 ==> hull.len() > 0
    &&& forall|i: int| 0 <= i < hull.len() ==> pts.contains(#[trigger] hull[i])
    &&& forall|j: int| 0 <= j < pts.len() && hull.len() > 0 ==> lex_le(hull[0], #[trigger] pts[j])
    &&& forall|i: int, j: int|
        0 <= i < hull.len() && 0 <= j < pts.len() ==> #[trigger] hull_side(hull, i, pts[j]) >= 0
    &&& hull.no_duplicates()
    &&& hull.len() >= 3 ==> forall|i: int| 0 <= i < hull.len() ==> #[trigger] hull_turn(hull, i) > 0
}

/// A point on the line through `b` and `c`, beyond `c`, lies strictly right
/// of the edge `c -> w` when `w` lies strictly left of `b -> c`.
pub proof fn lemma_beyond_side(b: Point, c: Point, w: Point, a: Point)
    requires
        lex_lt(b, c),
        lex_lt(c, a),
        cross(b, c, a) == 0,
        cross(b, c, w) > 0,
    ensures
        cross(c, w, a) < 0,
{
    let (bx, by) = (c.x - b.x, c.y - b.y);
    let (ax, ay) = (a.x - c.x, a.y - c.y);
    let (wx, wy) = (w.x - c.x, w.y - c.y);
    let bw = bx * wy - by * wx;
    let wa = wx * ay - wy * ax;
    assert(bx * ay - by * ax == 0) by (nonlinear_arith)
        requires
            (c.x - b.x) * (a.y - b.y) - (c.y - b.y) * (a.x - b.x) == 0,
            bx == c.x - b.x,
            by == c.y - b.y,
            ax == a.x - c.x,
            ay == a.y - c.y,
    ;
    assert(cross(b, c, w) == bw) by (nonlinear_arith)
        requires
            cross(b, c, w) == (c.x - b.x) * (w.y - b.y) - (c.y - b.y) * (w.x - b.x),
            bw == bx * wy - by * wx,
            bx == c.x - b.x,
            by == c.y - b.y,
            wx == w.x - c.x,
            wy == w.y - c.y,
    ;
    assert(cross(c, w, a) == wa);
    if bx > 0 {
        assert(ax > 0) by (nonlinear_arith)
            requires
                bx > 0,
                bx * ay - by * ax == 0,
                ax > 0 || (ax == 0 && ay > 0),
        ;
        assert(bw * ax == -(wa * bx)) by (nonlinear_arith)
            requires
                bw == bx * wy - by * wx,
                wa == wx * ay - wy * ax,
                bx * ay - by * ax == 0,
        ;
        assert(wa < 0) by (nonlinear_arith)
            requires
                bw * ax == -(wa * bx),
                bw > 0,
                ax > 0,
                bx > 0,
        ;
    } else {
        assert(ax == 0) by (nonlinear_arith)
            requires
                bx == 0,
                by > 0,
                bx * ay - by * ax == 0,
        ;
        assert(bw * ay == -(wa * by)) by (nonlinear_arith)
            requires
                bw == bx * wy - by * wx,
                wa == wx * ay - wy * ax,
                bx == 0,
                ax == 0,
        ;
        assert(wa < 0) by (nonlinear_arith)
            requires
                bw * ay == -(wa * by),
                bw > 0,
                ay > 0,
                by > 0,
        ;
    }
}

/// Of two distinct points before `b` on one line through `b`, one lies
/// strictly between the other and `b`.
pub proof fn lemma_collinear_order(a: Point, b: Point, c: Point)
    requires
        lex_lt(a, b),
        lex_lt(c, b),
        a != c,
        cross(a, b, c) == 0,
    ensures
        lex_lt(a, c) || lex_lt(c, a),
        cross(c, b, a) == 0,
        cross(b, a, c) == 0,
        cross(b, c, a) == 0,
{
    assert(cross(c, b, a) == 0 && cross(b, a, c) == 0 && cross(b, c, a) == 0) by (nonlinear_arith)
        requires
            (b.x - a.x) * (c.y - a.y) - (b.y - a.y) * (c.x - a.x) == 0,
            cross(c, b, a) == (b.x - c.x) * (a.y - c.y) - (b.y - c.y) * (a.x - c.x),
            cross(b, a, c) == (a.x - b.x) * (c.y - b.y) - (a.y - b.y) * (c.x - b.x),
            cross(b, c, a) == (c.x - b.x) * (a.y - b.y) - (c.y - b.y) * (a.x - b.x),
    ;
}

/// Swapping the two end points of the orientation test flips its sign.
pub proof fn lemma_cross_antisymmetric(o: Point, a: Point, b: Point)
    ensures
        cross(o, a, b) == -cross(o, b, a),
{
    assert((a.x - o.x) * (b.y - o.y) - (a.y - o.y) * (b.x - o.x) == -((b.x - o.x) * (a.y - o.y) - (b.y - o.y) * (
    a.x - o.x))) by (nonlinear_arith);
}

/// A point on the line through `x` and `c`, on the other side of `x`, lies
/// strictly right of the edge `a -> x` when `c` lies strictly left of it.
pub proof fn lemma_opposite_side(a: Point, x: Point, c: Point, d: Point)
    requires
        lex_lt(a, x),
        lex_lt(x, c),
        lex_lt(d, x),
        cross(x, c, d) == 0,
        cross(a, x, c) > 0,
    ensures
        cross(a, x, d) < 0,
{
    let (vx, vy) = (x.x - a.x, x.y - a.y);
    let (cx, cy) = (c.x - x.x, c.y - x.y);
    let (dx, dy) = (d.x - x.x, d.y - x.y);
    let vc = vx * cy - vy * cx;
    let vd = vx * dy - vy * dx;
    assert(cross(a, x, c) == vc) by (nonlinear_arith)
        requires
            cross(a, x, c) == (x.x - a.x) * (c.y - a.y) - (x.y - a.y) * (c.x - a.x),
            vc == vx * cy - vy * cx,
            vx == x.x - a.x,
            vy == x.y - a.y,
            cx == c.x - x.x,
            cy == c.y - x.y,
    ;
    assert(cross(a, x, d) == vd) by (nonlinear_arith)
        requires
            cross(a, x, d) == (x.x - a.x) * (d.y - a.y) - (x.y - a.y) * (d.x - a.x),
            vd == vx * dy - vy * dx,
            vx == x.x - a.x,
            vy == x.y - a.y,
            dx == d.x - x.x,
            dy == d.y - x.y,
    ;
    assert(cx * dy - cy * dx == 0);
    if cx > 0 {
        assert(dx < 0) by (nonlinear_arith)
            requires
                cx > 0,
                cx * dy - cy * dx == 0,
                dx < 0 || (dx == 0 && dy < 0),
        ;
        assert(vc * dx == vd * cx) by (nonlinear_arith)
            requires
                vc == vx * cy - vy * cx,
                vd == vx * dy - vy * dx,
                cx * dy - cy * dx == 0,
        ;
        assert(vd < 0) by (nonlinear_arith)
            requires
                vc * dx == vd * cx,
                vc > 0,
                dx < 0,
                cx > 0,
        ;
    } else {
        assert(dx == 0) by (nonlinear_arith)
            requires
                cx == 0,
                cy > 0,
                cx * dy - cy * dx == 0,
        ;
        assert(vc * dy == vd * cy) by (nonlinear_arith)
            requires
                vc == vx * cy - vy * cx,
                vd == vx * dy - vy * dx,
                cx == 0,
                dx == 0,
        ;
        assert(vd < 0) by (nonlinear_arith)
            requires
                vc * dy == vd * cy,
                vc > 0,
                dy < 0,
                cy > 0,
        ;
    }
}

/// The number of leading points of `s` that come before `p`, for a sorted
/// `s`.
pub open spec fn rank(s: Seq<Point>, p: Point) -> int
    decreases s.len(),
{
    if s.len() == 0 {
        0
    } else if lex_lt(s.last(), p) {
        s.len() as int
    } else {
        rank(s.drop_last(), p)
    }
}

/// The sorted sequence `s` with `p` put in its place, unless it is there
/// already.
pub open spec fn inserted(s: Seq<Point>, p: Point) -> Seq<Point> {
    let r = rank(s, p);
    if r < s.len() && s[r] == p {
        s
    } else {
        s.insert(r, p)
    }
}

/// The points in strictly increasing lexicographic order, each once.
pub open spec fn sorted_points(pts: Seq<Point>) -> Seq<Point>
    decreases pts.len(),
{
    if pts.len() == 0 {
        Seq::empty()
    } else {
        inserted(sorted_points(pts.drop_last()), pts.last())
    }
}

/// The lower chain followed by the mirrored upper chain, each without its
/// last vertex.
pub open spec fn joined(lower: Seq<Point>, upper: Seq<Point>) -> Seq<Point> {
    Seq::new(
        (lower.len() - 1 + upper.len() - 1) as nat,
        |t: int| if t < lower.len() - 1 { lower[t] } else { reflected(upper[t - (lower.len() - 1)]) },
    )
}

/// The convex hull of `pts` as the monotone-chain construction gives it: it
/// starts at the lexicographically smallest point and runs counter-clockwise
/// (with `y` pointing up).
pub open spec fn hull_points(pts: Seq<Point>) -> Seq<Point> {
    let sorted = sorted_points(pts);
    if sorted.len() <= 1 {
        sorted
    } else {
        joined(chain_points(sorted, sorted.len()), chain_points(mirrored(sorted), sorted.len()))
    }
}

/// In a strictly sorted sequence, the place before which all points precede
/// `p` and at which the point does not is the rank of `p`.
pub proof fn lemma_rank(s: Seq<Point>, p: Point, pos: int)
    requires
        strictly_sorted(s),
        0 <= pos <= s.len(),
        forall|t: int| 0 <= t < pos ==> lex_lt(#[trigger] s[t], p),
        pos < s.len() ==> !lex_lt(s[pos], p),
    ensures
        rank(s, p) == pos,
    decreases s.len(),
{
    if s.len() > 0 {
        if lex_lt(s.last(), p) {
            if pos < s.len() {
                if pos < s.len() - 1 {
                    assert(lex_lt(s[pos], s[s.len() - 1]));
                }
            }
        } else {
            let front = s.drop_last();
            assert(pos <= s.len() - 1);
            assert forall|i: int, j: int| 0 <= i < j < front.len() implies lex_lt(
                #[trigger] front[i],
                #[trigger] front[j],
            ) by {
                assert(lex_lt(s[i], s[j]));
            }
            lemma_rank(front, p, pos);
        }
    }
}

/// Sorts the points in lexicographic order and drops repeated ones.
pub fn sorted_unique(pts: &Vec<Point>) -> (out: Vec<Point>)
    ensures
        out@ == sorted_points(pts@),
        strictly_sorted(out@),
        out@.len() <= pts@.len(),
        forall|i: int| 0 <= i < pts@.len() ==> out@.contains(#[trigger] pts@[i]),
        forall|j: int| 0 <= j < out@.len() ==> pts@.contains(#[trigger] out@[j]),
{
    let mut out: Vec<Point> = Vec::new();
    let mut k: usize = 0;
    while k < pts.len()
        invariant
            k <= pts@.len(),
            out@ == sorted_points(pts@.take(k as int)),
            strictly_sorted(out@),
            out@.len() <= k,
            forall|i: int| 0 <= i < k ==> out@.contains(#[trigger] pts@[i]),
            forall|j: int| 0 <= j < out@.len() ==> pts@.contains(#[trigger] out@[j]),
        decreases pts@.len() - k,
    {
        let p: Point = pts[k];
        let mut pos: usize = 0;
        while pos < out.len() && out[pos].precedes(&p)
            invariant
                pos <= out@.len(),
                forall|t: int| 0 <= t < pos ==> lex_lt(#[trigger] out@[t], p),
            decreases out@.len() - pos,
        {
            pos += 1;
        }
        let ghost old_out = out@;
        proof {
            lemma_rank(old_out, p, pos as int);
            assert(pts@.take(k + 1).drop_last() == pts@.take(k as int));
            assert(pts@.take(k + 1).last() == p);
            assert(sorted_points(pts@.take(k + 1)) == inserted(old_out, p));
        }
        if pos < out.len() && out[pos] == p {
            assert(old_out.contains(p));
        } else {
            out.insert(pos, p);
            proof {
                let fresh = out@;
                assert(fresh.len() == old_out.len() + 1);
                assert(forall|t: int| 0 <= t < pos ==> fresh[t] == old_out[t]);
                assert(fresh[pos as int] == p);
                assert(forall|t: int| pos < t < fresh.len() ==> fresh[t] == old_out[t - 1]);
                assert forall|a: int, d: int| 0 <= a < d < fresh.len() implies lex_lt(
                    #[trigger] fresh[a],
                    #[trigger] fresh[d],
                ) by {
                    if d < pos {
                        assert(lex_lt(old_out[a], old_out[d]));
                    } else if d == pos {
                    } else if a < pos {
                        assert(lex_lt(old_out[a], old_out[d - 1]));
                    } else if a == pos {
                        assert(!lex_lt(old_out[pos as int], p));
                        assert(old_out[pos as int] != p);
                        if d - 1 > pos {
                            assert(lex_lt(old_out[pos as int], old_out[d - 1]));
                        }
                    } else {
                        assert(lex_lt(old_out[a - 1], old_out[d - 1]));
                    }
                }
                assert forall|i: int| 0 <= i < k + 1 implies fresh.contains(#[trigger] pts@[i]) by {
                    if i < k {
                        let t = choose|t: int| 0 <= t < old_out.len() && old_out[t] == pts@[i];
                        if t < pos {
                            assert(fresh[t] == pts@[i]);
                        } else {
                            assert(fresh[t + 1] == pts@[i]);
                        }
                    } else {
                        assert(fresh[pos as int] == pts@[i]);
                    }
                }
                assert forall|j: int| 0 <= j < fresh.len() implies pts@.contains(#[trigger] fresh[j]) by {
                    if j < pos {
                        assert(fresh[j] == old_out[j]);
                    } else if j == pos {
                        assert(pts@[k as int] == fresh[j]);
                    } else {
                        assert(fresh[j] == old_out[j - 1]);
                    }
                }
            }
        }
        k += 1;
    }
    assert(pts@.take(pts@.len() as int) == pts@);
    out
}

/// Reads the points backward and mirrors each.
fn mirror(points: &Vec<Point>) -> (out: Vec<Point>)
    requires
        all_in_range(points@),
    ensures
        out@ == mirrored(points@),
        all_in_range(out@),
{
    let n: usize = points.len();
    let mut out: Vec<Point> = Vec::new();
    let mut i: usize = 0;
    while i < n
        invariant
            i <= n,
            n == points@.len(),
            all_in_range(points@),
            all_in_range(out@),
            out@.len() == i,
            forall|t: int| 0 <= t < i ==> out@[t] == reflected(points@[n - 1 - t]),
        decreases n - i,
    {
        let p: Point = points[n - 1 - i];
        out.push(Point { x: MAX_COORD - p.x, y: MAX_COORD - p.y });
        i += 1;
    }
    assert(out@ =~= mirrored(points@));
    out
}

/// Mirroring a strictly sorted sequence gives a strictly sorted sequence.
proof fn lemma_mirrored_sorted(s: Seq<Point>)
    requires
        all_in_range(s),
        strictly_sorted(s),
    ensures
        strictly_sorted(mirrored(s)),
{
    let r = mirrored(s);
    assert forall|a: int, d: int| 0 <= a < d < r.len() implies lex_lt(#[trigger] r[a], #[trigger] r[d]) by {
        assert(lex_lt(s[s.len() - 1 - d], s[s.len() - 1 - a]));
    }
}

/// Computes the convex hull of `pts`, counter-clockwise with `y` pointing up,
/// starting at the lexicographically smallest point.
pub fn convex_hull(pts: &Vec<Point>) -> (hull: Vec<Point>)
    requires
        all_in_range(pts@),
    ensures
        hull@ == hull_points(pts@),
        is_convex_hull(hull@, pts@),
        x_bitonic(hull@),
        all_in_range(hull@),
        hull@.len() <= pts@.len(),
{
    let sorted: Vec<Point> = sorted_unique(pts);
    let n: usize = sorted.len();
    assert(all_in_range(sorted@)) by {
        assert forall|j: int| 0 <= j < sorted@.len() implies in_range(#[trigger] sorted@[j]) by {
            let i = choose|i: int| 0 <= i < pts@.len() && pts@[i] == sorted@[j];
        }
    }
    if n == 0 {
        proof {
            if pts@.len() > 0 {
                assert(sorted@.contains(pts@[0]));
            }
        }
        let none: Vec<Point> = Vec::new();
        assert(none@ =~= sorted@);
        assert(turns_back_at(none@, 0));
        return none;
    }
    if n == 1 {
        let mut single: Vec<Point> = Vec::new();
        single.push(sorted[0]);
        assert(single@ =~= sorted@);
        assert(turns_back_at(single@, 0)) by {
            assert(run_left(single@, 0) == 0);
        }
        proof {
            let h = single@;
            let p = sorted@[0];
            assert(pts@.contains(sorted@[0]));
            assert forall|j: int| 0 <= j < pts@.len() implies pts@[j] == p by {
                let t = choose|t: int| 0 <= t < sorted@.len() && sorted@[t] == pts@[j];
            }
            assert forall|i: int, j: int| 0 <= i < h.len() && 0 <= j < pts@.len() implies #[trigger] hull_side(
                h,
                i,
                pts@[j],
            ) >= 0 by {
                assert(cross(p, p, p) == 0) by (nonlinear_arith)
                    requires
                        cross(p, p, p) == (p.x - p.x) * (p.y - p.y) - (p.y - p.y) * (p.x - p.x),
                ;
            }
        }
        return single;
    }
    let lower: Vec<Point> = lower_chain(&sorted);
    let flipped: Vec<Point> = mirror(&sorted);
    proof {
        lemma_mirrored_sorted(sorted@);
    }
    let upper: Vec<Point> = lower_chain(&flipped);
    let k: usize = lower.len() - 1;
    let m: usize = upper.len() - 1;
    proof {
        assert(lex_lt(sorted@[0], sorted@[n - 1]));
        assert(lex_lt(flipped@[0], flipped@[n - 1]));
        assert(k >= 1);
        assert(m >= 1);
    }
    let mut hull: Vec<Point> = Vec::new();
    let mut i: usize = 0;
    while i < k
        invariant
            i <= k,
            k == lower@.len() - 1,
            hull@.len() == i,
            forall|t: int| 0 <= t < i ==> hull@[t] == lower@[t],
        decreases k - i,
    {
        hull.push(lower[i]);
        i += 1;
    }
    let mut s: usize = 0;
    while s < m
        invariant
            s <= m,
            m == upper@.len() - 1,
            k == lower@.len() - 1,
            all_in_range(upper@),
            hull@.len() == k + s,
            forall|t: int| 0 <= t < k ==> hull@[t] == lower@[t],
            forall|t: int| 0 <= t < s ==> hull@[k + t] == reflected(upper@[t]),
        decreases m - s,
    {
        let p: Point = upper[s];
        hull.push(Point { x: MAX_COORD - p.x, y: MAX_COORD - p.y });
        s += 1;
    }
    proof {
        lemma_hull_from_chains(pts@, sorted@, lower@, upper@, hull@);
        lemma_hull_turns_back(sorted@, lower@, upper@, hull@);
        if hull@.len() >= 3 {
            lemma_hull_strict(sorted@, lower@, upper@, hull@);
        }
        assert(hull@ =~= joined(lower@, upper@));
    }
    hull
}

/// Where one chain ends and the mirrored chain begins, the hull turns
/// strictly left, unless the two neighbours of the meeting point coincide.
proof fn lemma_junction_turn(sorted: Seq<Point>, first: Seq<Point>, second: Seq<Point>)
    requires
        sorted.len() >= 2,
        all_in_range(sorted),
        all_in_range(first),
        all_in_range(second),
        strictly_sorted(sorted),
        chain_of_prefix(first, sorted, sorted.len() as int),
        chain_of_prefix(second, mirrored(sorted), sorted.len() as int),
        first.len() >= 2,
        second.len() >= 2,
        first[first.len() - 2] != reflected(second[1]),
    ensures
        cross(first[first.len() - 2], first[first.len() - 1], reflected(second[1])) > 0,
{
    let n = sorted.len() as int;
    let k = first.len() - 1;
    let flipped = mirrored(sorted);
    let a = first[k - 1];
    let b = first[k];
    let c = reflected(second[1]);
    assert(lex_lt(first[k - 1], first[k]));
    assert(lex_lt(second[0], second[1]));
    assert(second[0] == flipped[0] && flipped[0] == reflected(sorted[n - 1]));
    assert(b == sorted[n - 1]);
    assert(lex_lt(c, b));
    // `c` and `a` are points of the input
    let qc = choose|q: int| 0 <= q < n && flipped[q] == second[1];
    assert(c == sorted[n - 1 - qc]);
    let qa = choose|q: int| 0 <= q < n && sorted[q] == first[k - 1];
    assert(flipped[n - 1 - qa] == reflected(a));
    assert(edge_side(first, k - 1, sorted[n - 1 - qc]) >= 0);
    if cross(a, b, c) == 0 {
        lemma_collinear_order(a, b, c);
        if lex_lt(c, a) {
            if k >= 2 {
                let z = first[k - 2];
                assert(turn(first, k - 2) > 0);
                assert(lex_lt(first[k - 2], first[k - 1]));
                assert(edge_side(first, k - 2, sorted[n - 1 - qc]) >= 0);
                lemma_opposite_side(z, a, b, c);
            } else {
                assert(a == sorted[0]);
                if n - 1 - qc > 0 {
                    assert(lex_lt(sorted[0], sorted[n - 1 - qc]));
                }
            }
        } else {
            // `c` lies strictly between `a` and `b`; look at it mirrored
            let (ra, rb, rc) = (reflected(a), second[0], second[1]);
            lemma_reflected_cross(b, c, a);
            assert(reflected(c) == rc);
            assert(reflected(b) == rb);
            assert(cross(rb, rc, ra) == 0);
            if second.len() >= 3 {
                let w = second[2];
                assert(turn(second, 0) > 0);
                assert(edge_side(second, 1, flipped[n - 1 - qa]) >= 0);
                lemma_beyond_side(rb, rc, w, ra);
            } else {
                assert(second[1] == flipped[n - 1] && flipped[n - 1] == reflected(sorted[0]));
                assert(c == sorted[0]);
                if qa > 0 {
                    assert(lex_lt(sorted[0], sorted[qa]));
                }
            }
        }
    }
}

/// Mirroring twice gives the sequence back.
proof fn lemma_mirrored_twice(s: Seq<Point>)
    requires
        all_in_range(s),
    ensures
        mirrored(mirrored(s)) == s,
        all_in_range(mirrored(s)),
{
    assert(mirrored(mirrored(s)) =~= s);
}

/// The lower chain of the sorted points followed by the mirrored lower chain
/// of the mirrored points, each without its last vertex, is the convex hull.
proof fn lemma_hull_from_chains(
    pts: Seq<Point>,
    sorted: Seq<Point>,
    lower: Seq<Point>,
    upper: Seq<Point>,
    hull: Seq<Point>,
)
    requires
        sorted.len() >= 2,
        all_in_range(sorted),
        all_in_range(lower),
        all_in_range(upper),
        strictly_sorted(sorted),
        forall|i: int| 0 <= i < pts.len() ==> sorted.contains(#[trigger] pts[i]),
        forall|j: int| 0 <= j < sorted.len() ==> pts.contains(#[trigger] sorted[j]),
        chain_of_prefix(lower, sorted, sorted.len() as int),
        chain_of_prefix(upper, mirrored(sorted), sorted.len() as int),
        lower.len() >= 2,
        upper.len() >= 2,
        hull.len() == lower.len() - 1 + upper.len() - 1,
        forall|t: int| 0 <= t < lower.len() - 1 ==> hull[t] == lower[t],
        forall|t: int| 0 <= t < upper.len() - 1 ==> hull[lower.len() - 1 + t] == reflected(upper[t]),
    ensures
        forall|i: int| 0 <= i < hull.len() ==> pts.contains(#[trigger] hull[i]),
        forall|j: int| 0 <= j < pts.len() && hull.len() > 0 ==> lex_le(hull[0], #[trigger] pts[j]),
        forall|i: int, j: int|
            0 <= i < hull.len() && 0 <= j < pts.len() ==> #[trigger] hull_side(hull, i, pts[j]) >= 0,
        hull.no_duplicates(),
        all_in_range(hull),
        hull.len() <= sorted.len(),
{
    let n = sorted.len() as int;
    let k = lower.len() - 1;
    let m = upper.len() - 1;
    let flipped = mirrored(sorted);
    assert forall|p: Point| in_range(p) implies reflected(reflected(p)) == p by {}
    // every vertex of the upper chain, mirrored back, is one of the sorted points
    assert forall|t: int| 0 <= t <= m implies sorted.contains(reflected(#[trigger] upper[t])) by {
        let q = choose|q: int| 0 <= q < n && flipped[q] == upper[t];
        assert(reflected(upper[t]) == sorted[n - 1 - q]);
    }
    assert forall|i: int| 0 <= i < hull.len() implies pts.contains(#[trigger] hull[i]) && in_range(hull[i])
        && sorted.contains(hull[i]) by {
        if i < k {
            let q = choose|q: int| 0 <= q < n && sorted[q] == lower[i];
            assert(pts.contains(sorted[q]));
        } else {
            assert(hull[k + (i - k)] == reflected(upper[i - k]));
            assert(sorted.contains(reflected(upper[i - k])));
            let q = choose|q: int| 0 <= q < n && sorted[q] == reflected(upper[i - k]);
            assert(pts.contains(sorted[q]));
        }
    }
    assert forall|i: int, j: int| 0 <= i < j < hull.len() implies hull[i] != hull[j] by {
        if j < k {
            assert(lex_lt(lower[i], lower[j]));
        } else if i >= k {
            assert(hull[k + (i - k)] == reflected(upper[i - k]));
            assert(hull[k + (j - k)] == reflected(upper[j - k]));
            assert(lex_lt(upper[i - k], upper[j - k]));
        } else {
            let t = j - k;
            assert(hull[k + t] == reflected(upper[t]));
            let x = lower[i];
            if x == reflected(upper[t]) {
                if i == 0 {
                    assert(lex_lt(upper[t], upper[m]));
                } else if t == 0 {
                    assert(lex_lt(lower[i], lower[k]));
                } else {
                    let a = lower[i - 1];
                    let c = lower[i + 1];
                    let d = reflected(upper[t + 1]);
                    assert(turn(lower, i - 1) > 0);
                    assert(lex_lt(lower[i - 1], lower[i]) && lex_lt(lower[i], lower[i + 1]));
                    assert(lex_lt(upper[t], upper[t + 1]));
                    assert(sorted.contains(reflected(upper[t + 1])));
                    let qd = choose|q: int| 0 <= q < n && sorted[q] == d;
                    assert(edge_side(lower, i, sorted[qd]) >= 0);
                    assert(edge_side(lower, i - 1, sorted[qd]) >= 0);
                    let qc = choose|q: int| 0 <= q < n && sorted[q] == c;
                    assert(flipped[n - 1 - qc] == reflected(c));
                    assert(edge_side(upper, t, flipped[n - 1 - qc]) >= 0);
                    lemma_reflected_cross(upper[t], upper[t + 1], reflected(c));
                    lemma_cross_antisymmetric(x, c, d);
                    lemma_opposite_side(a, x, c, d);
                }
            }
        }
    }
    assert(hull.no_duplicates());
    assert(hull.len() <= sorted.len()) by {
        hull.unique_seq_to_set();
        sorted.lemma_cardinality_of_set();
        vstd::seq_lib::seq_to_set_is_finite(sorted);
        assert(hull.to_set().subset_of(sorted.to_set())) by {
            assert forall|x: Point| hull.to_set().contains(x) implies sorted.to_set().contains(x) by {
                let i = choose|i: int| 0 <= i < hull.len() && hull[i] == x;
                assert(sorted.contains(hull[i]));
            }
        }
        vstd::set_lib::lemma_len_subset(hull.to_set(), sorted.to_set());
    }
    assert(hull[0] == sorted[0]);
    assert forall|j: int| 0 <= j < pts.len() && hull.len() > 0 implies lex_le(hull[0], #[trigger] pts[j]) by {
        let q = choose|q: int| 0 <= q < n && sorted[q] == pts[j];
        if q > 0 {
            assert(lex_lt(sorted[0], sorted[q]));
        }
    }
    assert(reflected(upper[0]) == sorted[n - 1]);
    assert(reflected(upper[m]) == sorted[0]);
    assert forall|i: int, j: int| 0 <= i < hull.len() && 0 <= j < pts.len() implies #[trigger] hull_side(
        hull,
        i,
        pts[j],
    ) >= 0 by {
        let q = choose|q: int| 0 <= q < n && sorted[q] == pts[j];
        let nxt = hull[succ_index(i, hull.len() as int)];
        if i < k {
            assert(nxt == lower[i + 1]) by {
                if i + 1 < k {
                } else {
                    assert(hull[k + 0] == reflected(upper[0]));
                }
            }
            assert(edge_side(lower, i, sorted[q]) >= 0);
        } else {
            let t = i - k;
            assert(hull[k + t] == reflected(upper[t]));
            assert(nxt == reflected(upper[t + 1])) by {
                if t + 1 < m {
                    assert(hull[k + (t + 1)] == reflected(upper[t + 1]));
                } else {
                }
            }
            assert(flipped[n - 1 - q] == reflected(sorted[q]));
            assert(edge_side(upper, t, flipped[n - 1 - q]) >= 0);
            lemma_reflected_cross(upper[t], upper[t + 1], reflected(sorted[q]));
        }
    }
}

/// The joined chains turn strictly left where the lower chain meets the
/// upper one and where the upper chain meets the lower one.
proof fn lemma_hull_junctions(sorted: Seq<Point>, lower: Seq<Point>, upper: Seq<Point>, hull: Seq<Point>)
    requires
        sorted.len() >= 2,
        all_in_range(sorted),
        all_in_range(lower),
        all_in_range(upper),
        strictly_sorted(sorted),
        chain_of_prefix(lower, sorted, sorted.len() as int),
        chain_of_prefix(upper, mirrored(sorted), sorted.len() as int),
        lower.len() >= 2,
        upper.len() >= 2,
        hull.len() == lower.len() - 1 + upper.len() - 1,
        forall|t: int| 0 <= t < lower.len() - 1 ==> hull[t] == lower[t],
        forall|t: int| 0 <= t < upper.len() - 1 ==> hull[lower.len() - 1 + t] == reflected(upper[t]),
        hull.no_duplicates(),
        hull.len() >= 3,
    ensures
        cross(lower[lower.len() - 2], lower[lower.len() - 1], reflected(upper[1])) > 0,
        cross(reflected(upper[upper.len() - 2]), reflected(upper[upper.len() - 1]), lower[1]) > 0,
{
    let n = sorted.len() as int;
    let k = lower.len() - 1;
    let m = upper.len() - 1;
    let len = hull.len() as int;
    let flipped = mirrored(sorted);
    assert(reflected(upper[0]) == sorted[n - 1]);
    assert(reflected(upper[m]) == sorted[0]);
    assert(hull[0] == sorted[0]);
    assert(hull[k + 0] == reflected(upper[0]));
    assert(hull[k + (m - 1)] == reflected(upper[m - 1]));
    lemma_mirrored_sorted(sorted);
    lemma_mirrored_twice(sorted);
    assert(lower[k - 1] == hull[k - 1]);
    assert(lower[k - 1] != reflected(upper[1])) by {
        if m >= 2 {
            assert(hull[k + 1] == reflected(upper[1]));
            assert(hull[k - 1] != hull[k + 1]);
        } else {
            assert(hull[k - 1] != hull[0]);
        }
    }
    lemma_junction_turn(sorted, lower, upper);
    assert(lower[1] == hull[1]) by {
        if k == 1 {
            assert(hull[k + 0] == reflected(upper[0]));
        }
    }
    assert(reflected(lower[1]) != upper[m - 1]) by {
        assert(hull[len - 1] != hull[1]);
    }
    lemma_junction_turn(flipped, upper, lower);
    lemma_reflected_cross(upper[m - 1], upper[m], reflected(lower[1]));
}

/// With three vertices or more, the joined chains turn strictly left at
/// every vertex.
proof fn lemma_hull_strict(sorted: Seq<Point>, lower: Seq<Point>, upper: Seq<Point>, hull: Seq<Point>)
    requires
        sorted.len() >= 2,
        all_in_range(sorted),
        all_in_range(lower),
        all_in_range(upper),
        strictly_sorted(sorted),
        chain_of_prefix(lower, sorted, sorted.len() as int),
        chain_of_prefix(upper, mirrored(sorted), sorted.len() as int),
        lower.len() >= 2,
        upper.len() >= 2,
        hull.len() == lower.len() - 1 + upper.len() - 1,
        forall|t: int| 0 <= t < lower.len() - 1 ==> hull[t] == lower[t],
        forall|t: int| 0 <= t < upper.len() - 1 ==> hull[lower.len() - 1 + t] == reflected(upper[t]),
        hull.no_duplicates(),
        hull.len() >= 3,
    ensures
        forall|i: int| 0 <= i < hull.len() ==> #[trigger] hull_turn(hull, i) > 0,
{
    let n = sorted.len() as int;
    let k = lower.len() - 1;
    let m = upper.len() - 1;
    let len = hull.len() as int;
    lemma_hull_junctions(sorted, lower, upper, hull);
    assert(reflected(upper[0]) == sorted[n - 1] && lower[k] == sorted[n - 1]);
    assert(reflected(upper[m]) == sorted[0] && lower[0] == sorted[0]);
    assert forall|i: int| 0 <= i < hull.len() implies #[trigger] hull_turn(hull, i) > 0 by {
        let j1 = succ_index(i, len);
        let j2 = succ_index(j1, len);
        if i + 2 <= k {
            lemma_joined_vertex(lower, upper, hull, i);
            lemma_joined_vertex(lower, upper, hull, i + 1);
            lemma_joined_vertex(lower, upper, hull, i + 2);
            assert(turn(lower, i) > 0);
        } else if i == k - 1 {
            lemma_joined_vertex(lower, upper, hull, i);
            lemma_joined_vertex(lower, upper, hull, i + 1);
            lemma_joined_vertex(lower, upper, hull, i + 2);
        } else if i < len - 1 {
            let t = i - k;
            lemma_joined_vertex(lower, upper, hull, i);
            lemma_joined_vertex(lower, upper, hull, i + 1);
            lemma_joined_vertex(lower, upper, hull, i + 2);
            assert(turn(upper, t) > 0);
            lemma_reflected_cross(upper[t], upper[t + 1], upper[t + 2]);
        } else {
            lemma_joined_vertex(lower, upper, hull, i);
            lemma_joined_vertex(lower, upper, hull, len);
            lemma_joined_vertex(lower, upper, hull, len + 1);
        }
    }
}

/// The joined chains run to the right along the lower chain and back to the
/// left along the upper one.
proof fn lemma_hull_turns_back(sorted: Seq<Point>, lower: Seq<Point>, upper: Seq<Point>, hull: Seq<Point>)
    requires
        sorted.len() >= 2,
        all_in_range(sorted),
        all_in_range(upper),
        chain_of_prefix(lower, sorted, sorted.len() as int),
        chain_of_prefix(upper, mirrored(sorted), sorted.len() as int),
        lower.len() >= 2,
        upper.len() >= 2,
        hull.len() == lower.len() - 1 + upper.len() - 1,
        forall|t: int| 0 <= t < lower.len() - 1 ==> hull[t] == lower[t],
        forall|t: int| 0 <= t < upper.len() - 1 ==> hull[lower.len() - 1 + t] == reflected(upper[t]),
    ensures
        turns_back_at(hull, lower.len() - 1),
{
    let n = sorted.len() as int;
    let k = lower.len() - 1;
    let m = upper.len() - 1;
    assert(reflected(upper[0]) == sorted[n - 1] && lower[k] == sorted[n - 1]);
    assert(reflected(upper[m]) == sorted[0] && lower[0] == sorted[0]);
    assert forall|i: int| 0 <= i < k implies #[trigger] run_left(hull, i) <= 0 by {
        lemma_joined_vertex(lower, upper, hull, i);
        lemma_joined_vertex(lower, upper, hull, i + 1);
        assert(lex_lt(lower[i], lower[i + 1]));
    }
    assert forall|i: int| k <= i < hull.len() implies #[trigger] run_left(hull, i) >= 0 by {
        lemma_joined_vertex(lower, upper, hull, i);
        lemma_joined_vertex(lower, upper, hull, i + 1);
        assert(lex_lt(upper[i - k], upper[i - k + 1]));
    }
}

/// Vertex `j` of the joined chains, counting on past the last vertex to the
/// first and second again: a vertex of the lower chain up to its end, then a
/// mirrored vertex of the upper chain up to its end, then the lower chain
/// once more.
proof fn lemma_joined_vertex(lower: Seq<Point>, upper: Seq<Point>, hull: Seq<Point>, j: int)
    requires
        lower.len() >= 2,
        upper.len() >= 2,
        hull.len() == lower.len() - 1 + upper.len() - 1,
        forall|t: int| 0 <= t < lower.len() - 1 ==> hull[t] == lower[t],
        forall|t: int| 0 <= t < upper.len() - 1 ==> hull[lower.len() - 1 + t] == reflected(upper[t]),
        reflected(upper[0]) == lower[lower.len() - 1],
        reflected(upper[upper.len() - 1]) == lower[0],
        0 <= j <= hull.len() + 1,
    ensures
        ({
            let len = hull.len() as int;
            let k = lower.len() - 1;
            let v = hull[if j >= len { j - len } else { j }];
            &&& j <= k ==> v == lower[j]
            &&& k <= j <= len ==> v == reflected(upper[j - k])
            &&& len <= j ==> v == lower[j - len]
        }),
{
    let len = hull.len() as int;
    let k = lower.len() - 1;
    if j < k {
    } else if j < len {
        assert(hull[k + (j - k)] == reflected(upper[j - k]));
    } else if j == len {
    } else {
        if k == 1 {
            assert(hull[k + 0] == reflected(upper[0]));
        }
    }
}

/// The polygon has three distinct vertices or more and turns strictly left
/// at each of them.
pub open spec fn is_convex_polygon(pts: Seq<Point>) -> bool {
    &&& pts.len() >= 3
    &&& pts.no_duplicates()
    &&& forall|i: int| 0 <= i < pts.len() ==> #[trigger] hull_turn(pts, i) > 0
}

/// The point lies in the accepted square and not to the right of any edge
/// of the polygon: for a convex polygon that runs counter-clockwise (with
/// `y` pointing up), it lies inside the polygon or on its boundary.
pub open spec fn encloses(pts: Seq<Point>, p: Point) -> bool {
    in_range(p) && forall|i: int| 0 <= i < pts.len() ==> #[trigger] hull_side(pts, i, p) >= 0
}

impl Polygon {
    /// Whether the point lies to the right of no edge of the polygon.
    pub fn encloses(&self, p: &Point) -> (inside: bool)
        ensures
            inside == encloses(self@, *p),
    {
        if !p.is_in_range() {
            return false;
        }
        let pts: &Vec<Point> = self.points();
        let n: usize = pts.len();
        let mut i: usize = 0;
        while i < n
            invariant
                i <= n,
                n == pts@.len(),
                pts@ == self@,
                all_in_range(pts@),
                in_range(*p),
                forall|t: int| 0 <= t < i ==> #[trigger] hull_side(pts@, t, *p) >= 0,
            decreases n - i,
        {
            let j: usize = if i + 1 >= n { 0 } else { i + 1 };
            if cross_product(&pts[i], &pts[j], p) < 0 {
                assert(hull_side(pts@, i as int, *p) < 0);
                return false;
            }
            i += 1;
        }
        true
    }

    /// Replaces the polygon by the convex hull of its vertices.
    pub fn convex_hull(&self) -> (p: Polygon)
        ensures
            p@ == hull_points(self@),
            is_convex_hull(p@, self@),
            x_bitonic(p@),
            p@.len() <= self@.len(),
            p.class_id() == self.class_id(),
    {
        let hull: Vec<Point> = convex_hull(self.points());
        Polygon::assemble(hull, self.id())
    }
}

} // verus!
