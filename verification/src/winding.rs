//! Signed area, point-in-polygon testing, and winding resolution.
//!
//! A path is a cyclic sequence of lattice points.  Its doubled signed area
//! comes from the shoelace formula with y growing downward (grid-row
//! order).  The nesting depth of a path is the number of other paths whose
//! interior contains its first vertex, by the even-odd ray-casting rule.
//! `resolve_winding` reverses each path whose signed area disagrees with
//! the parity of its nesting depth, so that outer contours end with
//! negative area and holes with positive area.

use vstd::prelude::*;

verus! {

use vstd::arithmetic::div_mod::lemma_mod_self_0;
use vstd::arithmetic::div_mod::lemma_small_mod;
use crate::edge::Point;

/// All coordinates small enough that the shoelace and ray-cast arithmetic
/// stays within the machine integers.
pub open spec fn coords_bounded(p: Seq<Point>) -> bool {
    forall|k: int|
        0 <= k < p.len() ==> (#[trigger] p[k]).x < 0x8000_0000 && p[k].y < 0x8000_0000
}

/// One shoelace term: the cross product of the edge from `p[i]` to the
/// cyclically next point.
pub open spec fn cross_term(p: Seq<Point>, i: int) -> int {
    let a = p[i];
    let b = p[(i + 1) % (p.len() as int)];
    (a.x as int) * (b.y as int) - (b.x as int) * (a.y as int)
}

/// Sum of the first `k` shoelace terms.
pub open spec fn area2_to(p: Seq<Point>, k: int) -> int
    decreases k,
{
    if k <= 0 {
        0
    } else {
        area2_to(p, k - 1) + cross_term(p, k - 1)
    }
}

/// Twice the signed area of the closed path `p` under the shoelace
/// formula, with y measured downward.
pub open spec fn area2(p: Seq<Point>) -> int {
    area2_to(p, p.len() as int)
}

/// Truncating division, as the machine's signed division behaves.
pub open spec fn t_div(a: int, b: int) -> int {
    if a >= 0 {
        if b >= 0 {
            a / b
        } else {
            -(a / -b)
        }
    } else {
        if b >= 0 {
            -(-a / b)
        } else {
            -a / -b
        }
    }
}

/// The horizontal ray from `q` crosses the segment from `a` to `b`: the
/// segment straddles `q`'s row and its intersection lies strictly to the
/// right of `q`.
pub open spec fn crossing(q: Point, a: Point, b: Point) -> bool {
    let qx = q.x as int;
    let qy = q.y as int;
    let ax = a.x as int;
    let ay = a.y as int;
    let bx = b.x as int;
    let by = b.y as int;
    &&& ((ay > qy) != (by > qy))
    &&& qx < t_div((bx - ax) * (qy - ay), by - ay) + ax
}

/// Parity of ray crossings over the first `k` cyclic edges of `p`.
pub open spec fn crossings_to(q: Point, p: Seq<Point>, k: int) -> bool
    decreases k,
{
    if k <= 0 {
        false
    } else {
        crossings_to(q, p, k - 1) != crossing(q, p[k - 1], p[(k % (p.len() as int))])
    }
}

/// `q` lies inside polygon `p` by the even-odd rule.
pub open spec fn in_polygon(q: Point, p: Seq<Point>) -> bool {
    crossings_to(q, p, p.len() as int)
}

/// Count, among the first `k` paths, those others that contain `ps[i]`'s
/// first vertex.
pub open spec fn depth_to(ps: Seq<Seq<Point>>, i: int, k: int) -> nat
    decreases k,
{
    if k <= 0 {
        0
    } else {
        depth_to(ps, i, k - 1) + if k - 1 != i && ps[k - 1].len() > 0 && in_polygon(
            ps[i][0],
            ps[k - 1],
        ) {
            1nat
        } else {
            0nat
        }
    }
}

/// Number of other paths whose interior contains `ps[i]`'s first vertex.
pub open spec fn nesting_depth(ps: Seq<Seq<Point>>, i: int) -> nat {
    depth_to(ps, i, ps.len() as int)
}

/// The winding rule asks for a reversal: a hole (odd depth) with negative
/// area, or an outer contour (even depth) with positive area.
pub open spec fn should_flip(ps: Seq<Seq<Point>>, i: int) -> bool {
    if nesting_depth(ps, i) % 2 == 1 {
        area2(ps[i]) < 0
    } else {
        area2(ps[i]) > 0
    }
}

/// The result of winding resolution: each path reversed exactly when the
/// winding rule asks for it, depths taken on the input set.
pub open spec fn resolve_spec(ps: Seq<Seq<Point>>) -> Seq<Seq<Point>> {
    Seq::new(
        ps.len(),
        |i: int|
            if should_flip(ps, i) {
                ps[i].reverse()
            } else {
                ps[i]
            },
    )
}

/// Every edge of `p` is horizontal or vertical.
pub open spec fn rectilinear(p: Seq<Point>) -> bool {
    forall|i: int|
        0 <= i < p.len() ==> {
            let a = #[trigger] p[i];
            let b = p[(i + 1) % (p.len() as int)];
            a.x == b.x || a.y == b.y
        }
}

/// A well-formed loop set: every path is nonempty, closed and
/// rectilinear.
pub open spec fn loops_wf(ps: Seq<Seq<Point>>) -> bool {
    forall|i: int|
        0 <= i < ps.len() ==> {
            let p = #[trigger] ps[i];
            p.len() > 0 && p[0] == p[p.len() - 1] && rectilinear(p)
        }
}

/// The views of a vector of paths.
pub open spec fn path_views(ps: Seq<Vec<Point>>) -> Seq<Seq<Point>> {
    ps.map_values(|v: Vec<Point>| v@)
}

/// Twice the signed area of `path`, exactly `area2` of its view.
pub fn signed_area(path: &Vec<Point>) -> (area: i128)
    requires
        coords_bounded(path@),
    ensures
        area == area2(path@),
{
    let n = path.len();
    let mut acc: i128 = 0;
    let mut i: usize = 0;
    while i < n
        invariant
            n == path@.len(),
            coords_bounded(path@),
            i <= n,
            acc == area2_to(path@, i as int),
            -((i as int) * 0x8000_0000_0000_0000) <= acc <= (i as int) * 0x8000_0000_0000_0000,
        decreases n - i,
    {
        let j = if i + 1 < n {
            i + 1
        } else {
            0
        };
        proof {
            if i + 1 < n {
                lemma_small_mod((i + 1) as nat, n as nat);
            } else {
                lemma_mod_self_0(n as int);
            }
            assert(((i + 1) as int) % (n as int) == j as int);
        }
        let ax = path[i].x as i64;
        let ay = path[i].y as i64;
        let bx = path[j].x as i64;
        let by = path[j].y as i64;
        proof {
            assert(ax * by < 0x4000_0000_0000_0000 && ax * by >= 0) by (nonlinear_arith)
                requires
                    0 <= ax < 0x8000_0000,
                    0 <= by < 0x8000_0000,
            ;
            assert(bx * ay < 0x4000_0000_0000_0000 && bx * ay >= 0) by (nonlinear_arith)
                requires
                    0 <= bx < 0x8000_0000,
                    0 <= ay < 0x8000_0000,
            ;
            assert((i as int + 1) * 0x8000_0000_0000_0000 <= 0xFFFF_FFFF_FFFF_FFFF
                * 0x8000_0000_0000_0000) by (nonlinear_arith)
                requires
                    i as int + 1 <= 0xFFFF_FFFF_FFFF_FFFF,
            ;
            assert((i as int) * 0x8000_0000_0000_0000 + 0x8000_0000_0000_0000 == (i as int + 1)
                * 0x8000_0000_0000_0000) by (nonlinear_arith);
        }
        let term = ax * by - bx * ay;
        acc = acc + term as i128;
        proof {
            assert(term == cross_term(path@, i as int));
        }
        i = i + 1;
    }
    acc
}

/// Truncating signed division, rounding toward zero.
fn trunc_div(a: i64, b: i64) -> (q: i64)
    requires
        b != 0,
        -0x4000_0000_0000_0000 < a < 0x4000_0000_0000_0000,
        -0x4000_0000_0000_0000 < b < 0x4000_0000_0000_0000,
    ensures
        q == t_div(a as int, b as int),
{
    let abs_a: u64 = if a < 0 {
        (-a) as u64
    } else {
        a as u64
    };
    let abs_b: u64 = if b < 0 {
        (-b) as u64
    } else {
        b as u64
    };
    let mag: u64 = abs_a / abs_b;
    if (a < 0) != (b < 0) {
        -(mag as i64)
    } else {
        mag as i64
    }
}

/// Whether `point` lies inside `polygon` by the even-odd ray-casting
/// rule: a horizontal ray cast from the point crosses the polygon's edges
/// an odd number of times.
pub fn point_in_polygon(point: Point, polygon: &Vec<Point>) -> (inside: bool)
    requires
        coords_bounded(polygon@),
        point.x < 0x8000_0000,
        point.y < 0x8000_0000,
    ensures
        inside == in_polygon(point, polygon@),
{
    let n = polygon.len();
    let mut inside = false;
    let mut i: usize = 0;
    while i < n
        invariant
            n == polygon@.len(),
            coords_bounded(polygon@),
            point.x < 0x8000_0000,
            point.y < 0x8000_0000,
            i <= n,
            inside == crossings_to(point, polygon@, i as int),
        decreases n - i,
    {
        let j = if i + 1 < n {
            i + 1
        } else {
            0
        };
        proof {
            if i + 1 < n {
                lemma_small_mod((i + 1) as nat, n as nat);
            } else {
                lemma_mod_self_0(n as int);
            }
            assert(((i + 1) as int) % (n as int) == j as int);
        }
        let qx = point.x as i64;
        let qy = point.y as i64;
        let ax = polygon[i].x as i64;
        let ay = polygon[i].y as i64;
        let bx = polygon[j].x as i64;
        let by = polygon[j].y as i64;
        if (ay > qy) != (by > qy) {
            proof {
                assert(-0x4000_0000_0000_0000 < (bx - ax) * (qy - ay)
                    < 0x4000_0000_0000_0000) by (nonlinear_arith)
                    requires
                        -0x8000_0000 < bx - ax < 0x8000_0000,
                        -0x8000_0000 < qy - ay < 0x8000_0000,
                ;
            }
            let num = (bx - ax) * (qy - ay);
            let intersect_x = trunc_div(num, by - ay) + ax;
            if qx < intersect_x {
                inside = !inside;
                proof {
                    assert(crossing(point, polygon@[i as int], polygon@[j as int]));
                }
            } else {
                proof {
                    assert(!crossing(point, polygon@[i as int], polygon@[j as int]));
                }
            }
        } else {
            proof {
                assert(!crossing(point, polygon@[i as int], polygon@[j as int]));
            }
        }
        i = i + 1;
    }
    inside
}

/// One cyclic index step.
proof fn lemma_cyc_index(n: int, k: int)
    requires
        0 <= k < n,
    ensures
        (k + 1) % n == if k + 1 < n {
            k + 1
        } else {
            0
        },
{
    if k + 1 < n {
        lemma_small_mod((k + 1) as nat, n as nat);
    } else {
        lemma_mod_self_0(n);
    }
}

/// Each shoelace term of the reversed path is the negation of a term of
/// the original, under the index reflection.
proof fn lemma_cross_term_reverse(p: Seq<Point>, k: int)
    requires
        p.len() >= 1,
        0 <= k < p.len(),
    ensures
        cross_term(p.reverse(), k) == -cross_term(
            p,
            if k < p.len() - 1 {
                p.len() - 2 - k
            } else {
                p.len() - 1
            },
        ),
{
    let n = p.len() as int;
    let r = p.reverse();
    lemma_cyc_index(n, k);
    if k < n - 1 {
        lemma_cyc_index(n, n - 2 - k);
        assert(r[k] == p[n - 1 - k]);
        assert(r[k + 1] == p[n - 2 - k]);
    } else {
        lemma_cyc_index(n, n - 1);
        assert(r[n - 1] == p[0]);
        assert(r[0] == p[n - 1]);
    }
}

/// Reversed partial sums: the first `m` terms of the reversed path sum to
/// the negated tail of the original's first `n - 1` terms.
proof fn lemma_area2_rev_partial(p: Seq<Point>, m: int)
    requires
        p.len() >= 1,
        0 <= m <= p.len() - 1,
    ensures
        area2_to(p.reverse(), m) == -(area2_to(p, p.len() - 1) - area2_to(p, p.len() - 1 - m)),
    decreases m,
{
    if m > 0 {
        lemma_area2_rev_partial(p, m - 1);
        lemma_cross_term_reverse(p, m - 1);
        assert(area2_to(p, p.len() - m) == area2_to(p, p.len() - 1 - (m - 1)));
    }
}

/// Reversing a path negates its signed area.
pub proof fn lemma_area2_reverse(p: Seq<Point>)
    ensures
        area2(p.reverse()) == -area2(p),
{
    let n = p.len() as int;
    if n == 0 {
        assert(p.reverse().len() == 0);
    } else {
        lemma_area2_rev_partial(p, n - 1);
        lemma_cross_term_reverse(p, n - 1);
        assert(area2_to(p, 0) == 0);
        assert(area2(p.reverse()) == area2_to(p.reverse(), n - 1) + cross_term(p.reverse(), n - 1));
        assert(area2(p) == area2_to(p, n - 1) + cross_term(p, n - 1));
    }
}

/// The ray-crossing test does not care which endpoint of an axis-aligned
/// segment comes first.
proof fn lemma_crossing_sym(q: Point, a: Point, b: Point)
    requires
        a.x == b.x || a.y == b.y,
    ensures
        crossing(q, a, b) == crossing(q, b, a),
{
    if a.y == b.y {
    } else {
        assert(a.x == b.x);
        let qy = q.y as int;
        let ay = a.y as int;
        let by = b.y as int;
        if ((ay > qy) != (by > qy)) {
            assert(t_div((b.x as int - a.x as int) * (qy - ay), by - ay) == 0);
            assert(t_div((a.x as int - b.x as int) * (qy - by), ay - by) == 0);
        }
    }
}

/// Reversed partial parities of the ray-crossing count.
proof fn lemma_crossings_rev_partial(q: Point, p: Seq<Point>, m: int)
    requires
        rectilinear(p),
        p.len() >= 1,
        0 <= m <= p.len() - 1,
    ensures
        crossings_to(q, p.reverse(), m) == (crossings_to(q, p, p.len() - 1) != crossings_to(
            q,
            p,
            p.len() - 1 - m,
        )),
    decreases m,
{
    let n = p.len() as int;
    let r = p.reverse();
    if m > 0 {
        lemma_crossings_rev_partial(q, p, m - 1);
        let k = m - 1;
        let src = n - 2 - k;
        lemma_cyc_index(n, k);
        if k < n - 1 {
            lemma_cyc_index(n, src);
            assert(r[k] == p[n - 1 - k]);
            assert(r[k + 1] == p[src]);
            assert(p[src].x == p[src + 1].x || p[src].y == p[src + 1].y);
            lemma_crossing_sym(q, p[src], p[src + 1]);
            assert(crossing(q, r[k], r[(m % n)]) == crossing(q, p[src], p[(src + 1) % n]));
        } else {
            lemma_cyc_index(n, n - 1);
            assert(r[n - 1] == p[0]);
            assert(r[0] == p[n - 1]);
            assert(p[n - 1].x == p[(n - 1 + 1) % n].x || p[n - 1].y == p[(n - 1 + 1) % n].y);
            lemma_crossing_sym(q, p[n - 1], p[0]);
        }
        assert(crossings_to(q, p, n - m) == crossings_to(q, p, n - 1 - (m - 1)));
    }
}

/// Reversing a rectilinear polygon leaves the even-odd test unchanged.
pub proof fn lemma_in_polygon_reverse(q: Point, p: Seq<Point>)
    requires
        rectilinear(p),
    ensures
        in_polygon(q, p.reverse()) == in_polygon(q, p),
{
    let n = p.len() as int;
    let r = p.reverse();
    if n == 0 {
        assert(r.len() == 0);
    } else {
        lemma_crossings_rev_partial(q, p, n - 1);
        lemma_cyc_index(n, n - 1);
        assert(r[n - 1] == p[0]);
        assert(r[0] == p[n - 1]);
        assert(p[n - 1].x == p[(n - 1 + 1) % n].x || p[n - 1].y == p[(n - 1 + 1) % n].y);
        lemma_crossing_sym(q, p[n - 1], p[0]);
        assert(crossings_to(q, r, n) == (crossings_to(q, r, n - 1) != crossing(q, r[n - 1], r[(n % n)])));
        assert(crossings_to(q, p, n) == (crossings_to(q, p, n - 1) != crossing(q, p[n - 1], p[(n % n)])));
        assert(crossings_to(q, p, 0) == false);
    }
}

/// Reversing any selection of closed rectilinear paths leaves every
/// nesting depth unchanged.
proof fn lemma_depth_preserved(ps: Seq<Seq<Point>>, qs: Seq<Seq<Point>>, i: int, k: int)
    requires
        loops_wf(ps),
        qs.len() == ps.len(),
        forall|j: int|
            0 <= j < ps.len() ==> (#[trigger] qs[j]) == ps[j] || qs[j] == ps[j].reverse(),
        0 <= i < ps.len(),
        0 <= k <= ps.len(),
    ensures
        depth_to(qs, i, k) == depth_to(ps, i, k),
    decreases k,
{
    assert(qs[i][0] == ps[i][0]) by {
        let p = ps[i];
        if qs[i] == p.reverse() {
            assert(p.reverse()[0] == p[p.len() - 1]);
        }
    }
    if k > 0 {
        lemma_depth_preserved(ps, qs, i, k - 1);
        let j = k - 1;
        let p = ps[j];
        assert(qs[j].len() == p.len());
        if j != i && p.len() > 0 {
            if qs[j] == p.reverse() {
                lemma_in_polygon_reverse(ps[i][0], p);
            }
        }
    }
}

/// Winding parity law: once winding is resolved, every path with even
/// nesting depth (an outer contour) has negative signed area and every
/// path with odd nesting depth (a hole) has positive signed area, provided
/// no path has zero area.  Depths are taken over the resolved set itself.
pub proof fn lemma_winding_parity(ps: Seq<Seq<Point>>, qs: Seq<Seq<Point>>)
    requires
        loops_wf(ps),
        forall|i: int| 0 <= i < ps.len() ==> area2(#[trigger] ps[i]) != 0,
        qs == resolve_spec(ps),
    ensures
        forall|i: int|
            0 <= i < qs.len() ==> ((#[trigger] nesting_depth(qs, i)) % 2 == 0 ==> area2(qs[i]) < 0)
                && (nesting_depth(qs, i) % 2 == 1 ==> area2(qs[i]) > 0),
{
    assert forall|i: int|
        0 <= i < qs.len() implies ((#[trigger] nesting_depth(qs, i)) % 2 == 0 ==> area2(qs[i]) < 0)
        && (nesting_depth(qs, i) % 2 == 1 ==> area2(qs[i]) > 0) by {
        assert(forall|j: int|
            0 <= j < ps.len() ==> (#[trigger] qs[j]) == ps[j] || qs[j] == ps[j].reverse());
        lemma_depth_preserved(ps, qs, i, ps.len() as int);
        assert(nesting_depth(qs, i) == nesting_depth(ps, i));
        lemma_area2_reverse(ps[i]);
        if should_flip(ps, i) {
            assert(qs[i] == ps[i].reverse());
        } else {
            assert(qs[i] == ps[i]);
        }
    }
}

/// Winding resolution is idempotent: resolving an already-resolved set of
/// closed rectilinear paths changes nothing.
pub proof fn lemma_winding_idempotent(ps: Seq<Seq<Point>>)
    requires
        loops_wf(ps),
    ensures
        resolve_spec(resolve_spec(ps)) == resolve_spec(ps),
{
    let qs = resolve_spec(ps);
    assert forall|i: int| 0 <= i < qs.len() implies !(#[trigger] should_flip(qs, i)) by {
        assert(forall|j: int|
            0 <= j < ps.len() ==> (#[trigger] qs[j]) == ps[j] || qs[j] == ps[j].reverse());
        lemma_depth_preserved(ps, qs, i, ps.len() as int);
        assert(nesting_depth(qs, i) == nesting_depth(ps, i));
        lemma_area2_reverse(ps[i]);
        if should_flip(ps, i) {
            assert(qs[i] == ps[i].reverse());
        } else {
            assert(qs[i] == ps[i]);
        }
    }
    assert(resolve_spec(qs) =~= qs);
}

/// A fresh vector holding `p`'s points in reverse order.
fn reversed(p: &Vec<Point>) -> (r: Vec<Point>)
    ensures
        r@ == p@.reverse(),
{
    let n = p.len();
    let mut r: Vec<Point> = Vec::new();
    let mut k: usize = 0;
    while k < n
        invariant
            n == p@.len(),
            k <= n,
            r@.len() == k,
            forall|t: int| 0 <= t < k ==> r@[t] == p@[n - 1 - t],
        decreases n - k,
    {
        r.push(p[n - 1 - k]);
        k = k + 1;
    }
    proof {
        assert(r@ =~= p@.reverse());
    }
    r
}

/// Resolve the winding direction of every path, in place.
///
/// For each path, its nesting depth is the number of other paths whose
/// interior contains its first vertex; the path is reversed exactly when
/// that depth is odd and its signed area is negative, or the depth is
/// even and its signed area is positive.
pub fn resolve_winding(paths: &mut Vec<Vec<Point>>)
    requires
        forall|i: int|
            0 <= i < old(paths)@.len() ==> (#[trigger] old(paths)@[i])@.len() > 0 && coords_bounded(
                old(paths)@[i]@,
            ),
    ensures
        path_views(final(paths)@) == resolve_spec(path_views(old(paths)@)),
{
    let ghost ps0 = path_views(old(paths)@);
    let ghost v0 = old(paths)@;
    let n = paths.len();
    // First pass: decide which paths the winding rule reverses, against
    // the unmodified set.
    let mut flips: Vec<bool> = Vec::new();
    let mut i: usize = 0;
    while i < n
        invariant
            paths@ == v0,
            ps0 == path_views(v0),
            n == v0.len(),
            forall|t: int|
                0 <= t < n ==> (#[trigger] v0[t])@.len() > 0 && coords_bounded(v0[t]@),
            i <= n,
            flips@.len() == i,
            forall|t: int| 0 <= t < i ==> flips@[t] == should_flip(ps0, t),
        decreases n - i,
    {
        let mut cnt: usize = 0;
        let mut j: usize = 0;
        while j < n
            invariant
                paths@ == v0,
                ps0 == path_views(v0),
                n == v0.len(),
                forall|t: int|
                    0 <= t < n ==> (#[trigger] v0[t])@.len() > 0 && coords_bounded(v0[t]@),
                i < n,
                j <= n,
                cnt <= j,
                cnt == depth_to(ps0, i as int, j as int),
            decreases n - j,
        {
            if j != i {
                if paths[j].len() > 0 {
                    let probe = paths[i][0];
                    if point_in_polygon(probe, &paths[j]) {
                        cnt = cnt + 1;
                    }
                }
            }
            j = j + 1;
        }
        let area = signed_area(&paths[i]);
        let flip = if cnt % 2 == 1 {
            area < 0
        } else {
            area > 0
        };
        proof {
            assert(cnt == nesting_depth(ps0, i as int));
            assert(area == area2(ps0[i as int]));
            assert(flip == should_flip(ps0, i as int));
        }
        flips.push(flip);
        i = i + 1;
    }
    // Second pass: reverse the flagged paths.
    let mut k: usize = 0;
    while k < n
        invariant
            n == paths@.len(),
            flips@.len() == n,
            n == v0.len(),
            ps0 == path_views(v0),
            forall|t: int| 0 <= t < n ==> flips@[t] == should_flip(ps0, t),
            k <= n,
            forall|t: int| k <= t < n ==> paths@[t] == v0[t],
            forall|t: int|
                0 <= t < k ==> (#[trigger] paths@[t])@ == resolve_spec(ps0)[t],
        decreases n - k,
    {
        if flips[k] {
            let rev = reversed(&paths[k]);
            paths[k] = rev;
        }
        k = k + 1;
    }
    proof {
        assert(path_views(paths@) =~= resolve_spec(ps0));
    }
}

} // verus!
