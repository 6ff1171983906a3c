//! Stitching boundary edges into closed point loops, and the full
//! edge-to-path pipeline.
//!
//! `stitch_paths` walks the boundary graph: it seeds a walk with any
//! unused edge, follows unused incident edges until the walk returns to
//! its seed or gets stuck, splits off any sub-loop created by a
//! self-touching boundary, closes each surviving walk, and discards
//! degenerate walks of two points or fewer.  `edges_to_paths` stitches and
//! then resolves winding, so that every emitted path is a closed loop of
//! more than two points whose orientation follows the winding rule.

use vstd::prelude::*;

verus! {

use crate::edge::Edge;
use crate::edge::Point;
use crate::edge::edge_listed;
use crate::edge::pt_lt;
use crate::edge::push_unique;
use vstd::multiset::Multiset;
use crate::winding::coords_bounded;
use crate::winding::path_views;
use crate::winding::resolve_spec;
use crate::winding::resolve_winding;

/// `q` is an endpoint of some edge in `s`.
pub open spec fn pt_of_edges(q: Point, s: Seq<Edge>) -> bool {
    exists|t: int| 0 <= t < s.len() && ((#[trigger] s[t]).a == q || s[t].b == q)
}

/// All edge endpoints stay below the coordinate bound of the winding
/// arithmetic.
pub open spec fn edges_bounded(s: Seq<Edge>) -> bool {
    forall|t: int|
        0 <= t < s.len() ==> {
            let e = #[trigger] s[t];
            e.a.x < 0x8000_0000 && e.a.y < 0x8000_0000 && e.b.x < 0x8000_0000 && e.b.y
                < 0x8000_0000
        }
}

/// A closed loop of more than two points: `points[0] == points[last]`.
pub open spec fn closed_path(p: Seq<Point>) -> bool {
    p.len() > 2 && p[0] == p[p.len() - 1]
}

/// The points `p` and `q` are the two endpoints of some edge in `s`.
pub open spec fn joins(s: Seq<Edge>, p: Point, q: Point) -> bool {
    exists|t: int|
        0 <= t < s.len() && (((#[trigger] s[t]).a == p && s[t].b == q) || (s[t].a == q && s[t].b
            == p))
}

/// The two edges link the same pair of points, in either order.
pub open spec fn same_link(e1: Edge, e2: Edge) -> bool {
    (e1.a == e2.a && e1.b == e2.b) || (e1.a == e2.b && e1.b == e2.a)
}

/// Every emitted path is a closed loop over endpoints of the input
/// edges; every step of a path, except possibly the one closing the
/// loop, walks along an input edge; and every path is simple: no lattice
/// point repeats in it, except that the last point closes back to the
/// first.
pub open spec fn stitched_paths(edges: Seq<Edge>, ps: Seq<Seq<Point>>) -> bool {
    &&& forall|i: int| 0 <= i < ps.len() ==> closed_path(#[trigger] ps[i])
    &&& forall|i: int, k: int|
        0 <= i < ps.len() && 0 <= k < ps[i].len() ==> pt_of_edges(#[trigger] ps[i][k], edges)
    &&& forall|i: int, k: int|
        0 <= i < ps.len() && 0 <= k < ps[i].len() - 2 ==> joins(
            edges,
            #[trigger] ps[i][k],
            ps[i][k + 1],
        )
    &&& forall|i: int, k1: int, k2: int|
        0 <= i < ps.len() && 0 <= k1 < k2 < ps[i].len() - 1 ==> #[trigger] ps[i][k1]
            != #[trigger] ps[i][k2]
}


/// The normalized edge between two lattice points: the lexicographically
/// smaller point first.
pub open spec fn norm_pt_pair(p: Point, q: Point) -> Edge {
    if q.x < p.x || (q.x == p.x && q.y < p.y) {
        Edge { a: q, b: p }
    } else {
        Edge { a: p, b: q }
    }
}

/// The multiset of normalized steps `lo .. hi` of the point list `p`;
/// step `k` goes from `p[k]` to `p[k + 1]`.
#[verifier::opaque]
pub open spec fn msteps_range(p: Seq<Point>, lo: int, hi: int) -> Multiset<Edge>
    decreases hi - lo,
{
    if lo >= hi {
        Multiset::empty()
    } else {
        msteps_range(p, lo, hi - 1).insert(norm_pt_pair(p[hi - 1], p[hi]))
    }
}

/// All normalized steps of a point list, read left to right; on the
/// closed representation of a loop this is the multiset of the loop's
/// cyclic segments, closing segment included.
pub open spec fn loop_steps(p: Seq<Point>) -> Multiset<Edge> {
    msteps_range(p, 0, p.len() - 1)
}

/// All steps over a list of paths.
#[verifier::opaque]
pub open spec fn paths_steps(ps: Seq<Seq<Point>>) -> Multiset<Edge>
    decreases ps.len(),
{
    if ps.len() == 0 {
        Multiset::empty()
    } else {
        paths_steps(ps.drop_last()).add(loop_steps(ps.last()))
    }
}

/// Seeding a walk with an unused edge keeps the step accounting and
/// flips the seed edge's endpoints to odd used degree.
#[verifier::rlimit(100)]
proof fn lemma_seed_step(
    elist: Seq<Edge>,
    used0: Seq<bool>,
    used1: Seq<bool>,
    vs: Seq<Seq<Point>>,
    s: int,
)
    requires
        elist.len() == used0.len(),
        0 <= s < elist.len(),
        !used0[s],
        used1 == used0.update(s, true),
        pt_lt(elist[s].a, elist[s].b),
        paths_steps(vs) == used_mset(elist, used0),
        forall|v: Point| #[trigger] used_degree(elist, used0, v) % 2 == 0,
    ensures
        paths_steps(vs).add(loop_steps(seq![elist[s].a, elist[s].b])) == used_mset(elist, used1),
        forall|v: Point|
            #[trigger] used_degree(elist, used1, v) % 2 == (
            if (v == elist[s].a) != (v == elist[s].b) {
                1int
            } else {
                0int
            }),
{
    let start = elist[s].a;
    let curr = elist[s].b;
    lemma_used_insert(elist, used0, s);
    assert forall|v: Point| #[trigger] used_degree(elist, used1, v) % 2 == (
    if (v == start) != (v == curr) {
        1int
    } else {
        0int
    }) by {
        lemma_used_degree_insert(elist, used0, s, v);
    }
    let two = seq![start, curr];
    assert(loop_steps(two) == Multiset::<Edge>::empty().insert(norm_pt_pair(start, curr))) by {
        reveal(crate::paths::msteps_range);
        assert(two.len() == 2);
        assert(two[0] == start && two[1] == curr);
        assert(msteps_range(two, 0, 0) == Multiset::<Edge>::empty());
        assert(msteps_range(two, 0, 1) == msteps_range(two, 0, 0).insert(
            norm_pt_pair(two[0], two[1]),
        ));
    }
    lemma_norm_pair_of_edge(elist[s], start, curr);
    lemma_acc_seed(paths_steps(vs), used_mset(elist, used0), elist[s]);
}

/// Following one unused edge keeps the step accounting and moves the odd
/// used degree from the left point to the new endpoint.
#[verifier::rlimit(100)]
proof fn lemma_consume_step(
    elist: Seq<Edge>,
    used0: Seq<bool>,
    used1: Seq<bool>,
    vs: Seq<Seq<Point>>,
    walk: Seq<Point>,
    start: Point,
    curr0: Point,
    curr1: Point,
    t: int,
)
    requires
        elist.len() == used0.len(),
        0 <= t < elist.len(),
        !used0[t],
        used1 == used0.update(t, true),
        pt_lt(elist[t].a, elist[t].b),
        (elist[t].a == curr0 && elist[t].b == curr1) || (elist[t].a == curr1 && elist[t].b
            == curr0),
        walk.len() >= 1,
        walk.last() == curr0,
        paths_steps(vs).add(loop_steps(walk)) == used_mset(elist, used0),
        forall|v: Point|
            #[trigger] used_degree(elist, used0, v) % 2 == (
            if (v == start) != (v == curr0) {
                1int
            } else {
                0int
            }),
    ensures
        paths_steps(vs).add(loop_steps(walk.push(curr1))) == used_mset(elist, used1),
        forall|v: Point|
            #[trigger] used_degree(elist, used1, v) % 2 == (
            if (v == start) != (v == curr1) {
                1int
            } else {
                0int
            }),
{
    lemma_used_insert(elist, used0, t);
    assert forall|v: Point| #[trigger] used_degree(elist, used1, v) % 2 == (
    if (v == start) != (v == curr1) {
        1int
    } else {
        0int
    }) by {
        lemma_used_degree_insert(elist, used0, t, v);
    }
    lemma_loop_steps_push(walk, curr1);
    lemma_norm_pair_of_edge(elist[t], curr0, curr1);
    lemma_acc_insert(paths_steps(vs), loop_steps(walk), used_mset(elist, used0), elist[t]);
}

/// A point of odd used degree whose incident edges are all used has odd
/// total degree.
proof fn lemma_blocked_point(elist: Seq<Edge>, used: Seq<bool>, v: Point)
    requires
        elist.len() == used.len(),
        used_degree(elist, used, v) % 2 == 1,
        forall|t: int|
            0 <= t < elist.len() ==> used[t] || ((#[trigger] elist[t]).a != v && elist[t].b != v),
    ensures
        pt_degree(elist, v) % 2 == 1,
{
    if used_degree(elist, used, v) != pt_degree(elist, v) {
        lemma_unused_witness(elist, used, v);
        let t = choose|t: int|
            0 <= t < elist.len() && !used[t] && edge_inc(#[trigger] elist[t], v) > 0;
        assert(used[t] || (elist[t].a != v && elist[t].b != v));
        assert(false);
    }
}

/// With every edge used, the emitted steps cover the input exactly; a
/// nonempty input then forces a nonempty output.
proof fn lemma_final_cover(edges: Seq<Edge>, elist: Seq<Edge>, used: Seq<bool>, vs: Seq<Seq<Point>>)
    requires
        elist == edges,
        elist.len() == used.len(),
        forall|t: int| 0 <= t < used.len() ==> used[t],
        paths_steps(vs) == used_mset(elist, used),
    ensures
        paths_steps(vs) == edge_mset(edges),
        edges.len() > 0 ==> vs.len() > 0,
{
    lemma_used_full(elist, used);
    if edges.len() > 0 && vs.len() == 0 {
        reveal(crate::paths::paths_steps);
        assert(paths_steps(vs) == Multiset::<Edge>::empty());
        lemma_mset_last(edges);
        assert(false);
    }
}

/// Inserting into the walk's running steps mirrors inserting into the
/// used edges.
proof fn lemma_acc_insert(ps: Multiset<Edge>, l: Multiset<Edge>, u: Multiset<Edge>, e: Edge)
    requires
        ps.add(l) == u,
    ensures
        ps.add(l.insert(e)) == u.insert(e),
{
    broadcast use vstd::multiset::group_multiset_axioms;

    assert(ps.add(l.insert(e)) =~= u.insert(e));
}

/// Starting a walk adds its seed edge to the accounted steps.
proof fn lemma_acc_seed(ps: Multiset<Edge>, u: Multiset<Edge>, e: Edge)
    requires
        ps == u,
    ensures
        ps.add(Multiset::empty().insert(e)) == u.insert(e),
{
    broadcast use vstd::multiset::group_multiset_axioms;

    assert(ps.add(Multiset::empty().insert(e)) =~= u.insert(e));
}

/// Regrouping the accounted steps when a sub-loop is emitted.
proof fn lemma_acc_regroup(
    ps: Multiset<Edge>,
    a: Multiset<Edge>,
    b: Multiset<Edge>,
    u: Multiset<Edge>,
)
    requires
        ps.add(a.add(b)) == u,
    ensures
        ps.add(a).add(b) == u,
{
    broadcast use vstd::multiset::group_multiset_axioms;

    assert(ps.add(a).add(b) =~= u);
}

/// A nonempty edge sequence counts its last edge, which an empty
/// multiset does not.
proof fn lemma_mset_last(es: Seq<Edge>)
    requires
        es.len() > 0,
    ensures
        edge_mset(es).count(es[es.len() - 1]) >= 1,
        Multiset::<Edge>::empty().count(es[es.len() - 1]) == 0,
{
    reveal(crate::paths::edge_mset);
    broadcast use vstd::multiset::group_multiset_axioms;
}

/// Shorthand for the steps of a path vector.
pub open spec fn views_steps_of(ps: Seq<Vec<Point>>) -> Multiset<Edge> {
    paths_steps(path_views(ps))
}

/// The multiset of the edge values of a sequence.
#[verifier::opaque]
pub open spec fn edge_mset(es: Seq<Edge>) -> Multiset<Edge>
    decreases es.len(),
{
    if es.len() == 0 {
        Multiset::empty()
    } else {
        edge_mset(es.drop_last()).insert(es.last())
    }
}

/// The multiset of the edges marked used.
#[verifier::opaque]
spec fn used_mset(es: Seq<Edge>, us: Seq<bool>) -> Multiset<Edge>
    decreases es.len(),
{
    if es.len() == 0 || es.len() != us.len() {
        Multiset::empty()
    } else if us.last() {
        used_mset(es.drop_last(), us.drop_last()).insert(es.last())
    } else {
        used_mset(es.drop_last(), us.drop_last())
    }
}

/// How often `v` occurs as an endpoint of `e`.
pub open spec fn edge_inc(e: Edge, v: Point) -> int {
    (if e.a == v {
        1int
    } else {
        0int
    }) + (if e.b == v {
        1int
    } else {
        0int
    })
}

/// The degree of lattice point `v` in the edge set `es`.
#[verifier::opaque]
pub open spec fn pt_degree(es: Seq<Edge>, v: Point) -> int
    decreases es.len(),
{
    if es.len() == 0 {
        0
    } else {
        pt_degree(es.drop_last(), v) + edge_inc(es.last(), v)
    }
}

/// The degree of `v` among the edges marked used.
#[verifier::opaque]
spec fn used_degree(es: Seq<Edge>, us: Seq<bool>, v: Point) -> int
    decreases es.len(),
{
    if es.len() == 0 || es.len() != us.len() {
        0
    } else {
        used_degree(es.drop_last(), us.drop_last(), v) + if us.last() {
            edge_inc(es.last(), v)
        } else {
            0int
        }
    }
}

/// What the boundary extractor hands the stitcher: pairwise distinct
/// normalized segments meeting every lattice point an even number of
/// times (every boundary is a union of closed contours).
pub open spec fn boundary_set(edges: Seq<Edge>) -> bool {
    &&& forall|t: int| 0 <= t < edges.len() ==> pt_lt((#[trigger] edges[t]).a, edges[t].b)
    &&& forall|t1: int, t2: int| 0 <= t1 < t2 < edges.len() ==> edges[t1] != edges[t2]
    &&& forall|v: Point| #[trigger] pt_degree(edges, v) % 2 == 0
}

/// The pair an edge normalizes from is unordered.
proof fn lemma_norm_pair_sym(p: Point, q: Point)
    ensures
        norm_pt_pair(p, q) == norm_pt_pair(q, p),
{
}

/// A normalized edge is the normalization of its endpoint pair.
proof fn lemma_norm_pair_of_edge(e: Edge, p: Point, q: Point)
    requires
        pt_lt(e.a, e.b),
        (e.a == p && e.b == q) || (e.a == q && e.b == p),
    ensures
        norm_pt_pair(p, q) == e,
{
}

/// Steps of adjacent ranges add up.
proof fn lemma_msteps_split(p: Seq<Point>, lo: int, mid: int, hi: int)
    requires
        lo <= mid <= hi,
    ensures
        msteps_range(p, lo, hi) == msteps_range(p, lo, mid).add(msteps_range(p, mid, hi)),
    decreases hi - mid,
{
    reveal(crate::paths::msteps_range);
    broadcast use vstd::multiset::group_multiset_axioms;
    if mid == hi {
        assert(msteps_range(p, lo, hi).add(Multiset::empty()) =~= msteps_range(p, lo, hi));
    } else {
        lemma_msteps_split(p, lo, mid, hi - 1);
        assert(msteps_range(p, lo, mid).add(
            msteps_range(p, mid, hi - 1).insert(norm_pt_pair(p[hi - 1], p[hi])),
        ) =~= msteps_range(p, lo, mid).add(msteps_range(p, mid, hi - 1)).insert(
            norm_pt_pair(p[hi - 1], p[hi]),
        ));
    }
}

/// Ranges with pointwise equal steps have equal step multisets.
proof fn lemma_msteps_shift(p: Seq<Point>, q: Seq<Point>, lo: int, hi: int, off: int)
    requires
        lo <= hi,
        forall|k: int|
            lo <= k < hi ==> #[trigger] norm_pt_pair(p[k], p[k + 1]) == norm_pt_pair(
                q[k + off],
                q[k + off + 1],
            ),
    ensures
        msteps_range(p, lo, hi) == msteps_range(q, lo + off, hi + off),
    decreases hi - lo,
{
    reveal(crate::paths::msteps_range);
    broadcast use vstd::multiset::group_multiset_axioms;
    if lo < hi {
        lemma_msteps_shift(p, q, lo, hi - 1, off);
        assert(norm_pt_pair(p[hi - 1], p[hi - 1 + 1]) == norm_pt_pair(
            q[hi - 1 + off],
            q[hi - 1 + off + 1],
        ));
        assert(norm_pt_pair(p[hi - 1], p[hi]) == norm_pt_pair(q[hi - 1 + off], q[hi + off]));
    }
}

/// Ranges that walk the same steps in opposite order have equal step
/// multisets.
proof fn lemma_msteps_rev(p: Seq<Point>, q: Seq<Point>, plo: int, phi: int, qlo: int, qhi: int)
    requires
        qlo <= qhi,
        phi - plo == qhi - qlo,
        forall|j: int|
            qlo <= j < qhi ==> #[trigger] norm_pt_pair(q[j], q[j + 1]) == norm_pt_pair(
                p[phi - 1 - (j - qlo)],
                p[phi - (j - qlo)],
            ),
    ensures
        msteps_range(q, qlo, qhi) == msteps_range(p, plo, phi),
    decreases qhi - qlo,
{
    reveal(crate::paths::msteps_range);
    broadcast use vstd::multiset::group_multiset_axioms;
    if qlo < qhi {
        lemma_msteps_rev(p, q, plo + 1, phi, qlo, qhi - 1);
        // q's last step is p's first
        assert(norm_pt_pair(q[qhi - 1], q[qhi - 1 + 1]) == norm_pt_pair(
            p[phi - 1 - (qhi - 1 - qlo)],
            p[phi - (qhi - 1 - qlo)],
        ));
        assert(phi - 1 - (qhi - 1 - qlo) == plo);
        assert(norm_pt_pair(q[qhi - 1], q[qhi]) == norm_pt_pair(p[plo], p[plo + 1]));
        lemma_msteps_split(p, plo, plo + 1, phi);
        assert(msteps_range(p, plo, plo) == Multiset::<Edge>::empty());
        assert(msteps_range(p, plo, plo + 1) == Multiset::empty().insert(
            norm_pt_pair(p[plo], p[plo + 1]),
        ));
        assert(Multiset::empty().insert(norm_pt_pair(p[plo], p[plo + 1])).add(
            msteps_range(p, plo + 1, phi),
        ) =~= msteps_range(p, plo + 1, phi).insert(norm_pt_pair(p[plo], p[plo + 1])));
    }
}

/// Appending a point appends one step.
proof fn lemma_loop_steps_push(p: Seq<Point>, q: Point)
    requires
        p.len() >= 1,
    ensures
        loop_steps(p.push(q)) == loop_steps(p).insert(norm_pt_pair(p.last(), q)),
{
    reveal(crate::paths::msteps_range);
    broadcast use vstd::multiset::group_multiset_axioms;
    let pp = p.push(q);
    let n = p.len() as int;
    assert(msteps_range(pp, 0, n) == msteps_range(pp, 0, n - 1).insert(
        norm_pt_pair(pp[n - 1], pp[n]),
    ));
    assert forall|k: int|
        0 <= k < n - 1 implies #[trigger] norm_pt_pair(pp[k], pp[k + 1]) == norm_pt_pair(
        p[k],
        p[k + 1],
    ) by {
        assert(pp[k] == p[k] && pp[k + 1] == p[k + 1]);
    }
    lemma_msteps_shift(pp, p, 0, n - 1, 0);
}

/// Marking one more edge used inserts it into the used multiset.
proof fn lemma_used_insert(es: Seq<Edge>, us: Seq<bool>, t: int)
    requires
        es.len() == us.len(),
        0 <= t < es.len(),
        !us[t],
    ensures
        used_mset(es, us.update(t, true)) == used_mset(es, us).insert(es[t]),
    decreases es.len(),
{
    reveal(crate::paths::used_mset);
    broadcast use vstd::multiset::group_multiset_axioms;
    let us2 = us.update(t, true);
    if t == es.len() - 1 {
        assert(us2.drop_last() =~= us.drop_last());
    } else {
        assert(us2.drop_last() =~= us.drop_last().update(t, true));
        lemma_used_insert(es.drop_last(), us.drop_last(), t);
        assert(es.drop_last()[t] == es[t]);
        if us.last() {
            assert(used_mset(es.drop_last(), us.drop_last()).insert(es[t]).insert(es.last())
                =~= used_mset(es.drop_last(), us.drop_last()).insert(es.last()).insert(es[t]));
        }
    }
}

/// Marking one more edge used raises `v`'s used degree by its incidence.
proof fn lemma_used_degree_insert(es: Seq<Edge>, us: Seq<bool>, t: int, v: Point)
    requires
        es.len() == us.len(),
        0 <= t < es.len(),
        !us[t],
    ensures
        used_degree(es, us.update(t, true), v) == used_degree(es, us, v) + edge_inc(es[t], v),
    decreases es.len(),
{
    reveal(crate::paths::used_degree);
    let us2 = us.update(t, true);
    if t == es.len() - 1 {
        assert(us2.drop_last() =~= us.drop_last());
    } else {
        assert(us2.drop_last() =~= us.drop_last().update(t, true));
        lemma_used_degree_insert(es.drop_last(), us.drop_last(), t, v);
        assert(es.drop_last()[t] == es[t]);
    }
}

/// With nothing used, the used multiset and degrees are empty.
proof fn lemma_used_none(es: Seq<Edge>, us: Seq<bool>, v: Point)
    requires
        es.len() == us.len(),
        forall|t: int| 0 <= t < us.len() ==> !us[t],
    ensures
        used_mset(es, us) == Multiset::<Edge>::empty(),
        used_degree(es, us, v) == 0,
    decreases es.len(),
{
    reveal(crate::paths::used_mset);
    reveal(crate::paths::used_degree);
    broadcast use vstd::multiset::group_multiset_axioms;
    if es.len() > 0 {
        lemma_used_none(es.drop_last(), us.drop_last(), v);
    }
}

/// With everything used, the used multiset is the whole edge multiset.
proof fn lemma_used_full(es: Seq<Edge>, us: Seq<bool>)
    requires
        es.len() == us.len(),
        forall|t: int| 0 <= t < us.len() ==> us[t],
    ensures
        used_mset(es, us) == edge_mset(es),
    decreases es.len(),
{
    reveal(crate::paths::used_mset);
    reveal(crate::paths::edge_mset);
    broadcast use vstd::multiset::group_multiset_axioms;
    if es.len() > 0 {
        lemma_used_full(es.drop_last(), us.drop_last());
    }
}

/// The used multiset counts no edge more often than the sequence holds it.
proof fn lemma_used_count(es: Seq<Edge>, us: Seq<bool>, e: Edge)
    requires
        es.len() == us.len(),
    ensures
        used_mset(es, us).count(e) <= edge_mset(es).count(e),
    decreases es.len(),
{
    reveal(crate::paths::used_mset);
    reveal(crate::paths::edge_mset);
    broadcast use vstd::multiset::group_multiset_axioms;
    if es.len() > 0 {
        lemma_used_count(es.drop_last(), us.drop_last(), e);
    }
}

/// A counted edge occurs in the sequence.
proof fn lemma_mset_member(es: Seq<Edge>, e: Edge)
    requires
        edge_mset(es).count(e) > 0,
    ensures
        exists|t: int| 0 <= t < es.len() && es[t] == e,
    decreases es.len(),
{
    reveal(crate::paths::edge_mset);
    broadcast use vstd::multiset::group_multiset_axioms;
    if es.len() > 0 {
        if es.last() == e {
            assert(es[es.len() - 1] == e);
        } else {
            lemma_mset_member(es.drop_last(), e);
            let t = choose|t: int| 0 <= t < es.drop_last().len() && es.drop_last()[t] == e;
            assert(es[t] == e);
        }
    }
}

/// A sequence of pairwise distinct edges counts each at most once.
proof fn lemma_distinct_count(es: Seq<Edge>, e: Edge)
    requires
        forall|t1: int, t2: int| 0 <= t1 < t2 < es.len() ==> es[t1] != es[t2],
    ensures
        edge_mset(es).count(e) <= 1,
    decreases es.len(),
{
    reveal(crate::paths::edge_mset);
    broadcast use vstd::multiset::group_multiset_axioms;
    if es.len() > 0 {
        lemma_distinct_count(es.drop_last(), e);
        if es.last() == e && edge_mset(es.drop_last()).count(e) > 0 {
            lemma_mset_member(es.drop_last(), e);
            let t = choose|t: int| 0 <= t < es.drop_last().len() && es.drop_last()[t] == e;
            assert(es[t] == es[es.len() - 1]);
        }
    }
}

/// Every step of a range is counted in its step multiset.
proof fn lemma_step_present(p: Seq<Point>, lo: int, hi: int, k: int)
    requires
        lo <= k < hi,
    ensures
        msteps_range(p, lo, hi).count(norm_pt_pair(p[k], p[k + 1])) >= 1,
{
    reveal(crate::paths::msteps_range);
    broadcast use vstd::multiset::group_multiset_axioms;
    lemma_msteps_split(p, lo, k, hi);
    lemma_msteps_split(p, k, k + 1, hi);
}

/// Two equal steps of a range are counted twice.
proof fn lemma_step_twice(p: Seq<Point>, lo: int, hi: int, k1: int, k2: int)
    requires
        lo <= k1 < k2 < hi,
        norm_pt_pair(p[k1], p[k1 + 1]) == norm_pt_pair(p[k2], p[k2 + 1]),
    ensures
        msteps_range(p, lo, hi).count(norm_pt_pair(p[k1], p[k1 + 1])) >= 2,
{
    reveal(crate::paths::msteps_range);
    broadcast use vstd::multiset::group_multiset_axioms;
    lemma_msteps_split(p, lo, k1 + 1, hi);
    lemma_step_present(p, lo, k1 + 1, k1);
    lemma_step_present(p, k1 + 1, hi, k2);
}

/// If a point's used degree differs from its degree, some unused edge
/// meets it.
proof fn lemma_unused_witness(es: Seq<Edge>, us: Seq<bool>, v: Point)
    requires
        es.len() == us.len(),
        used_degree(es, us, v) != pt_degree(es, v),
    ensures
        exists|t: int| 0 <= t < es.len() && !us[t] && edge_inc(#[trigger] es[t], v) > 0,
    decreases es.len(),
{
    reveal(crate::paths::used_degree);
    reveal(crate::paths::pt_degree);
    reveal(crate::paths::used_degree);
    reveal(crate::paths::pt_degree);
    if es.len() > 0 {
        let n = es.len() as int;
        if !us[n - 1] && edge_inc(es[n - 1], v) > 0 {
        } else {
            lemma_unused_witness(es.drop_last(), us.drop_last(), v);
            let t = choose|t: int|
                0 <= t < es.drop_last().len() && !us.drop_last()[t] && edge_inc(
                    #[trigger] es.drop_last()[t],
                    v,
                ) > 0;
            assert(es[t] == es.drop_last()[t] && us[t] == us.drop_last()[t]);
        }
    }
}

/// Reversing a point list leaves its step multiset unchanged.
proof fn lemma_loop_steps_reverse(p: Seq<Point>)
    ensures
        loop_steps(p.reverse()) == loop_steps(p),
{
    reveal(crate::paths::msteps_range);
    reveal(crate::paths::msteps_range);
    broadcast use vstd::multiset::group_multiset_axioms;
    let n = p.len() as int;
    let q = p.reverse();
    if n == 0 {
        assert(q.len() == 0);
    } else {
        assert forall|j: int|
            0 <= j < n - 1 implies #[trigger] norm_pt_pair(q[j], q[j + 1]) == norm_pt_pair(
            p[n - 1 - 1 - j],
            p[n - 1 - j],
        ) by {
            assert(q[j] == p[n - 1 - j] && q[j + 1] == p[n - 2 - j]);
            lemma_norm_pair_sym(p[n - 1 - j], p[n - 2 - j]);
        }
        lemma_msteps_rev(p, q, 0, n - 1, 0, n - 1);
    }
}

/// Paths with pointwise equal step multisets have equal total steps.
proof fn lemma_paths_steps_congruent(ps: Seq<Seq<Point>>, qs: Seq<Seq<Point>>)
    requires
        ps.len() == qs.len(),
        forall|i: int| 0 <= i < ps.len() ==> loop_steps(#[trigger] qs[i]) == loop_steps(ps[i]),
    ensures
        paths_steps(qs) == paths_steps(ps),
    decreases ps.len(),
{
    reveal(crate::paths::paths_steps);
    broadcast use vstd::multiset::group_multiset_axioms;
    if ps.len() > 0 {
        lemma_paths_steps_congruent(ps.drop_last(), qs.drop_last());
        assert forall|i: int|
            0 <= i < ps.len() - 1 implies loop_steps(#[trigger] qs.drop_last()[i]) == loop_steps(
            ps.drop_last()[i],
        ) by {
            assert(qs.drop_last()[i] == qs[i] && ps.drop_last()[i] == ps[i]);
        }
        assert(loop_steps(qs.last()) == loop_steps(ps.last()));
    }
}

/// The closed sub-loop that a revisit splits off a walk: the points
/// `hit .. i` in reverse order, closed back to the revisited point.
pub open spec fn sub_loop_of(w: Seq<Point>, hit: int, i: int) -> Seq<Point> {
    Seq::new((i - hit) as nat, |k: int| w[i - 1 - k]).push(w[i - 1])
}

/// A walk with the span `hit .. i` removed; the revisited point survives
/// at position `hit`.
pub open spec fn trimmed_of(w: Seq<Point>, hit: int, i: int) -> Seq<Point> {
    w.subrange(0, hit) + w.subrange(i, w.len() as int)
}

/// Appending one well-formed loop preserves `stitched_paths`.
proof fn lemma_stitched_push(edges: Seq<Edge>, ps: Seq<Vec<Point>>, v: Vec<Point>)
    requires
        stitched_paths(edges, path_views(ps)),
        closed_path(v@),
        forall|k: int| 0 <= k < v@.len() ==> pt_of_edges(#[trigger] v@[k], edges),
        forall|k: int| 0 <= k < v@.len() - 2 ==> joins(edges, #[trigger] v@[k], v@[k + 1]),
        forall|k1: int, k2: int|
            0 <= k1 < k2 < v@.len() - 1 ==> #[trigger] v@[k1] != #[trigger] v@[k2],
    ensures
        stitched_paths(edges, path_views(ps.push(v))),
{
    let old_views = path_views(ps);
    let new_views = path_views(ps.push(v));
    assert(new_views.len() == ps.len() + 1);
    assert forall|pi: int| 0 <= pi < new_views.len() implies closed_path(
        #[trigger] new_views[pi],
    ) by {
        if pi < ps.len() {
            assert(new_views[pi] == old_views[pi]);
        } else {
            assert(new_views[pi] == v@);
        }
    }
    assert forall|pi: int, k: int|
        0 <= pi < new_views.len() && 0 <= k < new_views[pi].len() implies pt_of_edges(
        #[trigger] new_views[pi][k],
        edges,
    ) by {
        if pi < ps.len() {
            assert(new_views[pi] == old_views[pi]);
        } else {
            assert(new_views[pi] == v@);
        }
    }
    assert forall|pi: int, k: int|
        0 <= pi < new_views.len() && 0 <= k < new_views[pi].len() - 2 implies joins(
        edges,
        #[trigger] new_views[pi][k],
        new_views[pi][k + 1],
    ) by {
        if pi < ps.len() {
            assert(new_views[pi] == old_views[pi]);
        } else {
            assert(new_views[pi] == v@);
        }
    }
    assert forall|pi: int, k1: int, k2: int|
        0 <= pi < new_views.len() && 0 <= k1 < k2 < new_views[pi].len() - 1
        implies #[trigger] new_views[pi][k1] != #[trigger] new_views[pi][k2] by {
        if pi < ps.len() {
            assert(new_views[pi] == old_views[pi]);
        } else {
            assert(new_views[pi] == v@);
        }
    }
}

/// Appending a path appends its steps.
proof fn lemma_paths_steps_push(vs: Seq<Seq<Point>>, v: Seq<Point>)
    ensures
        paths_steps(vs.push(v)) == paths_steps(vs).add(loop_steps(v)),
{
    reveal(crate::paths::paths_steps);
    assert(vs.push(v).drop_last() =~= vs);
    assert(vs.push(v).last() == v);
}

/// Splitting a walk at a revisited point partitions its steps, whatever
/// point closes the outer walk.
#[verifier::rlimit(100)]
proof fn lemma_split_partition(w: Seq<Point>, hit: int, i: int, q: Point)
    requires
        0 <= hit < i < w.len(),
        w[hit] == w[i],
        i - hit >= 2,
    ensures
        loop_steps(w.push(q)) == loop_steps(sub_loop_of(w, hit, i)).add(
            loop_steps(trimmed_of(w, hit, i).push(q)),
        ),
{
    reveal(crate::paths::msteps_range);
    broadcast use vstd::multiset::group_multiset_axioms;

    let big = w.push(q);
    let len = w.len() as int;
    let sub = sub_loop_of(w, hit, i);
    let tp = trimmed_of(w, hit, i).push(q);
    let tl = len - (i - hit);
    assert(big.len() == len + 1 && sub.len() == i - hit + 1 && tp.len() == tl + 1);
    // the whole walk's steps, split at the sub-loop's span
    assert(loop_steps(big) == msteps_range(big, 0, len));
    lemma_msteps_split(big, 0, hit, len);
    lemma_msteps_split(big, hit, i, len);
    // the sub-loop walks the span hit .. i, reversed and closed
    assert(loop_steps(sub) == msteps_range(sub, 0, i - hit));
    assert(msteps_range(sub, 0, i - hit) == msteps_range(sub, 0, i - hit - 1).insert(
        norm_pt_pair(sub[i - hit - 1], sub[i - hit]),
    ));
    assert(sub[i - hit - 1] == w[hit] && sub[i - hit] == w[i - 1]);
    lemma_norm_pair_sym(w[hit], w[i - 1]);
    assert(big[i] == w[i] && w[i] == w[hit]);
    assert(norm_pt_pair(sub[i - hit - 1], sub[i - hit]) == norm_pt_pair(big[i - 1], big[i]));
    assert forall|j: int|
        0 <= j < i - hit - 1 implies #[trigger] norm_pt_pair(sub[j], sub[j + 1]) == norm_pt_pair(
        big[i - 1 - 1 - (j - 0)],
        big[i - 1 - (j - 0)],
    ) by {
        assert(sub[j] == w[i - 1 - j] && sub[j + 1] == w[i - 2 - j]);
        assert(big[i - 1 - j] == w[i - 1 - j] && big[i - 2 - j] == w[i - 2 - j]);
        lemma_norm_pair_sym(w[i - 1 - j], w[i - 2 - j]);
    }
    lemma_msteps_rev(big, sub, hit, i - 1, 0, i - hit - 1);
    lemma_msteps_split(big, hit, i - 1, i);
    assert(msteps_range(big, i - 1, i) == Multiset::<Edge>::empty().insert(
        norm_pt_pair(big[i - 1], big[i]),
    )) by {
        assert(msteps_range(big, i - 1, i - 1) == Multiset::<Edge>::empty());
    }
    assert(loop_steps(sub) =~= msteps_range(big, hit, i));
    // the trimmed walk, closed by q, walks the rest
    assert(loop_steps(tp) == msteps_range(tp, 0, tl));
    lemma_msteps_split(tp, 0, hit, tl);
    assert forall|k: int|
        0 <= k < hit implies #[trigger] norm_pt_pair(tp[k], tp[k + 1]) == norm_pt_pair(
        big[k + 0],
        big[k + 0 + 1],
    ) by {
        assert(tp[k] == w[k]);
        if k + 1 < hit {
            assert(tp[k + 1] == w[k + 1]);
        } else {
            assert(tp[k + 1] == w[i] && w[i] == w[hit]);
        }
    }
    lemma_msteps_shift(tp, big, 0, hit, 0);
    assert forall|k: int|
        hit <= k < tl implies #[trigger] norm_pt_pair(tp[k], tp[k + 1]) == norm_pt_pair(
        big[k + (i - hit)],
        big[k + (i - hit) + 1],
    ) by {
        assert(tp[k] == w[k + i - hit]);
        if k + 1 < tl {
            assert(tp[k + 1] == w[k + 1 + i - hit]);
        } else {
            assert(tp[k + 1] == q && big[len] == q);
        }
    }
    lemma_msteps_shift(tp, big, hit, tl, i - hit);
    assert(loop_steps(tp) =~= msteps_range(big, 0, hit).add(msteps_range(big, i, len)));
    assert(loop_steps(sub).add(loop_steps(tp)) =~= loop_steps(big));
}

/// Every step of a walk accounted against the used edges is one of them.
proof fn lemma_step_is_edge(
    es: Seq<Edge>,
    us: Seq<bool>,
    rest: Multiset<Edge>,
    p: Seq<Point>,
    k: int,
)
    requires
        es.len() == us.len(),
        rest.add(loop_steps(p)) == used_mset(es, us),
        0 <= k < p.len() - 1,
    ensures
        exists|t: int| 0 <= t < es.len() && #[trigger] es[t] == norm_pt_pair(p[k], p[k + 1]),
{
    reveal(crate::paths::msteps_range);
    broadcast use vstd::multiset::group_multiset_axioms;

    let e = norm_pt_pair(p[k], p[k + 1]);
    lemma_step_present(p, 0, p.len() - 1, k);
    assert(used_mset(es, us).count(e) >= 1);
    lemma_used_count(es, us, e);
    lemma_mset_member(es, e);
}

/// Two equal steps accounted against the used edges force the edge list
/// to hold their segment twice.
proof fn lemma_steps_twice_counted(
    es: Seq<Edge>,
    us: Seq<bool>,
    rest: Multiset<Edge>,
    p: Seq<Point>,
    k1: int,
    k2: int,
)
    requires
        es.len() == us.len(),
        rest.add(loop_steps(p)) == used_mset(es, us),
        0 <= k1 < k2 < p.len() - 1,
        norm_pt_pair(p[k1], p[k1 + 1]) == norm_pt_pair(p[k2], p[k2 + 1]),
    ensures
        edge_mset(es).count(norm_pt_pair(p[k1], p[k1 + 1])) >= 2,
{
    reveal(crate::paths::msteps_range);
    broadcast use vstd::multiset::group_multiset_axioms;

    let e = norm_pt_pair(p[k1], p[k1 + 1]);
    lemma_step_twice(p, 0, p.len() - 1, k1, k2);
    assert(used_mset(es, us).count(e) >= 2);
    lemma_used_count(es, us, e);
}

/// How many edges the walk has not used yet.
spec fn count_unused(s: Seq<bool>) -> nat
    decreases s.len(),
{
    if s.len() == 0 {
        0
    } else {
        count_unused(s.drop_last()) + if s.last() {
            0nat
        } else {
            1nat
        }
    }
}

/// Marking one unused edge used lowers the count by one.
proof fn lemma_mark_used(s: Seq<bool>, i: int)
    requires
        0 <= i < s.len(),
        !s[i],
    ensures
        count_unused(s.update(i, true)) + 1 == count_unused(s),
    decreases s.len(),
{
    let t = s.update(i, true);
    if i == s.len() - 1 {
        assert(t.drop_last() =~= s.drop_last());
    } else {
        assert(t.drop_last() =~= s.drop_last().update(i, true));
        lemma_mark_used(s.drop_last(), i);
        assert(t.last() == s.last());
    }
}

/// The pair an edge joins is unordered.
proof fn lemma_joins_sym(s: Seq<Edge>, p: Point, q: Point)
    requires
        joins(s, p, q),
    ensures
        joins(s, q, p),
{
    let t = choose|t: int|
        0 <= t < s.len() && (((#[trigger] s[t]).a == p && s[t].b == q) || (s[t].a == q && s[t].b
            == p));
    assert(0 <= t < s.len() && ((s[t].a == q && s[t].b == p) || (s[t].a == p && s[t].b == q)));
}

/// The facts of the sub-loop a split emits, derived from the walk.
#[verifier::rlimit(100)]
proof fn lemma_sub_loop_facts(edges: Seq<Edge>, w: Seq<Point>, hit: int, i: int)
    requires
        0 <= hit < i < w.len(),
        i - hit >= 2,
        w[hit] == w[i],
        forall|k: int| 0 <= k < w.len() ==> pt_of_edges(#[trigger] w[k], edges),
        forall|k: int| 0 <= k < w.len() - 1 ==> joins(edges, #[trigger] w[k], w[k + 1]),
        forall|k1: int, k2: int| 0 <= k1 < k2 < i ==> #[trigger] w[k1] != #[trigger] w[k2],
    ensures
        closed_path(sub_loop_of(w, hit, i)),
        forall|k: int|
            0 <= k < sub_loop_of(w, hit, i).len() ==> pt_of_edges(
                #[trigger] sub_loop_of(w, hit, i)[k],
                edges,
            ),
        forall|k: int|
            0 <= k < sub_loop_of(w, hit, i).len() - 2 ==> joins(
                edges,
                #[trigger] sub_loop_of(w, hit, i)[k],
                sub_loop_of(w, hit, i)[k + 1],
            ),
        forall|k1: int, k2: int|
            0 <= k1 < k2 < sub_loop_of(w, hit, i).len() - 1 ==> #[trigger] sub_loop_of(
                w,
                hit,
                i,
            )[k1] != #[trigger] sub_loop_of(w, hit, i)[k2],
{
    let sub = sub_loop_of(w, hit, i);
    assert(sub[0] == w[i - 1]);
    assert(sub[sub.len() - 1] == w[i - 1]);
    assert(closed_path(sub));
    assert forall|k: int| 0 <= k < sub.len() implies pt_of_edges(#[trigger] sub[k], edges) by {
        if k < sub.len() - 1 {
            assert(sub[k] == w[i - 1 - k]);
        }
    }
    assert forall|k1: int, k2: int|
        0 <= k1 < k2 < sub.len() - 1 implies #[trigger] sub[k1] != #[trigger] sub[k2] by {
        assert(sub[k1] == w[i - 1 - k1]);
        assert(sub[k2] == w[i - 1 - k2]);
    }
    assert forall|k: int| 0 <= k < sub.len() - 1 implies joins(
        edges,
        #[trigger] sub[k],
        sub[k + 1],
    ) by {
        if k < sub.len() - 2 {
            // a step of the walk, reversed
            assert(sub[k] == w[i - 1 - k]);
            assert(sub[k + 1] == w[i - 2 - k]);
            assert(joins(edges, w[i - 2 - k], w[i - 1 - k]));
            lemma_joins_sym(edges, w[i - 2 - k], w[i - 1 - k]);
        } else {
            // the loop-closing step back to the revisited point
            assert(sub[k] == w[hit]);
            assert(sub[k + 1] == w[i - 1]);
            assert(joins(edges, w[i - 1], w[i]));
            assert(w[i] == w[hit]);
            lemma_joins_sym(edges, w[i - 1], w[i]);
        }
    }
}

/// The facts of the walk a split leaves behind.
#[verifier::rlimit(100)]
proof fn lemma_trimmed_facts(edges: Seq<Edge>, w: Seq<Point>, hit: int, i: int)
    requires
        0 <= hit < i < w.len(),
        w[hit] == w[i],
        forall|k: int| 0 <= k < w.len() ==> pt_of_edges(#[trigger] w[k], edges),
        forall|k: int| 0 <= k < w.len() - 1 ==> joins(edges, #[trigger] w[k], w[k + 1]),
        forall|k1: int, k2: int| 0 <= k1 < k2 < i ==> #[trigger] w[k1] != #[trigger] w[k2],
    ensures
        trimmed_of(w, hit, i).len() == w.len() - (i - hit),
        trimmed_of(w, hit, i)[0] == w[0],
        forall|k: int|
            0 <= k < trimmed_of(w, hit, i).len() ==> pt_of_edges(
                #[trigger] trimmed_of(w, hit, i)[k],
                edges,
            ),
        forall|k: int|
            0 <= k < trimmed_of(w, hit, i).len() - 1 ==> joins(
                edges,
                #[trigger] trimmed_of(w, hit, i)[k],
                trimmed_of(w, hit, i)[k + 1],
            ),
        forall|k1: int, k2: int|
            0 <= k1 < k2 < hit + 1 ==> #[trigger] trimmed_of(w, hit, i)[k1]
                != #[trigger] trimmed_of(w, hit, i)[k2],
{
    let tr = trimmed_of(w, hit, i);
    assert(tr.len() == w.len() - (i - hit));
    assert(tr[0] == if hit == 0 {
        w[i]
    } else {
        w[0]
    });
    assert(w[i] == w[hit]);
    assert forall|k: int| 0 <= k < tr.len() implies pt_of_edges(#[trigger] tr[k], edges) by {
        if k < hit {
            assert(tr[k] == w[k]);
        } else {
            assert(tr[k] == w[k + i - hit]);
        }
    }
    assert forall|k1: int, k2: int|
        0 <= k1 < k2 < hit + 1 implies #[trigger] tr[k1] != #[trigger] tr[k2] by {
        assert(tr[k1] == w[k1]);
        if k2 < hit {
            assert(tr[k2] == w[k2]);
        } else {
            assert(tr[k2] == w[i]);
            assert(w[i] == w[hit]);
        }
    }
    assert forall|k: int| 0 <= k < tr.len() - 1 implies joins(
        edges,
        #[trigger] tr[k],
        tr[k + 1],
    ) by {
        if k + 1 < hit {
            assert(tr[k] == w[k] && tr[k + 1] == w[k + 1]);
        } else if k + 1 == hit {
            // the joint: the revisited point keeps the value of walk[hit]
            assert(tr[k] == w[k]);
            assert(tr[hit] == w[i]);
            assert(joins(edges, w[k], w[k + 1]));
        } else {
            assert(tr[k] == w[k + i - hit]);
            assert(tr[k + 1] == w[k + 1 + i - hit]);
            assert(joins(edges, w[k + i - hit], w[k + i - hit + 1]));
        }
    }
}

/// Split one revisited point off a walk: emit the enclosed sub-loop
/// (reversed and closed) unless it is degenerate, and remove its span
/// from the walk, keeping the revisited point.
#[verifier::rlimit(100)]
fn split_walk(
    edges: &Vec<Edge>,
    paths: &mut Vec<Vec<Point>>,
    walk: &mut Vec<Point>,
    hit: usize,
    i: usize,
)
    requires
        hit < i < old(walk)@.len(),
        old(walk)@[hit as int] == old(walk)@[i as int],
        forall|k: int|
            0 <= k < old(walk)@.len() ==> pt_of_edges(#[trigger] old(walk)@[k], edges@),
        forall|k: int|
            0 <= k < old(walk)@.len() - 1 ==> joins(
                edges@,
                #[trigger] old(walk)@[k],
                old(walk)@[k + 1],
            ),
        forall|k1: int, k2: int|
            0 <= k1 < k2 < i ==> #[trigger] old(walk)@[k1] != #[trigger] old(walk)@[k2],
        stitched_paths(edges@, path_views(old(paths)@)),
    ensures
        stitched_paths(edges@, path_views(final(paths)@)),
        final(walk)@ == trimmed_of(old(walk)@, hit as int, i as int),
        final(walk)@.len() == old(walk)@.len() - (i - hit),
        final(walk)@[0] == old(walk)@[0],
        forall|k: int|
            0 <= k < final(walk)@.len() ==> pt_of_edges(#[trigger] final(walk)@[k], edges@),
        forall|k: int|
            0 <= k < final(walk)@.len() - 1 ==> joins(
                edges@,
                #[trigger] final(walk)@[k],
                final(walk)@[k + 1],
            ),
        forall|k1: int, k2: int|
            0 <= k1 < k2 < hit + 1 ==> #[trigger] final(walk)@[k1] != #[trigger] final(walk)@[k2],
        i - hit >= 2 ==> final(paths)@ == old(paths)@.push(
            final(paths)@[final(paths)@.len() - 1],
        ) && path_views(final(paths)@) == path_views(old(paths)@).push(
            sub_loop_of(old(walk)@, hit as int, i as int),
        ),
        i - hit < 2 ==> final(paths)@ == old(paths)@,
{
    proof {
        assert(walk@[hit as int] == walk@[i as int]);
    }
    // the points walk[hit..i] form a loop back to walk[i] == walk[hit];
    // emit it reversed and closed, unless degenerate
    if i - hit >= 2 {
        let mut sub: Vec<Point> = Vec::new();
        let mut t2: usize = 0;
        while t2 < i - hit
            invariant
                hit < i < walk@.len(),
                walk@ == old(walk)@,
                t2 <= i - hit,
                sub@.len() == t2,
                forall|k: int| 0 <= k < t2 ==> sub@[k] == walk@[i as int - 1 - k],
            decreases i - hit - t2,
        {
            sub.push(walk[i - 1 - t2]);
            t2 = t2 + 1;
        }
        sub.push(walk[i - 1]);
        proof {
            assert(sub@ =~= sub_loop_of(walk@, hit as int, i as int));
            lemma_sub_loop_facts(edges@, walk@, hit as int, i as int);
            lemma_stitched_push(edges@, paths@, sub);
        }
        paths.push(sub);
    }
    // remove walk[hit..i]; the revisited point stays at hit
    let mut trimmed: Vec<Point> = Vec::new();
    let mut t3: usize = 0;
    while t3 < hit
        invariant
            hit < i < walk@.len(),
            walk@ == old(walk)@,
            t3 <= hit,
            trimmed@.len() == t3,
            forall|k: int| 0 <= k < t3 ==> trimmed@[k] == walk@[k],
        decreases hit - t3,
    {
        trimmed.push(walk[t3]);
        t3 = t3 + 1;
    }
    let mut t4: usize = i;
    while t4 < walk.len()
        invariant
            hit < i < walk@.len(),
            walk@ == old(walk)@,
            i <= t4 <= walk@.len(),
            trimmed@.len() == hit + (t4 - i),
            forall|k: int| 0 <= k < hit ==> trimmed@[k] == walk@[k],
            forall|k: int|
                hit <= k < trimmed@.len() ==> trimmed@[k] == walk@[k + i as int - hit as int],
        decreases walk@.len() - t4,
    {
        trimmed.push(walk[t4]);
        t4 = t4 + 1;
    }
    proof {
        assert(trimmed@ =~= trimmed_of(walk@, hit as int, i as int));
        lemma_trimmed_facts(edges@, walk@, hit as int, i as int);
    }
    *walk = trimmed;
}

/// Endpoint and step facts of the deduplicated working list, from its
/// link back to the input.
proof fn lemma_elist_facts(edges: Seq<Edge>, elist: Seq<Edge>)
    requires
        forall|k: int|
            0 <= k < elist.len() ==> exists|u: int|
                0 <= u < edges.len() && same_link(#[trigger] elist[k], edges[u]),
    ensures
        forall|k: int|
            0 <= k < elist.len() ==> joins(edges, (#[trigger] elist[k]).a, elist[k].b)
                && pt_of_edges(elist[k].a, edges) && pt_of_edges(elist[k].b, edges),
{
    assert forall|k: int| 0 <= k < elist.len() implies joins(
        edges,
        (#[trigger] elist[k]).a,
        elist[k].b,
    ) && pt_of_edges(elist[k].a, edges) && pt_of_edges(elist[k].b, edges) by {
        let u = choose|u: int| 0 <= u < edges.len() && same_link(elist[k], edges[u]);
        assert((edges[u].a == elist[k].a && edges[u].b == elist[k].b) || (edges[u].a == elist[k].b
            && edges[u].b == elist[k].a));
    }
}

/// Normalize and deduplicate the input edges, keeping first-occurrence
/// order; an input that is already a boundary set comes back unchanged.
fn dedup_edges(edges: &Vec<Edge>) -> (elist: Vec<Edge>)
    ensures
        forall|k: int|
            0 <= k < elist@.len() ==> joins(edges@, (#[trigger] elist@[k]).a, elist@[k].b)
                && pt_of_edges(elist@[k].a, edges@) && pt_of_edges(elist@[k].b, edges@),
        edges@.len() == 0 ==> elist@.len() == 0,
        boundary_set(edges@) ==> elist@ == edges@,
{
    let mut elist: Vec<Edge> = Vec::new();
    let mut t: usize = 0;
    while t < edges.len()
        invariant
            t <= edges@.len(),
            forall|k: int|
                0 <= k < elist@.len() ==> exists|u: int|
                    0 <= u < edges@.len() && same_link(#[trigger] elist@[k], edges@[u]),
            edges@.len() == 0 ==> elist@.len() == 0,
            boundary_set(edges@) ==> elist@ == edges@.subrange(0, t as int),
        decreases edges@.len() - t,
    {
        let e = edges[t];
        let ne = if e.b.x < e.a.x || (e.b.x == e.a.x && e.b.y < e.a.y) {
            Edge { a: e.b, b: e.a }
        } else {
            e
        };
        proof {
            assert(same_link(ne, edges@[t as int]));
        }
        let ghost elist0 = elist@;
        push_unique(&mut elist, ne);
        proof {
            // on an already normalized, duplicate-free input the working
            // list is the input itself
            if boundary_set(edges@) {
                assert(pt_lt(edges@[t as int].a, edges@[t as int].b));
                assert(ne == e);
                if edge_listed(elist0, ne) {
                    let k = choose|k: int| 0 <= k < elist0.len() && elist0[k] == ne;
                    assert(edges@[k] == edges@[t as int]);
                }
                assert(elist@ =~= edges@.subrange(0, t + 1));
            }
        }
        t = t + 1;
    }
    proof {
        // an edge of the working list joins exactly the pair of points
        // that some input edge joins, and its endpoints are endpoints of
        // that input edge
        lemma_elist_facts(edges@, elist@);
        if boundary_set(edges@) {
            assert(elist@ =~= edges@);
        }
    }
    elist
}

/// Reassemble a set of boundary edges into closed point loops.
///
/// Walks are seeded and extended in first-occurrence order of the
/// (normalized, deduplicated) input edges, so the output is reproducible.
/// A walk that revisits one of its own points is split there: the
/// enclosed sub-loop is emitted as a path of its own, reversed to keep
/// its rotational sense consistent, and the outer walk continues on the
/// truncated point list.  A walk that cannot continue and is not back at
/// its seed is closed by appending its first point.  Walks of two or
/// fewer points are discarded.
#[verifier::rlimit(100)]
pub fn stitch_paths(edges: &Vec<Edge>) -> (paths: Vec<Vec<Point>>)
    ensures
        stitched_paths(edges@, path_views(paths@)),
        edges@.len() == 0 ==> paths@.len() == 0,
        boundary_set(edges@) ==> paths_steps(path_views(paths@)) == edge_mset(edges@),
        boundary_set(edges@) && edges@.len() > 0 ==> paths@.len() > 0,
{
    let elist = dedup_edges(edges);
    let m = elist.len();
    let mut used: Vec<bool> = Vec::new();
    let mut u: usize = 0;
    while u < m
        invariant
            u <= m,
            used@.len() == u,
            forall|k: int| 0 <= k < u ==> !(#[trigger] used@[k]),
        decreases m - u,
    {
        used.push(false);
        u = u + 1;
    }
    let mut paths: Vec<Vec<Point>> = Vec::new();
    proof {
        if boundary_set(edges@) {
            reveal(crate::paths::paths_steps);
            lemma_used_none(elist@, used@, elist@[0].a);
            assert forall|v: Point| #[trigger] used_degree(elist@, used@, v) % 2 == 0 by {
                lemma_used_none(elist@, used@, v);
            }
            assert(path_views(paths@).len() == 0);
        }
    }
    let mut s: usize = 0;
    #[verifier::rlimit(100)]
    while s < m
        invariant
            m == elist@.len(),
            used@.len() == m,
            forall|k: int|
                0 <= k < m ==> pt_of_edges((#[trigger] elist@[k]).a, edges@) && pt_of_edges(
                    elist@[k].b,
                    edges@,
                ),
            forall|k: int| 0 <= k < m ==> joins(edges@, (#[trigger] elist@[k]).a, elist@[k].b),
            s <= m,
            stitched_paths(edges@, path_views(paths@)),
            m == 0 ==> paths@.len() == 0,
            forall|t2: int| 0 <= t2 < s ==> used@[t2],
            boundary_set(edges@) ==> elist@ == edges@,
            boundary_set(edges@) ==> paths_steps(path_views(paths@)) == used_mset(elist@, used@),
            boundary_set(edges@) ==> forall|v: Point|
                #[trigger] used_degree(elist@, used@, v) % 2 == 0,
        decreases m - s,
    {
        if !used[s] {
            let ghost used_seed = used@;
            used[s] = true;
            let start = elist[s].a;
            let mut curr = elist[s].b;
            let mut walk: Vec<Point> = Vec::new();
            walk.push(start);
            let mut stuck = false;
            proof {
                if boundary_set(edges@) {
                    lemma_seed_step(elist@, used_seed, used@, path_views(paths@), s as int);
                    assert(walk@.push(curr) =~= seq![elist@[s as int].a, elist@[s as int].b]);
                }
            }
            #[verifier::rlimit(100)]
            while !stuck && (curr.x != start.x || curr.y != start.y)
                invariant
                    m == elist@.len(),
                    used@.len() == m,
                    forall|k: int|
                        0 <= k < m ==> pt_of_edges((#[trigger] elist@[k]).a, edges@) && pt_of_edges(
                            elist@[k].b,
                            edges@,
                        ),
                    walk@.len() >= 1,
                    walk@[0] == start,
                    forall|k: int| 0 <= k < walk@.len() ==> pt_of_edges(#[trigger] walk@[k], edges@),
                    pt_of_edges(curr, edges@),
                    pt_of_edges(start, edges@),
                    forall|k: int| 0 <= k < m ==> joins(edges@, (#[trigger] elist@[k]).a, elist@[k].b),
                    forall|k: int|
                        0 <= k < walk@.len() - 1 ==> joins(edges@, #[trigger] walk@[k], walk@[k + 1]),
                    !stuck ==> joins(edges@, walk@[walk@.len() - 1], curr),
                    forall|t2: int| 0 <= t2 < s ==> used@[t2],
                    used@[s as int],
                    s < m,
                    boundary_set(edges@) ==> elist@ == edges@,
                    boundary_set(edges@) ==> paths_steps(path_views(paths@)).add(
                        loop_steps(walk@.push(curr)),
                    ) == used_mset(elist@, used@),
                    boundary_set(edges@) ==> forall|v: Point|
                        #[trigger] used_degree(elist@, used@, v) % 2 == (
                        if (v == start) != (v == curr) {
                            1int
                        } else {
                            0int
                        }),
                    stuck ==> !boundary_set(edges@),
                decreases count_unused(used@) + if stuck {
                    0int
                } else {
                    1int
                },
            {
                let ghost used0 = used@;
                let ghost curr0 = curr;
                walk.push(curr);
                // first unused edge incident to the current point, in
                // first-occurrence order
                let mut next_idx: usize = m;
                let mut scan: usize = 0;
                while scan < m
                    invariant
                        m == elist@.len(),
                        used@.len() == m,
                        scan <= m,
                        next_idx == m || (next_idx < m && !used@[next_idx as int] && (elist@[
                            next_idx as int].a == curr || elist@[next_idx as int].b == curr)),
                        next_idx == m ==> forall|t2: int|
                            0 <= t2 < scan ==> used@[t2] || ((#[trigger] elist@[t2]).a != curr
                                && elist@[t2].b != curr),
                    decreases m - scan,
                {
                    if next_idx == m && !used[scan] {
                        let cand = elist[scan];
                        if (cand.a.x == curr.x && cand.a.y == curr.y) || (cand.b.x == curr.x
                            && cand.b.y == curr.y) {
                            next_idx = scan;
                        }
                    }
                    scan = scan + 1;
                }
                if next_idx < m {
                    proof {
                        lemma_mark_used(used@, next_idx as int);
                    }
                    used[next_idx] = true;
                    let follow = elist[next_idx];
                    curr = if follow.a.x == curr.x && follow.a.y == curr.y {
                        follow.b
                    } else {
                        follow.a
                    };
                    proof {
                        assert(joins(edges@, follow.a, follow.b));
                        if !(follow.a.x == curr.x && follow.a.y == curr.y) && follow.b
                            == walk@[walk@.len() - 1] {
                        }
                        if follow.b == curr {
                            lemma_joins_sym(edges@, follow.a, follow.b);
                        }
                        assert(joins(edges@, walk@[walk@.len() - 1], curr));
                        if boundary_set(edges@) {
                                    assert((follow.a == curr0 && follow.b == curr) || (follow.a == curr
                                && follow.b == curr0));
                            assert(walk@.last() == curr0);
                            lemma_consume_step(
                                elist@,
                                used0,
                                used@,
                                path_views(paths@),
                                walk@,
                                start,
                                curr0,
                                curr,
                                next_idx as int,
                            );
                        }
                    }
                } else {
                    proof {
                        if boundary_set(edges@) {
                                    // with every point of even degree, a walk away
                            // from its seed always finds an unused edge
                            assert(curr != start);
                            lemma_blocked_point(elist@, used@, curr);
                            assert(pt_degree(edges@, curr) % 2 == 0);
                            assert(false);
                        }
                    }
                    stuck = true;
                }
            }
            // Split off any sub-loop created by a revisited point.
            let mut i: usize = 1;
            #[verifier::rlimit(100)]
            while i < walk.len()
                invariant
                    walk@.len() >= 1,
                    walk@[0] == start,
                    1 <= i,
                    forall|k: int| 0 <= k < walk@.len() ==> pt_of_edges(#[trigger] walk@[k], edges@),
                    forall|k: int|
                        0 <= k < walk@.len() - 1 ==> joins(edges@, #[trigger] walk@[k], walk@[k + 1]),
                    forall|k1: int, k2: int|
                        0 <= k1 < k2 < i && k2 < walk@.len() ==> #[trigger] walk@[k1]
                            != #[trigger] walk@[k2],
                    pt_of_edges(start, edges@),
                    stitched_paths(edges@, path_views(paths@)),
                    m == elist@.len(),
                    used@.len() == m,
                    forall|t2: int| 0 <= t2 < s ==> used@[t2],
                    used@[s as int],
                    s < m,
                    boundary_set(edges@) ==> elist@ == edges@,
                    boundary_set(edges@) ==> paths_steps(path_views(paths@)).add(
                        loop_steps(walk@.push(walk@[0])),
                    ) == used_mset(elist@, used@),
                    boundary_set(edges@) ==> forall|v: Point|
                        #[trigger] used_degree(elist@, used@, v) % 2 == 0,
                decreases 2 * walk@.len() - i,
            {
                // earliest earlier occurrence of walk[i], if any
                let mut hit: usize = i;
                let mut j: usize = 0;
                while j < i
                    invariant
                        i < walk@.len(),
                        j <= i,
                        hit == i || (hit < i && walk@[hit as int] == walk@[i as int]),
                        hit == i ==> forall|t: int| 0 <= t < j ==> walk@[t] != walk@[i as int],
                    decreases i - j,
                {
                    if hit == i {
                        if walk[j].x == walk[i].x && walk[j].y == walk[i].y {
                            hit = j;
                        }
                    }
                    j = j + 1;
                }
                if hit < i {
                    let ghost walk_pre = walk@;
                    let ghost views_pre = path_views(paths@);
                    split_walk(edges, &mut paths, &mut walk, hit, i);
                    proof {
                        if boundary_set(edges@) {
                            if i - hit >= 2 {
                                // the emitted sub-loop and the trimmed walk
                                // carry exactly the old walk's steps
                                let sub = sub_loop_of(walk_pre, hit as int, i as int);
                                lemma_split_partition(walk_pre, hit as int, i as int, walk_pre[0]);
                                lemma_paths_steps_push(views_pre, sub);
                                assert(walk@[0] == walk_pre[0]);
                                lemma_acc_regroup(
                                    paths_steps(views_pre),
                                    loop_steps(sub),
                                    loop_steps(walk@.push(walk@[0])),
                                    used_mset(elist@, used@),
                                );
                            } else {
                                // the walk would step from a point straight
                                // back onto itself, which no normalized
                                // edge allows
                                            assert(walk_pre[hit as int] == walk_pre[hit as int + 1]);
                                assert(joins(edges@, walk_pre[hit as int], walk_pre[hit as int + 1]));
                                let t2 = choose|t2: int|
                                    0 <= t2 < edges@.len() && (((#[trigger] edges@[t2]).a
                                        == walk_pre[hit as int] && edges@[t2].b == walk_pre[hit as int
                                        + 1]) || (edges@[t2].a == walk_pre[hit as int + 1]
                                        && edges@[t2].b == walk_pre[hit as int]));
                                assert(pt_lt(edges@[t2].a, edges@[t2].b));
                                assert(false);
                            }
                        }
                    }
                    i = hit + 1;
                } else {
                    i = i + 1;
                }
            }
            // Close and emit the outer walk, unless it is degenerate.
            let ghost walk_open = walk@;
            let ghost views_pre = path_views(paths@);
            if walk.len() > 2 {
                let last = walk[walk.len() - 1];
                if !(last.x == start.x && last.y == start.y) {
                    let first = walk[0];
                    walk.push(first);
                } else {
                    proof {
                        // the split pass left no repeated point, so the
                        // walk cannot already end on its first point
                        assert(walk@[0] == walk@[walk@.len() - 1]);
                        assert(false);
                    }
                }
                proof {
                    assert(closed_path(walk@));
                    // the split pass left no repeated point, so the loop is
                    // simple up to its closing point
                    assert forall|k1: int, k2: int|
                        0 <= k1 < k2 < walk@.len() - 1 implies #[trigger] walk@[k1]
                        != #[trigger] walk@[k2] by {
                        assert(walk@[k1] == walk_open[k1] && walk@[k2] == walk_open[k2]);
                    }
                }
                proof {
                    lemma_stitched_push(edges@, paths@, walk);
                    if boundary_set(edges@) {
                        assert(walk@ == walk_open.push(walk_open[0]));
                        lemma_paths_steps_push(views_pre, walk@);
                    }
                }
                paths.push(walk);
                proof {
                    if boundary_set(edges@) {
                        assert(path_views(paths@) =~= views_pre.push(walk@));
                        assert(paths_steps(path_views(paths@)) == paths_steps(views_pre).add(
                            loop_steps(walk@),
                        ));
                    }
                }
            } else {
                proof {
                    if boundary_set(edges@) {
                            // a closed walk of one or two points would repeat
                        // an edge, which the used marking forbids
                        let closed = walk_open.push(walk_open[0]);
                        if walk_open.len() == 1 {
                            lemma_step_is_edge(elist@, used@, views_steps_of(paths@), closed, 0);
                            let t2 = choose|t2: int|
                                0 <= t2 < elist@.len() && #[trigger] elist@[t2] == norm_pt_pair(
                                    closed[0],
                                    closed[1],
                                );
                            assert(closed[1] == closed[0]);
                            assert(pt_lt(elist@[t2].a, elist@[t2].b));
                            assert(false);
                        } else {
                            assert(walk_open.len() == 2);
                            assert(closed[2] == closed[0]);
                            lemma_norm_pair_sym(closed[1], closed[2]);
                            assert(norm_pt_pair(closed[0], closed[1]) == norm_pt_pair(
                                closed[1],
                                closed[2],
                            ));
                            lemma_steps_twice_counted(
                                elist@,
                                used@,
                                views_steps_of(paths@),
                                closed,
                                0,
                                1,
                            );
                            assert forall|t1: int, t2: int|
                                0 <= t1 < t2 < elist@.len() implies elist@[t1] != elist@[t2] by {
                                assert(elist@[t1] == edges@[t1] && elist@[t2] == edges@[t2]);
                            }
                            lemma_distinct_count(elist@, norm_pt_pair(closed[0], closed[1]));
                            assert(false);
                        }
                    }
                }
            }
        }
        s = s + 1;
    }
    proof {
        if boundary_set(edges@) {
            lemma_final_cover(edges@, elist@, used@, path_views(paths@));
            assert(path_views(paths@).len() == paths@.len());
        }
    }
    paths
}

/// Stitch a region's boundary edges into loops and resolve their winding.
///
/// Every returned path is a closed loop of more than two points over the
/// endpoints of the input edges; the set of loops is exactly the stitched
/// set with winding resolved.  No edges yield no paths.
pub fn edges_to_paths(edges: &Vec<Edge>) -> (paths: Vec<Vec<Point>>)
    requires
        edges_bounded(edges@),
    ensures
        forall|i: int| 0 <= i < paths@.len() ==> closed_path((#[trigger] paths@[i])@),
        forall|i: int, k: int|
            0 <= i < paths@.len() && 0 <= k < paths@[i]@.len() ==> pt_of_edges(
                #[trigger] paths@[i]@[k],
                edges@,
            ),
        forall|i: int, k1: int, k2: int|
            0 <= i < paths@.len() && 0 <= k1 < k2 < paths@[i]@.len() - 1 ==> #[trigger] paths@[i]@[k1]
                != #[trigger] paths@[i]@[k2],
        edges@.len() == 0 ==> paths@.len() == 0,
        exists|raw: Seq<Seq<Point>>|
            #[trigger] stitched_paths(edges@, raw) && path_views(paths@) == resolve_spec(raw),
{
    let mut ps = stitch_paths(edges);
    let ghost raw = path_views(ps@);
    proof {
        assert forall|i: int|
            0 <= i < ps@.len() implies (#[trigger] ps@[i])@.len() > 0 && coords_bounded(
            ps@[i]@,
        ) by {
            assert(closed_path(raw[i]));
            assert forall|k: int|
                0 <= k < ps@[i]@.len() implies (#[trigger] ps@[i]@[k]).x < 0x8000_0000
                && ps@[i]@[k].y < 0x8000_0000 by {
                assert(pt_of_edges(raw[i][k], edges@));
                let t = choose|t: int|
                    0 <= t < edges@.len() && ((#[trigger] edges@[t]).a == raw[i][k] || edges@[t].b
                        == raw[i][k]);
                assert(edges_bounded(edges@));
            }
        }
    }
    resolve_winding(&mut ps);
    proof {
        let out = path_views(ps@);
        assert(out == resolve_spec(raw));
        assert forall|i: int| 0 <= i < ps@.len() implies closed_path((#[trigger] ps@[i])@) by {
            assert(out[i] == resolve_spec(raw)[i]);
            let p = raw[i];
            assert(closed_path(p));
            if out[i] == p.reverse() {
                assert(p.reverse().len() == p.len());
                assert(p.reverse()[0] == p[p.len() - 1]);
                assert(p.reverse()[p.len() - 1] == p[0]);
            }
        }
        assert forall|i: int, k: int|
            0 <= i < ps@.len() && 0 <= k < ps@[i]@.len() implies pt_of_edges(
            #[trigger] ps@[i]@[k],
            edges@,
        ) by {
            assert(out[i] == resolve_spec(raw)[i]);
            let p = raw[i];
            if out[i] == p.reverse() {
                assert(out[i][k] == p[p.len() - 1 - k]);
                assert(pt_of_edges(p[p.len() - 1 - k], edges@));
            } else {
                assert(pt_of_edges(p[k], edges@));
            }
        }
        // a simple loop stays simple when its point order is reversed
        assert forall|i: int, k1: int, k2: int|
            0 <= i < ps@.len() && 0 <= k1 < k2 < ps@[i]@.len() - 1 implies #[trigger] ps@[i]@[k1]
            != #[trigger] ps@[i]@[k2] by {
            assert(out[i] == resolve_spec(raw)[i]);
            let p = raw[i];
            let n = p.len() as int;
            if out[i] == p.reverse() {
                let j1 = n - 1 - k1;
                let j2 = n - 1 - k2;
                assert(out[i][k1] == p[j1] && out[i][k2] == p[j2]);
                assert(1 <= j2 < j1 <= n - 1);
                if j1 == n - 1 {
                    assert(p[j1] == p[0]);
                    assert(p[0] != p[j2]);
                } else {
                    assert(p[j2] != p[j1]);
                }
            } else {
                assert(p[k1] != p[k2]);
            }
        }
    }
    ps
}

} // verus!
