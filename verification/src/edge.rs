//! Lattice points, unit edges, and per-region boundary extraction.
//!
//! For every region of foreground cells, `get_edges` collects the set of
//! unit lattice edges that separate a cell of the region from a background
//! cell or from the outside of the grid.  Each edge is normalized (its
//! lexicographically smaller endpoint first) and listed exactly once, and
//! an edge is listed in some region's boundary exactly when it separates
//! foreground from background anywhere in the grid.

use vstd::prelude::*;

verus! {

use vstd::arithmetic::div_mod::lemma_div_pos_is_pos;
use vstd::arithmetic::div_mod::lemma_fundamental_div_mod;
use vstd::arithmetic::div_mod::lemma_fundamental_div_mod_converse;
use vstd::arithmetic::div_mod::lemma_mod_bound;
use crate::grid::conn;
use crate::grid::fg;
use crate::grid::group;
use crate::grid::grouped;
use crate::grid::lemma_conn_refl;

/// A lattice point: an integer coordinate on the pixel boundary grid,
/// ranging over `0 ..= width` by `0 ..= height`.
#[derive(PartialEq, Eq, Structural, Clone, Copy, Debug)]
pub struct Point {
    pub x: usize,
    pub y: usize,
}

/// An axis-aligned segment between two lattice points, normalized so that
/// the lexicographically smaller endpoint comes first.
#[derive(PartialEq, Eq, Structural, Clone, Copy, Debug)]
pub struct Edge {
    pub a: Point,
    pub b: Point,
}

/// Strict lexicographic order on lattice points.
pub open spec fn pt_lt(p: Point, q: Point) -> bool {
    p.x < q.x || (p.x == q.x && p.y < q.y)
}

/// An edge of unit length, horizontal or vertical.
pub open spec fn unit_edge(e: Edge) -> bool {
    (e.b.x == e.a.x + 1 && e.b.y == e.a.y) || (e.b.x == e.a.x && e.b.y == e.a.y + 1)
}

/// `e` appears somewhere in the edge list `s`.
pub open spec fn edge_listed(s: Seq<Edge>, e: Edge) -> bool {
    exists|i: int| 0 <= i < s.len() && s[i] == e
}

/// `e` appears in some region's boundary list.
pub open spec fn edge_listed_any(bs: Seq<Vec<Edge>>, e: Edge) -> bool {
    exists|k: int| 0 <= k < bs.len() && edge_listed(bs[k]@, e)
}

/// The four endpoints of `e`, as plain integers.
pub open spec fn edge_pts(e: Edge, ax: int, ay: int, bx: int, by: int) -> bool {
    e.a.x == ax && e.a.y == ay && e.b.x == bx && e.b.y == by
}

/// Nothing above cell `c` is foreground: it sits in the top row or the
/// cell above it is background.
pub open spec fn top_open(cells: Seq<u8>, w: int, c: int) -> bool {
    c / w == 0 || cells[c - w] == 0
}

/// Nothing below cell `c` is foreground.
pub open spec fn bottom_open(cells: Seq<u8>, w: int, h: int, c: int) -> bool {
    c / w == h - 1 || cells[c + w] == 0
}

/// Nothing to the left of cell `c` is foreground.
pub open spec fn left_open(cells: Seq<u8>, w: int, c: int) -> bool {
    c % w == 0 || cells[c - 1] == 0
}

/// Nothing to the right of cell `c` is foreground.
pub open spec fn right_open(cells: Seq<u8>, w: int, c: int) -> bool {
    c % w == w - 1 || cells[c + 1] == 0
}

/// Foreground cell `c` emits `e` as one of its four boundary sides: the
/// side faces the grid limit or a background cell.
pub open spec fn emits(cells: Seq<u8>, width: usize, height: usize, c: int, e: Edge) -> bool {
    let w = width as int;
    let h = height as int;
    let x = c % w;
    let y = c / w;
    &&& fg(cells, c)
    &&& ((top_open(cells, w, c) && edge_pts(e, x, y, x + 1, y)) || (bottom_open(cells, w, h, c)
        && edge_pts(e, x, y + 1, x + 1, y + 1)) || (left_open(cells, w, c) && edge_pts(
        e,
        x,
        y,
        x,
        y + 1,
    )) || (right_open(cells, w, c) && edge_pts(e, x + 1, y, x + 1, y + 1)))
}

/// `e` separates a foreground cell from background or from the outside of
/// the grid: the boundary edges of the whole grid.
pub open spec fn boundary_edge(cells: Seq<u8>, width: usize, height: usize, e: Edge) -> bool {
    exists|c: int| #[trigger] emits(cells, width, height, c, e)
}

/// Each region's boundary list repeats no edge.
pub open spec fn boundaries_unique(bs: Seq<Vec<Edge>>) -> bool {
    forall|k: int, i: int, j: int|
        0 <= k < bs.len() && 0 <= i < j < bs[k]@.len() ==> #[trigger] bs[k]@[i]
            != #[trigger] bs[k]@[j]
}

/// No edge is shared between two region boundaries.
pub open spec fn boundaries_disjoint(bs: Seq<Vec<Edge>>) -> bool {
    forall|k1: int, k2: int, e: Edge|
        0 <= k1 < bs.len() && 0 <= k2 < bs.len() && #[trigger] edge_listed(bs[k1]@, e)
            && #[trigger] edge_listed(bs[k2]@, e) ==> k1 == k2
}

/// All listed edges are normalized unit edges inside the lattice bounds.
pub open spec fn boundaries_shaped(bs: Seq<Vec<Edge>>, width: usize, height: usize) -> bool {
    forall|k: int, i: int|
        0 <= k < bs.len() && 0 <= i < bs[k]@.len() ==> {
            let e = #[trigger] bs[k]@[i];
            unit_edge(e) && pt_lt(e.a, e.b) && e.b.x <= width && e.b.y <= height
        }
}

/// Region `rs[k]`'s boundary list holds exactly the edges emitted by its
/// member cells.
pub open spec fn boundaries_of_regions(
    cells: Seq<u8>,
    width: usize,
    height: usize,
    rs: Seq<Vec<usize>>,
    bs: Seq<Vec<Edge>>,
) -> bool {
    &&& bs.len() == rs.len()
    &&& forall|k: int, e: Edge|
        0 <= k < rs.len() ==> (#[trigger] edge_listed(bs[k]@, e) <==> exists|m: int|
            0 <= m < rs[k]@.len() && emits(cells, width, height, #[trigger] rs[k]@[m] as int, e))
}

/// Geometry of one in-range cell: its coordinates and its neighbours'
/// coordinates, and which neighbours stay inside the grid.
proof fn lemma_cell_geometry(cells: Seq<u8>, width: usize, height: usize, c: int)
    requires
        cells.len() == (width as int) * (height as int),
        0 <= c < cells.len(),
    ensures
        width > 0,
        height > 0,
        0 <= c % (width as int) < width as int,
        0 <= c / (width as int) < height as int,
        c == (c / (width as int)) * (width as int) + c % (width as int),
        c % (width as int) < width as int - 1 ==> c + 1 < cells.len() && (c + 1) % (
        width as int) == c % (width as int) + 1 && (c + 1) / (width as int) == c / (width as int),
        c / (width as int) < height as int - 1 ==> c + (width as int) < cells.len() && (c + (
        width as int)) % (width as int) == c % (width as int) && (c + (width as int)) / (
        width as int) == c / (width as int) + 1,
        c / (width as int) > 0 ==> 0 <= c - (width as int) && (c - (width as int)) % (
        width as int) == c % (width as int) && (c - (width as int)) / (width as int) == c / (
        width as int) - 1,
        c % (width as int) > 0 ==> (c - 1) % (width as int) == c % (width as int) - 1 && (c - 1)
            / (width as int) == c / (width as int),
{
    let w = width as int;
    let h = height as int;
    let n = cells.len() as int;
    if w == 0 {
        assert(n == 0 * h == 0) by (nonlinear_arith)
            requires
                n == w * h,
                w == 0,
        ;
    }
    assert(w > 0);
    if h == 0 {
        assert(n == w * 0 == 0) by (nonlinear_arith)
            requires
                n == w * h,
                h == 0,
        ;
    }
    assert(h > 0);
    lemma_fundamental_div_mod(c, w);
    lemma_mod_bound(c, w);
    lemma_div_pos_is_pos(c, w);
    let x = c % w;
    let y = c / w;
    assert(y < h) by (nonlinear_arith)
        requires
            c == w * y + x,
            0 <= x < w,
            0 <= y,
            c < w * h,
    ;
    if x < w - 1 {
        assert(c + 1 < n) by (nonlinear_arith)
            requires
                n == w * h,
                c == w * y + x,
                0 <= x,
                x + 1 < w,
                0 <= y,
                y < h,
        ;
        lemma_fundamental_div_mod_converse(c + 1, w, y, x + 1);
    }
    if y < h - 1 {
        assert(c + w < n) by (nonlinear_arith)
            requires
                n == w * h,
                c == w * y + x,
                0 <= x < w,
                0 <= y,
                y + 1 < h,
        ;
        assert(c + w == (y + 1) * w + x) by (nonlinear_arith)
            requires
                c == w * y + x,
        ;
        lemma_fundamental_div_mod_converse(c + w, w, y + 1, x);
    }
    if y > 0 {
        assert(c - w == (y - 1) * w + x) by (nonlinear_arith)
            requires
                c == w * y + x,
        ;
        assert(c - w >= 0) by (nonlinear_arith)
            requires
                c - w == (y - 1) * w + x,
                0 <= x,
                0 <= y - 1,
                w > 0,
        ;
        lemma_fundamental_div_mod_converse(c - w, w, y - 1, x);
    }
    if x > 0 {
        assert(c - 1 == y * w + (x - 1)) by (nonlinear_arith)
            requires
                c == w * y + x,
        ;
        lemma_fundamental_div_mod_converse(c - 1, w, y, x - 1);
    }
}

/// Only one cell can emit a given edge: the two cells beside the edge
/// cannot both be foreground while the edge separates one of them from
/// background.
proof fn lemma_emitter_unique(
    cells: Seq<u8>,
    width: usize,
    height: usize,
    c1: int,
    c2: int,
    e: Edge,
)
    requires
        cells.len() == (width as int) * (height as int),
        emits(cells, width, height, c1, e),
        emits(cells, width, height, c2, e),
    ensures
        c1 == c2,
{
    let w = width as int;
    let h = height as int;
    lemma_cell_geometry(cells, width, height, c1);
    lemma_cell_geometry(cells, width, height, c2);
    let x1 = c1 % w;
    let y1 = c1 / w;
    let x2 = c2 % w;
    let y2 = c2 / w;
    if e.b.y == e.a.y {
        // horizontal edge: top side of the cell below it, or bottom side
        // of the cell above it.
        assert(e.a.x == e.b.x - 1);
        if y1 == y2 {
            assert(x1 == x2);
            assert(c1 == c2) by (nonlinear_arith)
                requires
                    c1 == y1 * w + x1,
                    c2 == y2 * w + x2,
                    x1 == x2,
                    y1 == y2,
            ;
        } else {
            // one cell is directly above the other, both foreground, and
            // the shared edge would have to be open on both sides.
            let top_cell = if y1 < y2 {
                c1
            } else {
                c2
            };
            let bot_cell = if y1 < y2 {
                c2
            } else {
                c1
            };
            assert(bot_cell == top_cell + w) by {
                if y1 < y2 {
                    assert(y2 == y1 + 1 && x1 == x2);
                    assert(c2 == c1 + w) by (nonlinear_arith)
                        requires
                            c1 == y1 * w + x1,
                            c2 == y2 * w + x2,
                            y2 == y1 + 1,
                            x1 == x2,
                    ;
                } else {
                    assert(y1 == y2 + 1 && x1 == x2);
                    assert(c1 == c2 + w) by (nonlinear_arith)
                        requires
                            c1 == y1 * w + x1,
                            c2 == y2 * w + x2,
                            y1 == y2 + 1,
                            x1 == x2,
                    ;
                }
            }
            assert(fg(cells, top_cell) && fg(cells, bot_cell));
            assert(bottom_open(cells, w, h, top_cell));
            assert(false);
        }
    } else {
        // vertical edge: left side of the cell to its right, or right
        // side of the cell to its left.
        assert(e.a.y == e.b.y - 1 && e.a.x == e.b.x);
        if x1 == x2 {
            assert(y1 == y2);
            assert(c1 == c2) by (nonlinear_arith)
                requires
                    c1 == y1 * w + x1,
                    c2 == y2 * w + x2,
                    x1 == x2,
                    y1 == y2,
            ;
        } else {
            let left_cell = if x1 < x2 {
                c1
            } else {
                c2
            };
            let right_cell = if x1 < x2 {
                c2
            } else {
                c1
            };
            assert(right_cell == left_cell + 1) by {
                if x1 < x2 {
                    assert(x2 == x1 + 1 && y1 == y2);
                    assert(c2 == c1 + 1) by (nonlinear_arith)
                        requires
                            c1 == y1 * w + x1,
                            c2 == y2 * w + x2,
                            x2 == x1 + 1,
                            y1 == y2,
                    ;
                } else {
                    assert(x1 == x2 + 1 && y1 == y2);
                    assert(c1 == c2 + 1) by (nonlinear_arith)
                        requires
                            c1 == y1 * w + x1,
                            c2 == y2 * w + x2,
                            x1 == x2 + 1,
                            y1 == y2,
                    ;
                }
            }
            assert(fg(cells, left_cell) && fg(cells, right_cell));
            assert(right_open(cells, w, left_cell));
            assert(false);
        }
    }
}

/// Append `e` unless it is already listed.
pub(crate) fn push_unique(edges: &mut Vec<Edge>, e: Edge)
    ensures
        final(edges)@ == if edge_listed(old(edges)@, e) {
            old(edges)@
        } else {
            old(edges)@.push(e)
        },
{
    let mut i: usize = 0;
    while i < edges.len()
        invariant
            i <= edges@.len(),
            forall|t: int| 0 <= t < i ==> edges@[t] != e,
            edges@ == old(edges)@,
        decreases edges@.len() - i,
    {
        if edges[i].a.x == e.a.x && edges[i].a.y == e.a.y && edges[i].b.x == e.b.x && edges[i].b.y
            == e.b.y {
            proof {
                assert(edges@[i as int] == e);
            }
            return ;
        }
        i = i + 1;
    }
    proof {
        assert(!edge_listed(edges@, e));
    }
    edges.push(e);
}

/// What `push_unique` does to the listed-edge set.
proof fn lemma_push_unique_effect(s: Seq<Edge>, t: Seq<Edge>, add: Edge)
    requires
        t == if edge_listed(s, add) {
            s
        } else {
            s.push(add)
        },
    ensures
        edge_listed(t, add),
        forall|e: Edge| #[trigger] edge_listed(s, e) ==> edge_listed(t, e),
        forall|e: Edge| #[trigger] edge_listed(t, e) ==> edge_listed(s, e) || e == add,
        forall|i: int|
            0 <= i < t.len() ==> ((i < s.len() && #[trigger] t[i] == s[i]) || t[i] == add),
        (forall|i: int, j: int| 0 <= i < j < s.len() ==> #[trigger] s[i] != #[trigger] s[j])
            ==> (forall|i: int, j: int|
            0 <= i < j < t.len() ==> #[trigger] t[i] != #[trigger] t[j]),
{
    if edge_listed(s, add) {
        assert(t == s);
    } else {
        assert(t[s.len() as int] == add);
        assert forall|e: Edge| #[trigger] edge_listed(s, e) implies edge_listed(t, e) by {
            let i = choose|i: int| 0 <= i < s.len() && s[i] == e;
            assert(t[i] == e);
        }
        assert forall|e: Edge| #[trigger] edge_listed(t, e) implies edge_listed(s, e) || e
            == add by {
            let i = choose|i: int| 0 <= i < t.len() && t[i] == e;
            if i < s.len() {
                assert(s[i] == e);
            }
        }
        if forall|i: int, j: int| 0 <= i < j < s.len() ==> #[trigger] s[i] != #[trigger] s[j] {
            assert forall|i: int, j: int| 0 <= i < j < t.len() implies #[trigger] t[i]
                != #[trigger] t[j] by {
                if j < s.len() {
                    assert(s[i] != s[j]);
                } else {
                    assert(t[j] == add);
                    if t[i] == add {
                        assert(s[i] == add);
                        assert(edge_listed(s, add));
                    }
                }
            }
        }
    }
}

/// Append, deduplicated, the boundary sides that foreground cell `c`
/// emits: each of its four unit edges whose far side is background or the
/// grid limit.
fn emit_cell_edges(cells: &Vec<u8>, width: usize, height: usize, edges: &mut Vec<Edge>, c: usize)
    requires
        cells@.len() == (width as int) * (height as int),
        fg(cells@, c as int),
        forall|i: int, j: int|
            0 <= i < j < old(edges)@.len() ==> #[trigger] old(edges)@[i]
                != #[trigger] old(edges)@[j],
        forall|i: int|
            0 <= i < old(edges)@.len() ==> {
                let e = #[trigger] old(edges)@[i];
                unit_edge(e) && pt_lt(e.a, e.b) && e.b.x <= width && e.b.y <= height
            },
    ensures
        forall|e: Edge|
            #[trigger] edge_listed(final(edges)@, e) <==> (edge_listed(old(edges)@, e) || emits(
                cells@,
                width,
                height,
                c as int,
                e,
            )),
        forall|i: int, j: int|
            0 <= i < j < final(edges)@.len() ==> #[trigger] final(edges)@[i]
                != #[trigger] final(edges)@[j],
        forall|i: int|
            0 <= i < final(edges)@.len() ==> {
                let e = #[trigger] final(edges)@[i];
                unit_edge(e) && pt_lt(e.a, e.b) && e.b.x <= width && e.b.y <= height
            },
{
    proof {
        lemma_cell_geometry(cells@, width, height, c as int);
    }
    let grid_len = cells.len();
    let x = c % width;
    let y = c / width;
    let ghost w = width as int;
    let ghost h = height as int;
    let ghost cc = c as int;
    let ghost e_top = Edge { a: Point { x, y }, b: Point { x: (x + 1) as usize, y } };
    let ghost e_bot = Edge {
        a: Point { x, y: (y + 1) as usize },
        b: Point { x: (x + 1) as usize, y: (y + 1) as usize },
    };
    let ghost e_left = Edge { a: Point { x, y }, b: Point { x, y: (y + 1) as usize } };
    let ghost e_right = Edge {
        a: Point { x: (x + 1) as usize, y },
        b: Point { x: (x + 1) as usize, y: (y + 1) as usize },
    };
    let ghost before = edges@;
    // top
    if y == 0 || cells[c - width] == 0 {
        push_unique(edges, Edge { a: Point { x, y }, b: Point { x: x + 1, y } });
    }
    proof {
        if top_open(cells@, w, cc) {
            lemma_push_unique_effect(before, edges@, e_top);
        } else {
            assert(edges@ == before);
        }
    }
    let ghost after_top = edges@;
    // bottom
    if y == height - 1 || cells[c + width] == 0 {
        push_unique(edges, Edge { a: Point { x, y: y + 1 }, b: Point { x: x + 1, y: y + 1 } });
    }
    proof {
        if bottom_open(cells@, w, h, cc) {
            lemma_push_unique_effect(after_top, edges@, e_bot);
        } else {
            assert(edges@ == after_top);
        }
    }
    let ghost after_bot = edges@;
    // left
    if x == 0 || cells[c - 1] == 0 {
        push_unique(edges, Edge { a: Point { x, y }, b: Point { x, y: y + 1 } });
    }
    proof {
        if left_open(cells@, w, cc) {
            lemma_push_unique_effect(after_bot, edges@, e_left);
        } else {
            assert(edges@ == after_bot);
        }
    }
    let ghost after_left = edges@;
    // right
    if x == width - 1 || cells[c + 1] == 0 {
        push_unique(edges, Edge { a: Point { x: x + 1, y }, b: Point { x: x + 1, y: y + 1 } });
    }
    proof {
        if right_open(cells@, w, cc) {
            lemma_push_unique_effect(after_left, edges@, e_right);
        } else {
            assert(edges@ == after_left);
        }
        assert forall|e: Edge| #[trigger] edge_listed(edges@, e) implies (edge_listed(before, e)
            || emits(cells@, width, height, cc, e)) by {
            if !edge_listed(before, e) {
                assert(e == e_top || e == e_bot || e == e_left || e == e_right);
                if e == e_top {
                    assert(top_open(cells@, w, cc) && edge_pts(e, cc % w, cc / w, cc % w + 1, cc / w));
                } else if e == e_bot {
                    assert(bottom_open(cells@, w, h, cc));
                } else if e == e_left {
                    assert(left_open(cells@, w, cc));
                } else {
                    assert(right_open(cells@, w, cc));
                }
            }
        }
        assert forall|e: Edge| emits(cells@, width, height, cc, e) implies #[trigger] edge_listed(
            edges@,
            e,
        ) by {
            if top_open(cells@, w, cc) && edge_pts(e, cc % w, cc / w, cc % w + 1, cc / w) {
                assert(e == e_top);
            } else if bottom_open(cells@, w, h, cc) && edge_pts(
                e,
                cc % w,
                cc / w + 1,
                cc % w + 1,
                cc / w + 1,
            ) {
                assert(e == e_bot);
            } else if left_open(cells@, w, cc) && edge_pts(e, cc % w, cc / w, cc % w, cc / w + 1) {
                assert(e == e_left);
            } else {
                assert(right_open(cells@, w, cc) && edge_pts(
                    e,
                    cc % w + 1,
                    cc / w,
                    cc % w + 1,
                    cc / w + 1,
                ));
                assert(e == e_right);
            }
        }
    }
}

/// Trace the boundary of every foreground region of the grid.
///
/// The result has one edge list per region, in the region order of
/// `group`.  A region's list holds, exactly once each, the normalized unit
/// edges separating one of its cells from background or from the outside
/// of the grid; over all regions together the lists hold exactly the
/// separating edges of the whole grid, each in a single region.
pub fn get_edges(cells: &Vec<u8>, width: usize, height: usize) -> (boundaries: Vec<Vec<Edge>>)
    requires
        cells@.len() == (width as int) * (height as int),
    ensures
        boundaries_unique(boundaries@),
        boundaries_disjoint(boundaries@),
        boundaries_shaped(boundaries@, width, height),
        forall|e: Edge|
            #[trigger] edge_listed_any(boundaries@, e) <==> boundary_edge(cells@, width, height, e),
        exists|rs: Seq<Vec<usize>>|
            #[trigger] grouped(cells@, width, rs) && boundaries_of_regions(
                cells@,
                width,
                height,
                rs,
                boundaries@,
            ),
{
    let grid_len = cells.len();
    let regions = group(cells, width, height);
    let mut boundaries: Vec<Vec<Edge>> = Vec::new();
    let mut k: usize = 0;
    while k < regions.len()
        invariant
            grid_len == cells@.len(),
            cells@.len() == (width as int) * (height as int),
            grouped(cells@, width, regions@),
            k <= regions@.len(),
            boundaries@.len() == k,
            forall|kk: int, e: Edge|
                0 <= kk < k ==> (#[trigger] edge_listed(boundaries@[kk]@, e) <==> exists|m: int|
                    0 <= m < regions@[kk]@.len() && emits(
                        cells@,
                        width,
                        height,
                        #[trigger] regions@[kk]@[m] as int,
                        e,
                    )),
            forall|kk: int, i: int, j: int|
                0 <= kk < k && 0 <= i < j < boundaries@[kk]@.len() ==> #[trigger] boundaries@[kk]@[i]
                    != #[trigger] boundaries@[kk]@[j],
            forall|kk: int, i: int|
                0 <= kk < k && 0 <= i < boundaries@[kk]@.len() ==> {
                    let e = #[trigger] boundaries@[kk]@[i];
                    unit_edge(e) && pt_lt(e.a, e.b) && e.b.x <= width && e.b.y <= height
                },
        decreases regions@.len() - k,
    {
        let member_count = regions[k].len();
        let mut edges: Vec<Edge> = Vec::new();
        let mut m: usize = 0;
        while m < member_count
            invariant
                grid_len == cells@.len(),
                cells@.len() == (width as int) * (height as int),
                grouped(cells@, width, regions@),
                k < regions@.len(),
                member_count == regions@[k as int]@.len(),
                m <= member_count,
                forall|e: Edge|
                    #[trigger] edge_listed(edges@, e) <==> exists|mm: int|
                        0 <= mm < m && emits(
                            cells@,
                            width,
                            height,
                            #[trigger] regions@[k as int]@[mm] as int,
                            e,
                        ),
                forall|i: int, j: int|
                    0 <= i < j < edges@.len() ==> #[trigger] edges@[i] != #[trigger] edges@[j],
                forall|i: int|
                    0 <= i < edges@.len() ==> {
                        let e = #[trigger] edges@[i];
                        unit_edge(e) && pt_lt(e.a, e.b) && e.b.x <= width && e.b.y <= height
                    },
            decreases member_count - m,
        {
            let idx = regions[k][m];
            let ghost edges0 = edges@;
            proof {
                assert(fg(cells@, idx as int));
            }
            emit_cell_edges(cells, width, height, &mut edges, idx);
            proof {
                let c = idx as int;
                assert forall|e: Edge| #[trigger] edge_listed(edges@, e) implies exists|mm: int|
                    0 <= mm < m + 1 && emits(
                        cells@,
                        width,
                        height,
                        #[trigger] regions@[k as int]@[mm] as int,
                        e,
                    ) by {
                    if edge_listed(edges0, e) {
                        let mm = choose|mm: int|
                            0 <= mm < m && emits(
                                cells@,
                                width,
                                height,
                                regions@[k as int]@[mm] as int,
                                e,
                            );
                        assert(emits(cells@, width, height, regions@[k as int]@[mm] as int, e));
                    } else {
                        assert(emits(cells@, width, height, regions@[k as int]@[m as int] as int, e));
                    }
                }
                assert forall|mm: int, e: Edge|
                    0 <= mm < m + 1 && #[trigger] emits(
                        cells@,
                        width,
                        height,
                        regions@[k as int]@[mm] as int,
                        e,
                    ) implies edge_listed(edges@, e) by {
                    if mm < m {
                        assert(edge_listed(edges0, e));
                    }
                }
            }
            m = m + 1;
        }
        boundaries.push(edges);
        k = k + 1;
    }
    proof {
        let bs = boundaries@;
        let rs = regions@;
        assert(boundaries_of_regions(cells@, width, height, rs, bs));
        assert(grouped(cells@, width, rs));
        // Global statement: listed somewhere iff separating somewhere.
        assert forall|e: Edge|
            #[trigger] edge_listed_any(bs, e) <==> boundary_edge(cells@, width, height, e) by {
            if edge_listed_any(bs, e) {
                let k = choose|k: int| 0 <= k < bs.len() && edge_listed(bs[k]@, e);
                let m = choose|m: int|
                    0 <= m < rs[k]@.len() && emits(cells@, width, height, rs[k]@[m] as int, e);
                assert(emits(cells@, width, height, rs[k]@[m] as int, e));
            }
            if boundary_edge(cells@, width, height, e) {
                let c = choose|c: int| #[trigger] emits(cells@, width, height, c, e);
                assert(fg(cells@, c));
                let (k, m) = choose|k: int, m: int|
                    0 <= k < rs.len() && 0 <= m < rs[k]@.len() && rs[k]@[m] == c;
                assert(edge_listed(bs[k]@, e));
                assert(edge_listed_any(bs, e));
            }
        }
        // No edge is shared between two regions: its emitting cell is
        // unique and sits in a single region.
        assert forall|k1: int, k2: int, e: Edge|
            0 <= k1 < bs.len() && 0 <= k2 < bs.len() && #[trigger] edge_listed(bs[k1]@, e)
                && #[trigger] edge_listed(bs[k2]@, e) implies k1 == k2 by {
            let m1 = choose|m: int|
                0 <= m < rs[k1]@.len() && emits(cells@, width, height, rs[k1]@[m] as int, e);
            let m2 = choose|m: int|
                0 <= m < rs[k2]@.len() && emits(cells@, width, height, rs[k2]@[m] as int, e);
            let c1 = rs[k1]@[m1] as int;
            let c2 = rs[k2]@[m2] as int;
            lemma_emitter_unique(cells@, width, height, c1, c2, e);
            lemma_conn_refl(cells@, width, c1);
            assert(k1 == k2);
        }
    }
    boundaries
}

/// A grid with no foreground cell has no regions, so no boundary lists:
/// with the stitcher making no paths from no edges, a fully empty grid
/// produces zero paths.
pub proof fn lemma_empty_grid_no_boundaries(
    cells: Seq<u8>,
    width: usize,
    height: usize,
    bs: Seq<Vec<Edge>>,
)
    requires
        forall|c: int| 0 <= c < cells.len() ==> cells[c] == 0,
        exists|rs: Seq<Vec<usize>>|
            #[trigger] grouped(cells, width, rs) && boundaries_of_regions(
                cells,
                width,
                height,
                rs,
                bs,
            ),
    ensures
        bs.len() == 0,
{
    let rs = choose|rs: Seq<Vec<usize>>|
        #[trigger] grouped(cells, width, rs) && boundaries_of_regions(cells, width, height, rs, bs);
    if rs.len() > 0 {
        assert(rs[0]@.len() > 0);
        assert(fg(cells, rs[0]@[0] as int));
    }
}

/// An isolated foreground cell yields exactly one region, whose boundary
/// is precisely the four unit edges of that cell.
pub proof fn lemma_single_cell_boundary(
    cells: Seq<u8>,
    width: usize,
    height: usize,
    c: int,
    bs: Seq<Vec<Edge>>,
)
    requires
        cells.len() == (width as int) * (height as int),
        fg(cells, c),
        forall|d: int| 0 <= d < cells.len() && d != c ==> cells[d] == 0,
        exists|rs: Seq<Vec<usize>>|
            #[trigger] grouped(cells, width, rs) && boundaries_of_regions(
                cells,
                width,
                height,
                rs,
                bs,
            ),
    ensures
        bs.len() == 1,
        forall|e: Edge| #[trigger] edge_listed(bs[0]@, e) <==> emits(cells, width, height, c, e),
        forall|e: Edge|
            #[trigger] emits(cells, width, height, c, e) <==> (edge_pts(
                e,
                c % (width as int),
                c / (width as int),
                c % (width as int) + 1,
                c / (width as int),
            ) || edge_pts(
                e,
                c % (width as int),
                c / (width as int) + 1,
                c % (width as int) + 1,
                c / (width as int) + 1,
            ) || edge_pts(
                e,
                c % (width as int),
                c / (width as int),
                c % (width as int),
                c / (width as int) + 1,
            ) || edge_pts(
                e,
                c % (width as int) + 1,
                c / (width as int),
                c % (width as int) + 1,
                c / (width as int) + 1,
            )),
{
    lemma_cell_geometry(cells, width, height, c);
    let w = width as int;
    let h = height as int;
    let rs = choose|rs: Seq<Vec<usize>>|
        #[trigger] grouped(cells, width, rs) && boundaries_of_regions(cells, width, height, rs, bs);
    // every region member is the one foreground cell
    assert forall|k: int, m: int|
        0 <= k < rs.len() && 0 <= m < rs[k]@.len() implies #[trigger] rs[k]@[m] == c by {
        assert(fg(cells, rs[k]@[m] as int));
    }
    // the cell is covered, so there is at least one region
    let (k0, m0) = choose|k: int, m: int|
        0 <= k < rs.len() && 0 <= m < rs[k]@.len() && rs[k]@[m] == c;
    // and at most one, since two regions would share the cell
    if rs.len() > 1 {
        lemma_conn_refl(cells, width, c);
        assert(rs[0]@[0] == c && rs[1]@[0] == c);
        assert(conn(cells, width, rs[0]@[0] as int, rs[1]@[0] as int));
        assert(false);
    }
    assert(rs.len() == 1 && k0 == 0);
    assert forall|e: Edge| #[trigger] edge_listed(bs[0]@, e) <==> emits(
        cells,
        width,
        height,
        c,
        e,
    ) by {
        if emits(cells, width, height, c, e) {
            assert(0 <= m0 < rs[0]@.len() && emits(cells, width, height, rs[0]@[m0] as int, e));
        }
        if edge_listed(bs[0]@, e) {
            let m = choose|m: int|
                0 <= m < rs[0]@.len() && emits(cells, width, height, rs[0]@[m] as int, e);
            assert(rs[0]@[m] == c);
        }
    }
    // all four sides of the lone cell face background or the grid limit
    assert(top_open(cells, w, c)) by {
        if c / w > 0 {
            assert(c - w != c);
        }
    }
    assert(bottom_open(cells, w, h, c)) by {
        if c / w < h - 1 {
            assert(c + w != c);
        }
    }
    assert(left_open(cells, w, c)) by {
        if c % w > 0 {
            assert(0 <= c - 1 < cells.len() && c - 1 != c);
        }
    }
    assert(right_open(cells, w, c)) by {
        if c % w < w - 1 {
            assert(c + 1 != c);
        }
    }
}

} // verus!
