//! The weight grid of one glyph cell, and the grouping of its foreground
//! cells into maximal 4-connected regions.
//!
//! A grid is a row-major sequence of non-negative weights of size
//! `width * height`; a cell is foreground when its weight is strictly
//! positive.  `group` partitions the foreground cells into regions: two
//! cells land in one region exactly when a chain of edge-sharing foreground
//! cells links them.  Region order and member order are fixed by the scan
//! order of the grid, so the output is reproducible.

use vstd::prelude::*;

verus! {

use vstd::arithmetic::div_mod::lemma_div_pos_is_pos;
use vstd::arithmetic::div_mod::lemma_fundamental_div_mod;
use vstd::arithmetic::div_mod::lemma_fundamental_div_mod_converse;
use vstd::arithmetic::div_mod::lemma_mod_bound;
use crate::union_find::UnionFind;

/// Cell `c` of the grid is foreground.
pub open spec fn fg(cells: Seq<u8>, c: int) -> bool {
    0 <= c < cells.len() && cells[c] > 0
}

/// Cells `a` and `b` share a horizontal or vertical edge in a row-major
/// grid of the given width.
pub open spec fn adj4(cells: Seq<u8>, width: usize, a: int, b: int) -> bool {
    let w = width as int;
    &&& w > 0
    &&& 0 <= a < cells.len()
    &&& 0 <= b < cells.len()
    &&& ((a / w == b / w && (b == a + 1 || a == b + 1)) || b == a + w || a == b + w)
}

/// A nonempty chain of foreground cells in which consecutive cells are
/// 4-adjacent.
pub open spec fn is_fg_path(cells: Seq<u8>, width: usize, s: Seq<int>) -> bool {
    &&& s.len() >= 1
    &&& (forall|k: int| 0 <= k < s.len() ==> fg(cells, #[trigger] s[k]))
    &&& (forall|k: int| 0 <= k < s.len() - 1 ==> adj4(cells, width, #[trigger] s[k], s[k + 1]))
}

/// Cells `a` and `b` are linked by a chain of 4-adjacent foreground cells.
pub open spec fn conn(cells: Seq<u8>, width: usize, a: int, b: int) -> bool {
    exists|s: Seq<int>|
        is_fg_path(cells, width, s) && s[0] == a && s[s.len() - 1] == b
}

pub proof fn lemma_conn_refl(cells: Seq<u8>, width: usize, a: int)
    requires
        fg(cells, a),
    ensures
        conn(cells, width, a, a),
{
    let s = seq![a];
    assert(is_fg_path(cells, width, s));
    assert(s[0] == a && s[s.len() - 1] == a);
}

pub proof fn lemma_conn_step(cells: Seq<u8>, width: usize, a: int, b: int)
    requires
        fg(cells, a),
        fg(cells, b),
        adj4(cells, width, a, b),
    ensures
        conn(cells, width, a, b),
{
    let s = seq![a, b];
    assert(is_fg_path(cells, width, s));
    assert(s[0] == a && s[s.len() - 1] == b);
}

pub proof fn lemma_conn_sym(cells: Seq<u8>, width: usize, a: int, b: int)
    requires
        conn(cells, width, a, b),
    ensures
        conn(cells, width, b, a),
{
    let s = choose|s: Seq<int>|
        is_fg_path(cells, width, s) && s[0] == a && s[s.len() - 1] == b;
    let n = s.len() as int;
    let t = s.reverse();
    assert forall|k: int| 0 <= k < t.len() - 1 implies adj4(
        cells,
        width,
        #[trigger] t[k],
        t[k + 1],
    ) by {
        assert(t[k] == s[n - 1 - k]);
        assert(t[k + 1] == s[n - 2 - k]);
        assert(adj4(cells, width, s[n - 2 - k], s[n - 2 - k + 1]));
    }
    assert(is_fg_path(cells, width, t));
    assert(t[0] == b && t[t.len() - 1] == a);
}

pub proof fn lemma_conn_trans(cells: Seq<u8>, width: usize, a: int, m: int, b: int)
    requires
        conn(cells, width, a, m),
        conn(cells, width, m, b),
    ensures
        conn(cells, width, a, b),
{
    let s1 = choose|s: Seq<int>|
        is_fg_path(cells, width, s) && s[0] == a && s[s.len() - 1] == m;
    let s2 = choose|s: Seq<int>|
        is_fg_path(cells, width, s) && s[0] == m && s[s.len() - 1] == b;
    let n1 = s1.len() as int;
    let t = s1 + s2.subrange(1, s2.len() as int);
    assert(t.len() == n1 + s2.len() - 1);
    assert forall|k: int| 0 <= k < t.len() implies fg(cells, #[trigger] t[k]) by {
        if k < n1 {
            assert(t[k] == s1[k]);
        } else {
            assert(t[k] == s2[k - n1 + 1]);
        }
    }
    assert forall|k: int| 0 <= k < t.len() - 1 implies adj4(
        cells,
        width,
        #[trigger] t[k],
        t[k + 1],
    ) by {
        if k < n1 - 1 {
            assert(t[k] == s1[k] && t[k + 1] == s1[k + 1]);
            assert(adj4(cells, width, s1[k], s1[k + 1]));
        } else if k == n1 - 1 {
            assert(t[k] == s1[n1 - 1]);
            assert(t[k + 1] == s2[1]);
            assert(adj4(cells, width, s2[0], s2[0int + 1]));
        } else {
            assert(t[k] == s2[k - n1 + 1] && t[k + 1] == s2[k - n1 + 2]);
            assert(adj4(cells, width, s2[k - n1 + 1], s2[k - n1 + 1 + 1]));
        }
    }
    assert(is_fg_path(cells, width, t));
    assert(t[0] == a);
    assert(t[t.len() - 1] == b) by {
        if s2.len() == 1 {
            assert(t =~= s1);
        } else {
            assert(t[t.len() - 1] == s2[s2.len() - 1]);
        }
    }
}

/// Transitivity where either link may be equality of cells.
pub proof fn lemma_conn_oe_trans(cells: Seq<u8>, width: usize, a: int, m: int, b: int)
    requires
        a == m || conn(cells, width, a, m),
        m == b || conn(cells, width, m, b),
    ensures
        a == b || conn(cells, width, a, b),
{
    if a == m {
    } else if m == b {
    } else {
        lemma_conn_trans(cells, width, a, m, b);
    }
}

/// The representative mapping only merges connected foreground cells.
spec fn uf_sound(cells: Seq<u8>, width: usize, uf: UnionFind) -> bool {
    forall|a: int, b: int|
        0 <= a < cells.len() && 0 <= b < cells.len() && #[trigger] uf.rep(a) == #[trigger] uf.rep(
            b,
        ) ==> (a == b || conn(cells, width, a, b))
}

/// The sweep has joined cell `c` with its foreground right and bottom
/// neighbours, where those exist.
spec fn cell_joined(cells: Seq<u8>, width: usize, uf: UnionFind, c: int) -> bool {
    let w = width as int;
    &&& (fg(cells, c) && c % w < w - 1 && fg(cells, c + 1) ==> uf.rep(c) == uf.rep(c + 1))
    &&& (fg(cells, c) && c + w < cells.len() && fg(cells, c + w) ==> uf.rep(c) == uf.rep(c + w))
}

/// Every pair of adjacent foreground cells shares a representative.
spec fn uf_joined_all(cells: Seq<u8>, width: usize, uf: UnionFind) -> bool {
    forall|c: int| 0 <= c < cells.len() ==> #[trigger] cell_joined(cells, width, uf, c)
}

/// Adjacent foreground cells share a representative once the whole sweep
/// is done.
proof fn lemma_adj_joined(cells: Seq<u8>, width: usize, uf: UnionFind, a: int, b: int)
    requires
        uf_joined_all(cells, width, uf),
        fg(cells, a),
        fg(cells, b),
        adj4(cells, width, a, b),
    ensures
        uf.rep(a) == uf.rep(b),
{
    let w = width as int;
    let n = cells.len() as int;
    if b == a + w {
        assert(cell_joined(cells, width, uf, a));
    } else if a == b + w {
        assert(cell_joined(cells, width, uf, b));
    } else if a / w == b / w && b == a + 1 {
        lemma_mod_bound(a, w);
        if a % w == w - 1 {
            // then b starts the next row, contradicting a / w == b / w
            lemma_fundamental_div_mod(a, w);
            assert(b == (a / w + 1) * w + 0) by (nonlinear_arith)
                requires
                    a == w * (a / w) + (w - 1),
                    b == a + 1,
            ;
            lemma_fundamental_div_mod_converse(b, w, a / w + 1, 0);
            assert(false);
        }
        assert(cell_joined(cells, width, uf, a));
    } else {
        assert(a / w == b / w && a == b + 1);
        lemma_mod_bound(b, w);
        if b % w == w - 1 {
            lemma_fundamental_div_mod(b, w);
            assert(a == (b / w + 1) * w + 0) by (nonlinear_arith)
                requires
                    b == w * (b / w) + (w - 1),
                    a == b + 1,
            ;
            lemma_fundamental_div_mod_converse(a, w, b / w + 1, 0);
            assert(false);
        }
        assert(cell_joined(cells, width, uf, b));
    }
}

/// Along a foreground chain the representative never changes.
proof fn lemma_path_same_rep(cells: Seq<u8>, width: usize, uf: UnionFind, s: Seq<int>)
    requires
        uf_joined_all(cells, width, uf),
        is_fg_path(cells, width, s),
    ensures
        uf.rep(s[0]) == uf.rep(s[s.len() - 1]),
    decreases s.len(),
{
    if s.len() > 1 {
        assert(adj4(cells, width, s[0], s[0int + 1]));
        lemma_adj_joined(cells, width, uf, s[0], s[1]);
        let t = s.subrange(1, s.len() as int);
        assert forall|k: int| 0 <= k < t.len() - 1 implies adj4(
            cells,
            width,
            #[trigger] t[k],
            t[k + 1],
        ) by {
            assert(adj4(cells, width, s[k + 1], s[k + 1 + 1]));
        }
        lemma_path_same_rep(cells, width, uf, t);
        assert(t[0] == s[1] && t[t.len() - 1] == s[s.len() - 1]);
    }
}

/// Region lists are nonempty, hold only foreground cells, are strictly
/// ascending, and are ordered by their first (least) member.
pub open spec fn regions_wf(cells: Seq<u8>, rs: Seq<Vec<usize>>) -> bool {
    &&& (forall|k: int| 0 <= k < rs.len() ==> (#[trigger] rs[k])@.len() > 0)
    &&& (forall|k: int, m: int|
        0 <= k < rs.len() && 0 <= m < rs[k]@.len() ==> fg(cells, #[trigger] rs[k]@[m] as int))
    &&& (forall|k: int, m1: int, m2: int|
        0 <= k < rs.len() && 0 <= m1 < m2 < rs[k]@.len() ==> #[trigger] rs[k]@[m1]
            < #[trigger] rs[k]@[m2])
    &&& (forall|k1: int, k2: int|
        0 <= k1 < k2 < rs.len() ==> (#[trigger] rs[k1])@[0] < (#[trigger] rs[k2])@[0])
}

/// Every foreground cell is listed in some region.
pub open spec fn regions_cover(cells: Seq<u8>, rs: Seq<Vec<usize>>) -> bool {
    forall|c: int|
        #[trigger] fg(cells, c) ==> exists|k: int, m: int|
            0 <= k < rs.len() && 0 <= m < rs[k]@.len() && rs[k]@[m] == c
}

/// Cells listed in one region are 4-connected through foreground cells.
pub open spec fn regions_connected(cells: Seq<u8>, width: usize, rs: Seq<Vec<usize>>) -> bool {
    forall|k: int, m1: int, m2: int|
        0 <= k < rs.len() && 0 <= m1 < rs[k]@.len() && 0 <= m2 < rs[k]@.len() ==> conn(
            cells,
            width,
            #[trigger] rs[k]@[m1] as int,
            #[trigger] rs[k]@[m2] as int,
        )
}

/// Cells listed in distinct regions are not connected.
pub open spec fn regions_separate(cells: Seq<u8>, width: usize, rs: Seq<Vec<usize>>) -> bool {
    forall|k1: int, m1: int, k2: int, m2: int|
        0 <= k1 < rs.len() && 0 <= m1 < rs[k1]@.len() && 0 <= k2 < rs.len() && 0 <= m2
            < rs[k2]@.len() && #[trigger] conn(
            cells,
            width,
            rs[k1]@[m1] as int,
            rs[k2]@[m2] as int,
        ) ==> k1 == k2
}

/// The full contract of `group`: the regions are exactly the maximal
/// 4-connected components of the foreground, in scan order.
pub open spec fn grouped(cells: Seq<u8>, width: usize, rs: Seq<Vec<usize>>) -> bool {
    &&& regions_wf(cells, rs)
    &&& regions_cover(cells, rs)
    &&& regions_connected(cells, width, rs)
    &&& regions_separate(cells, width, rs)
}

/// Partition the foreground cells of the grid into maximal 4-connected
/// regions.  Regions appear in order of their least cell index, and each
/// region lists its cells in ascending order.
pub fn group(cells: &Vec<u8>, width: usize, height: usize) -> (regions: Vec<Vec<usize>>)
    requires
        cells@.len() == (width as int) * (height as int),
    ensures
        grouped(cells@, width, regions@),
{
    let n = cells.len();
    let mut uf = UnionFind::new(n);
    let mut idx: usize = 0;
    while idx < n
        invariant
            n == cells@.len(),
            cells@.len() == (width as int) * (height as int),
            idx <= n,
            uf.wf(),
            uf.len() == n,
            uf_sound(cells@, width, uf),
            forall|c: int| 0 <= c < idx ==> #[trigger] cell_joined(cells@, width, uf, c),
        decreases n - idx,
    {
        let ghost uf_at_start = uf;
        let ghost w = width as int;
        if cells[idx] > 0 {
            proof {
                if width == 0 {
                    assert(cells@.len() == 0 * (height as int)) by (nonlinear_arith)
                        requires
                            cells@.len() == (width as int) * (height as int),
                            width == 0,
                    ;
                }
            }
            let x = idx % width;
            if x + 1 < width {
                proof {
                    // idx + 1 stays in the same row, hence inside the grid.
                    lemma_fundamental_div_mod(idx as int, w);
                    lemma_div_pos_is_pos(idx as int, w);
                    let q = (idx as int) / w;
                    assert(idx + 1 < n) by (nonlinear_arith)
                        requires
                            n == w * (height as int),
                            idx as int == w * q + x as int,
                            0 <= x as int,
                            x as int + 1 < w,
                            0 <= q,
                            (idx as int) < n,
                            w > 0,
                    ;
                }
                if cells[idx + 1] > 0 {
                    proof {
                        lemma_fundamental_div_mod(idx as int, w);
                        lemma_fundamental_div_mod_converse(
                            idx + 1,
                            w,
                            idx as int / w,
                            x as int + 1,
                        );
                        assert(adj4(cells@, width, idx as int, idx as int + 1));
                    }
                    join_adjacent(cells, width, &mut uf, idx, idx + 1);
                }
            }
            let ghost uf_mid = uf;
            proof {
                // Whether or not the right neighbour was joined:
                assert(uf.wf() && uf.len() == n && uf_sound(cells@, width, uf));
                assert(forall|s: int, t: int|
                    0 <= s < n && 0 <= t < n && uf_at_start.rep(s) == uf_at_start.rep(t)
                        ==> #[trigger] uf.rep(s) == #[trigger] uf.rep(t));
                assert((idx as int) % w == x as int);
                assert(fg(cells@, idx as int) && (idx as int) % w < w - 1 && fg(cells@, idx as int + 1)
                    ==> uf.rep(idx as int) == uf.rep(idx as int + 1));
            }
            if width < n - idx {
                if cells[idx + width] > 0 {
                    proof {
                        assert(adj4(cells@, width, idx as int, idx + w));
                    }
                    join_adjacent(cells, width, &mut uf, idx, idx + width);
                }
            }
            proof {
                assert(forall|s: int, t: int|
                    0 <= s < n && 0 <= t < n && uf_mid.rep(s) == uf_mid.rep(t)
                        ==> #[trigger] uf.rep(s) == #[trigger] uf.rep(t));
                assert(fg(cells@, idx as int) && idx + w < n && fg(cells@, idx + w) ==> uf.rep(
                    idx as int,
                ) == uf.rep(idx + w));
                assert(fg(cells@, idx as int) && (idx as int) % w < w - 1 && fg(cells@, idx as int + 1)
                    ==> uf.rep(idx as int) == uf.rep(idx as int + 1));
            }
        }
        proof {
            assert forall|c: int| 0 <= c < idx + 1 implies #[trigger] cell_joined(
                cells@,
                width,
                uf,
                c,
            ) by {
                if c < idx {
                    assert(cell_joined(cells@, width, uf_at_start, c));
                    assert(forall|s: int, t: int|
                        0 <= s < n && 0 <= t < n && uf_at_start.rep(s) == uf_at_start.rep(t)
                            ==> #[trigger] uf.rep(s) == #[trigger] uf.rep(t));
                }
            }
        }
        idx = idx + 1;
    }
    // Group the foreground cells by representative, in scan order.
    let mut roots: Vec<usize> = Vec::new();
    let mut regions: Vec<Vec<usize>> = Vec::new();
    let mut c: usize = 0;
    while c < n
        invariant
            n == cells@.len(),
            cells@.len() == (width as int) * (height as int),
            c <= n,
            uf.wf(),
            uf.len() == n,
            uf_sound(cells@, width, uf),
            forall|t: int| 0 <= t < n ==> #[trigger] cell_joined(cells@, width, uf, t),
            roots@.len() == regions@.len(),
            forall|k1: int, k2: int|
                0 <= k1 < k2 < roots@.len() ==> roots@[k1] != roots@[k2],
            forall|k: int| 0 <= k < regions@.len() ==> (#[trigger] regions@[k])@.len() > 0,
            forall|k: int, m: int|
                0 <= k < regions@.len() && 0 <= m < regions@[k]@.len() ==> fg(
                    cells@,
                    #[trigger] regions@[k]@[m] as int,
                ),
            forall|k: int, m: int|
                0 <= k < regions@.len() && 0 <= m < regions@[k]@.len()
                    ==> (#[trigger] regions@[k]@[m]) < c,
            forall|k: int, m: int|
                0 <= k < regions@.len() && 0 <= m < regions@[k]@.len() ==> uf.rep(
                    #[trigger] regions@[k]@[m] as int,
                ) == roots@[k] as int,
            forall|k: int, m1: int, m2: int|
                0 <= k < regions@.len() && 0 <= m1 < m2 < regions@[k]@.len()
                    ==> #[trigger] regions@[k]@[m1] < #[trigger] regions@[k]@[m2],
            forall|k1: int, k2: int|
                0 <= k1 < k2 < regions@.len() ==> (#[trigger] regions@[k1])@[0]
                    < (#[trigger] regions@[k2])@[0],
            forall|t: int|
                0 <= t < c && #[trigger] fg(cells@, t) ==> exists|k: int, m: int|
                    0 <= k < regions@.len() && 0 <= m < regions@[k]@.len() && regions@[k]@[m] == t,
        decreases n - c,
    {
        if cells[c] > 0 {
            let ghost uf0 = uf;
            let root = uf.find(c);
            proof {
                assert forall|t: int| 0 <= t < n implies #[trigger] cell_joined(
                    cells@,
                    width,
                    uf,
                    t,
                ) by {
                    assert(cell_joined(cells@, width, uf0, t));
                }
            }
            // Look for this representative among the regions seen so far.
            let mut pos: usize = 0;
            while pos < roots.len() && roots[pos] != root
                invariant
                    pos <= roots@.len(),
                    forall|t: int| 0 <= t < pos ==> roots@[t] != root,
                decreases roots@.len() - pos,
            {
                pos = pos + 1;
            }
            let ghost regions0 = regions@;
            if pos < roots.len() {
                let mut member_list = regions[pos].clone();
                proof {
                    assert(member_list@ =~= regions@[pos as int]@);
                }
                member_list.push(c);
                regions[pos] = member_list;
                proof {
                    assert(regions@[pos as int]@ == regions0[pos as int]@.push(c));
                }
            } else {
                roots.push(root);
                let mut member_list: Vec<usize> = Vec::new();
                member_list.push(c);
                regions.push(member_list);
            }
            proof {
                // Every foreground cell seen so far is still listed, and c
                // has just been listed.
                assert forall|t: int| 0 <= t < c + 1 && #[trigger] fg(cells@, t) implies exists|
                    k: int,
                    m: int,
                |
                    0 <= k < regions@.len() && 0 <= m < regions@[k]@.len() && regions@[k]@[m]
                        == t by {
                    if t < c {
                        let (k, m) = choose|k: int, m: int|
                            0 <= k < regions0.len() && 0 <= m < regions0[k]@.len()
                                && regions0[k]@[m] == t;
                        assert(0 <= k < regions@.len() && 0 <= m < regions@[k]@.len()
                            && regions@[k]@[m] == t);
                    } else {
                        if pos < regions0.len() {
                            let m = regions@[pos as int]@.len() - 1;
                            assert(regions@[pos as int]@[m] == c);
                        } else {
                            let k = regions@.len() - 1;
                            assert(regions@[k]@[0] == c);
                        }
                    }
                }
            }
        }
        c = c + 1;
    }
    proof {
        let rs = regions@;
        assert forall|k: int, m1: int, m2: int|
            0 <= k < rs.len() && 0 <= m1 < rs[k]@.len() && 0 <= m2 < rs[k]@.len() implies conn(
            cells@,
            width,
            #[trigger] rs[k]@[m1] as int,
            #[trigger] rs[k]@[m2] as int,
        ) by {
            let a = rs[k]@[m1] as int;
            let b = rs[k]@[m2] as int;
            assert(uf.rep(a) == uf.rep(b));
            if a == b {
                lemma_conn_refl(cells@, width, a);
            }
        }
        assert forall|k1: int, m1: int, k2: int, m2: int|
            0 <= k1 < rs.len() && 0 <= m1 < rs[k1]@.len() && 0 <= k2 < rs.len() && 0 <= m2
                < rs[k2]@.len() && #[trigger] conn(
            cells@,
            width,
            rs[k1]@[m1] as int,
            rs[k2]@[m2] as int,
        ) implies k1 == k2 by {
            let a = rs[k1]@[m1] as int;
            let b = rs[k2]@[m2] as int;
            let s = choose|s: Seq<int>|
                is_fg_path(cells@, width, s) && s[0] == a && s[s.len() - 1] == b;
            lemma_path_same_rep(cells@, width, uf, s);
            assert(uf.rep(a) == uf.rep(b));
            assert(roots@[k1] == roots@[k2]);
        }
    }
    regions
}


/// A grid with no cells groups into no regions.
pub proof fn lemma_no_cells_no_regions(cells: Seq<u8>, width: usize, rs: Seq<Vec<usize>>)
    requires
        cells.len() == 0,
        grouped(cells, width, rs),
    ensures
        rs.len() == 0,
{
    if rs.len() > 0 {
        assert(rs[0]@.len() > 0);
        assert(fg(cells, rs[0]@[0] as int));
    }
}

/// In a fully foreground grid, two cells of one row are connected along
/// that row.
proof fn lemma_row_conn(cells: Seq<u8>, width: usize, height: usize, y: int, x1: int, x2: int)
    requires
        cells.len() == (width as int) * (height as int),
        forall|c: int| 0 <= c < cells.len() ==> cells[c] > 0,
        0 <= y < height as int,
        0 <= x1 < width as int,
        0 <= x2 < width as int,
    ensures
        conn(cells, width, y * (width as int) + x1, y * (width as int) + x2),
    decreases
            if x1 <= x2 {
                x2 - x1
            } else {
                x1 - x2
            },
{
    let w = width as int;
    let h = height as int;
    let c1 = y * w + x1;
    assert(0 <= c1 < cells.len() && 0 <= y * w + x2 < cells.len()) by (nonlinear_arith)
        requires
            cells.len() == w * h,
            0 <= y < h,
            0 <= x1 < w,
            0 <= x2 < w,
            c1 == y * w + x1,
    ;
    if x1 == x2 {
        lemma_conn_refl(cells, width, c1);
    } else {
        let xm = if x1 < x2 {
            x1 + 1
        } else {
            x1 - 1
        };
        let cm = y * w + xm;
        assert(0 <= cm < cells.len()) by (nonlinear_arith)
            requires
                cells.len() == w * h,
                0 <= y < h,
                0 <= xm < w,
                cm == y * w + xm,
        ;
        lemma_fundamental_div_mod_converse(c1, w, y, x1);
        lemma_fundamental_div_mod_converse(cm, w, y, xm);
        assert(adj4(cells, width, c1, cm));
        lemma_conn_step(cells, width, c1, cm);
        lemma_row_conn(cells, width, height, y, xm, x2);
        lemma_conn_trans(cells, width, c1, cm, y * w + x2);
    }
}

/// In a fully foreground grid, two cells of one column are connected
/// along that column.
proof fn lemma_col_conn(cells: Seq<u8>, width: usize, height: usize, x: int, y1: int, y2: int)
    requires
        cells.len() == (width as int) * (height as int),
        forall|c: int| 0 <= c < cells.len() ==> cells[c] > 0,
        0 <= x < width as int,
        0 <= y1 < height as int,
        0 <= y2 < height as int,
    ensures
        conn(cells, width, y1 * (width as int) + x, y2 * (width as int) + x),
    decreases
            if y1 <= y2 {
                y2 - y1
            } else {
                y1 - y2
            },
{
    let w = width as int;
    let h = height as int;
    let c1 = y1 * w + x;
    assert(0 <= c1 < cells.len() && 0 <= y2 * w + x < cells.len()) by (nonlinear_arith)
        requires
            cells.len() == w * h,
            0 <= y1 < h,
            0 <= y2 < h,
            0 <= x < w,
            c1 == y1 * w + x,
    ;
    if y1 == y2 {
        lemma_conn_refl(cells, width, c1);
    } else {
        let ym = if y1 < y2 {
            y1 + 1
        } else {
            y1 - 1
        };
        let cm = ym * w + x;
        assert(0 <= cm < cells.len() && (cm == c1 + w || c1 == cm + w)) by (nonlinear_arith)
            requires
                cells.len() == w * h,
                0 <= ym < h,
                0 <= x < w,
                cm == ym * w + x,
                c1 == y1 * w + x,
                ym == y1 + 1 || y1 == ym + 1,
        ;
        assert(adj4(cells, width, c1, cm));
        lemma_conn_step(cells, width, c1, cm);
        lemma_col_conn(cells, width, height, x, ym, y2);
        lemma_conn_trans(cells, width, c1, cm, y2 * w + x);
    }
}

/// In a fully foreground grid, any two cells are connected: walk along
/// the first cell's row, then along the second cell's column.
pub proof fn lemma_full_grid_conn(cells: Seq<u8>, width: usize, height: usize, a: int, b: int)
    requires
        cells.len() == (width as int) * (height as int),
        cells.len() > 0,
        forall|c: int| 0 <= c < cells.len() ==> cells[c] > 0,
        0 <= a < cells.len(),
        0 <= b < cells.len(),
    ensures
        conn(cells, width, a, b),
{
    let w = width as int;
    let h = height as int;
    assert(w > 0) by (nonlinear_arith)
        requires
            cells.len() == w * h,
            cells.len() > 0,
            w >= 0,
            h >= 0,
    ;
    lemma_fundamental_div_mod(a, w);
    lemma_mod_bound(a, w);
    lemma_div_pos_is_pos(a, w);
    lemma_fundamental_div_mod(b, w);
    lemma_mod_bound(b, w);
    lemma_div_pos_is_pos(b, w);
    let xa = a % w;
    let ya = a / w;
    let xb = b % w;
    let yb = b / w;
    assert(ya < h && yb < h) by (nonlinear_arith)
        requires
            a == w * ya + xa,
            b == w * yb + xb,
            0 <= xa < w,
            0 <= xb < w,
            0 <= ya,
            0 <= yb,
            a < w * h,
            b < w * h,
    ;
    assert(a == ya * w + xa && b == yb * w + xb) by (nonlinear_arith)
        requires
            a == w * ya + xa,
            b == w * yb + xb,
    ;
    lemma_row_conn(cells, width, height, ya, xa, xb);
    lemma_col_conn(cells, width, height, xb, ya, yb);
    lemma_conn_trans(cells, width, a, ya * w + xb, b);
}

/// A fully foreground grid groups into exactly one region.
pub proof fn lemma_full_grid_single_region(
    cells: Seq<u8>,
    width: usize,
    height: usize,
    rs: Seq<Vec<usize>>,
)
    requires
        cells.len() == (width as int) * (height as int),
        cells.len() > 0,
        forall|c: int| 0 <= c < cells.len() ==> cells[c] > 0,
        grouped(cells, width, rs),
    ensures
        rs.len() == 1,
{
    assert(fg(cells, 0));
    assert(rs.len() >= 1) by {
        let (k, m) = choose|k: int, m: int|
            0 <= k < rs.len() && 0 <= m < rs[k]@.len() && rs[k]@[m] == 0;
    }
    if rs.len() > 1 {
        let a = rs[0]@[0] as int;
        let b = rs[1]@[0] as int;
        lemma_full_grid_conn(cells, width, height, a, b);
        assert(false);
    }
}

/// Union one adjacent foreground pair, keeping soundness of the mapping.
fn join_adjacent(cells: &Vec<u8>, width: usize, uf: &mut UnionFind, a: usize, b: usize)
    requires
        old(uf).wf(),
        old(uf).len() == cells@.len(),
        uf_sound(cells@, width, *old(uf)),
        fg(cells@, a as int),
        fg(cells@, b as int),
        adj4(cells@, width, a as int, b as int),
    ensures
        final(uf).wf(),
        final(uf).len() == cells@.len(),
        uf_sound(cells@, width, *final(uf)),
        final(uf).rep(a as int) == final(uf).rep(b as int),
        forall|s: int, t: int|
            0 <= s < cells@.len() && 0 <= t < cells@.len() && old(uf).rep(s) == old(uf).rep(t)
                ==> #[trigger] final(uf).rep(s) == #[trigger] final(uf).rep(t),
{
    let ghost uf0 = *uf;
    uf.union(a, b);
    proof {
        let n = cells@.len() as int;
        let m = uf.rep(a as int);
        lemma_conn_step(cells@, width, a as int, b as int);
        assert forall|s: int, t: int|
            0 <= s < n && 0 <= t < n && #[trigger] uf.rep(s) == #[trigger] uf.rep(t) implies (s == t
            || conn(cells@, width, s, t)) by {
            let rs0 = uf0.rep(s);
            let rt0 = uf0.rep(t);
            let ra0 = uf0.rep(a as int);
            let rb0 = uf0.rep(b as int);
            if (rs0 == ra0 || rs0 == rb0) && (rt0 == ra0 || rt0 == rb0) {
                // Both joined into the merged class: link each through a or b.
                let sa = if rs0 == ra0 { a as int } else { b as int };
                let ta = if rt0 == ra0 { a as int } else { b as int };
                assert(s == sa || conn(cells@, width, s, sa));
                assert(t == ta || conn(cells@, width, t, ta));
                assert(sa == ta || conn(cells@, width, sa, ta)) by {
                    if sa != ta {
                        if sa == a as int {
                            assert(conn(cells@, width, a as int, b as int));
                        } else {
                            lemma_conn_sym(cells@, width, a as int, b as int);
                        }
                    }
                }
                lemma_conn_oe_trans(cells@, width, s, sa, ta);
                assert(ta == t || conn(cells@, width, t, ta));
                if t != ta && conn(cells@, width, t, ta) {
                    lemma_conn_sym(cells@, width, t, ta);
                }
                lemma_conn_oe_trans(cells@, width, s, ta, t);
            } else {
                assert(rs0 == rt0);
            }
        }
    }
}

} // verus!
