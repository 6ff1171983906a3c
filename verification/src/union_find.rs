//! Disjoint-set structure used to group foreground cells into regions.
//!
//! The structure is a forest held in a parent array, with union by rank and
//! iterative path compression.  Its abstract view is the representative
//! mapping `rep`: two indices are in one set exactly when their
//! representatives are equal.  The contracts of `new`, `find` and `union`
//! describe the structure entirely through that mapping.

use vstd::prelude::*;

verus! {

use vstd::set_lib::lemma_int_range;
use vstd::set_lib::lemma_len_subset;
use vstd::set_lib::set_int_range;

/// One step of the parent walk, bounded by `fuel` so that the walk is total.
pub open spec fn root_step(p: Seq<usize>, i: int, fuel: nat) -> int
    decreases fuel,
{
    if fuel == 0 || !(0 <= i < p.len()) {
        i
    } else if p[i] == i {
        i
    } else {
        root_step(p, p[i] as int, (fuel - 1) as nat)
    }
}

/// The root reached from `i` by following parent links; `p.len()` steps
/// always suffice for a well-formed forest.
pub open spec fn root_of(p: Seq<usize>, i: int) -> int {
    root_step(p, i, p.len())
}

/// Every parent link stays inside the arena.
pub open spec fn parent_ok(p: Seq<usize>) -> bool {
    forall|i: int| 0 <= i < p.len() ==> (#[trigger] p[i]) < p.len()
}

/// Ranks strictly increase along parent links and stay below the arena
/// size, which bounds the length of every parent chain.
pub open spec fn ranks_ok(p: Seq<usize>, r: Seq<usize>) -> bool {
    &&& r.len() == p.len()
    &&& forall|i: int| 0 <= i < p.len() && (#[trigger] p[i]) != i ==> r[i] < r[p[i] as int]
    &&& forall|i: int| 0 <= i < p.len() ==> (#[trigger] r[i]) < p.len()
}

pub open spec fn wf_core(p: Seq<usize>, r: Seq<usize>) -> bool {
    parent_ok(p) && ranks_ok(p, r)
}

/// The set of indices whose root is `a`.
pub open spec fn class_of(p: Seq<usize>, a: int) -> Set<int> {
    Set::new(|j: int| 0 <= j < p.len() && root_of(p, j) == a)
}

/// A root's rank is strictly below the size of its class; this keeps ranks
/// below the arena size when `union` bumps a rank.
pub open spec fn class_inv(p: Seq<usize>, r: Seq<usize>) -> bool {
    forall|a: int|
        0 <= a < p.len() && (#[trigger] p[a]) == a ==> (r[a] as int) < class_of(p, a).len()
}

pub proof fn lemma_class_finite(p: Seq<usize>, a: int)
    ensures
        class_of(p, a).finite(),
        class_of(p, a).len() <= p.len(),
{
    lemma_int_range(0, p.len() as int);
    lemma_len_subset(class_of(p, a), set_int_range(0, p.len() as int));
}

/// Any fuel of at least `p.len() - r[i]` reaches the root, and all such
/// fuels agree.
proof fn lemma_root_step_fuel(p: Seq<usize>, r: Seq<usize>, i: int, f1: nat, f2: nat)
    requires
        wf_core(p, r),
        0 <= i < p.len(),
        f1 >= p.len() - r[i],
        f2 >= p.len() - r[i],
    ensures
        root_step(p, i, f1) == root_step(p, i, f2),
        0 <= root_step(p, i, f1) < p.len(),
        p[root_step(p, i, f1)] == root_step(p, i, f1),
    decreases f1,
{
    if p[i] == i {
    } else {
        let j = p[i] as int;
        assert(r[i] < r[j]);
        assert(f1 >= 1 && f2 >= 1);
        lemma_root_step_fuel(p, r, j, (f1 - 1) as nat, (f2 - 1) as nat);
    }
}

/// The root is a fixed point of the parent array, and lies in range.
pub proof fn lemma_root_reaches(p: Seq<usize>, r: Seq<usize>, i: int)
    requires
        wf_core(p, r),
        0 <= i < p.len(),
    ensures
        0 <= root_of(p, i) < p.len(),
        p[root_of(p, i)] == root_of(p, i),
{
    lemma_root_step_fuel(p, r, i, p.len(), p.len());
}

/// Following one parent link does not change the root.
pub proof fn lemma_root_unfold(p: Seq<usize>, r: Seq<usize>, i: int)
    requires
        wf_core(p, r),
        0 <= i < p.len(),
        p[i] != i,
    ensures
        root_of(p, i) == root_of(p, p[i] as int),
    decreases p.len(),
{
    let j = p[i] as int;
    assert(root_of(p, i) == root_step(p, j, (p.len() - 1) as nat));
    lemma_root_step_fuel(p, r, j, (p.len() - 1) as nat, p.len());
}

/// A non-root's rank is strictly below its root's rank.
pub proof fn lemma_rank_lt_root(p: Seq<usize>, r: Seq<usize>, i: int)
    requires
        wf_core(p, r),
        0 <= i < p.len(),
        p[i] != i,
    ensures
        r[i] < r[root_of(p, i)],
    decreases p.len() - r[i],
{
    let j = p[i] as int;
    lemma_root_unfold(p, r, i);
    if p[j] == j {
        lemma_root_reaches(p, r, j);
    } else {
        lemma_rank_lt_root(p, r, j);
    }
}

/// Re-pointing a non-root directly at its root keeps the forest well formed.
proof fn lemma_compress_core(p: Seq<usize>, r: Seq<usize>, c: int)
    requires
        wf_core(p, r),
        0 <= c < p.len(),
        p[c] != c,
    ensures
        wf_core(p.update(c, root_of(p, c) as usize), r),
{
    lemma_root_reaches(p, r, c);
    lemma_rank_lt_root(p, r, c);
}

/// Re-pointing a non-root directly at its root changes no index's root.
proof fn lemma_compress_roots(p: Seq<usize>, r: Seq<usize>, c: int, j: int)
    requires
        wf_core(p, r),
        0 <= c < p.len(),
        p[c] != c,
        0 <= j < p.len(),
    ensures
        root_of(p.update(c, root_of(p, c) as usize), j) == root_of(p, j),
    decreases p.len() - r[j],
{
    let rc = root_of(p, c);
    lemma_root_reaches(p, r, c);
    let q = p.update(c, rc as usize);
    lemma_compress_core(p, r, c);
    if p[j] == j {
        // j is a root; it cannot be c, so it stays a root.
        assert(q[j] == j);
    } else {
        let k = p[j] as int;
        lemma_root_unfold(p, r, j);
        if j == c {
            // q[c] is the old root of c, which is still a root in q.
            assert(q[c] == rc as usize);
            assert(rc != c);
            assert(q[rc] == rc);
            lemma_root_unfold(q, r, c);
            lemma_root_reaches(q, r, rc);
        } else {
            assert(q[j] == p[j]);
            lemma_root_unfold(q, r, j);
            lemma_compress_roots(p, r, c, k);
        }
    }
}

/// Attaching root `b` under root `a` of strictly larger rank keeps the
/// forest well formed.
proof fn lemma_union_core(p: Seq<usize>, r: Seq<usize>, a: int, b: int)
    requires
        wf_core(p, r),
        0 <= a < p.len(),
        0 <= b < p.len(),
        p[a] == a,
        p[b] == b,
        a != b,
        r[b] < r[a],
    ensures
        wf_core(p.update(b, a as usize), r),
{
}

/// Attaching root `b` under root `a` moves exactly `b`'s class to `a`.
proof fn lemma_union_roots(p: Seq<usize>, r: Seq<usize>, a: int, b: int, j: int)
    requires
        wf_core(p, r),
        0 <= a < p.len(),
        0 <= b < p.len(),
        p[a] == a,
        p[b] == b,
        a != b,
        r[b] < r[a],
        0 <= j < p.len(),
    ensures
        root_of(p.update(b, a as usize), j) == if root_of(p, j) == b {
            a
        } else {
            root_of(p, j)
        },
    decreases p.len() - r[j],
{
    let q = p.update(b, a as usize);
    lemma_union_core(p, r, a, b);
    if p[j] == j {
        if j == b {
            lemma_root_unfold(q, r, b);
            assert(q[a] == a);
        } else {
            assert(q[j] == j);
        }
    } else {
        let k = p[j] as int;
        assert(j != b);
        assert(q[j] == p[j]);
        lemma_root_unfold(p, r, j);
        lemma_root_unfold(q, r, j);
        lemma_union_roots(p, r, a, b, k);
    }
}

/// Disjoint-set arena over the indices `0 .. n`, with union by rank and
/// iterative path compression.
pub struct UnionFind {
    parent: Vec<usize>,
    rank: Vec<usize>,
}

impl UnionFind {
    /// Number of elements in the arena.
    pub closed spec fn len(self) -> nat {
        self.parent@.len()
    }

    /// Structural invariant of the forest.
    pub closed spec fn wf(self) -> bool {
        wf_core(self.parent@, self.rank@) && class_inv(self.parent@, self.rank@)
    }

    /// Representative of `i`: the root of its tree.  Two indices are in one
    /// set exactly when their representatives are equal.
    pub closed spec fn rep(self, i: int) -> int {
        root_of(self.parent@, i)
    }

    pub fn new(n: usize) -> (uf: UnionFind)
        ensures
            uf.wf(),
            uf.len() == n,
            forall|i: int| 0 <= i < n ==> uf.rep(i) == i,
    {
        let mut parent: Vec<usize> = Vec::new();
        let mut rank: Vec<usize> = Vec::new();
        let mut i: usize = 0;
        while i < n
            invariant
                i <= n,
                parent@.len() == i,
                rank@.len() == i,
                forall|k: int| 0 <= k < i ==> parent@[k] == k,
                forall|k: int| 0 <= k < i ==> rank@[k] == 0,
            decreases n - i,
        {
            parent.push(i);
            rank.push(0);
            i = i + 1;
        }
        let uf = UnionFind { parent, rank };
        proof {
            let p = uf.parent@;
            assert forall|j: int| 0 <= j < n implies #[trigger] root_of(p, j) == j by {
                assert(p[j] == j);
            }
            assert forall|a: int|
                0 <= a < p.len() && (#[trigger] p[a]) == a implies (uf.rank@[a] as int) < class_of(
                p,
                a,
            ).len() by {
                lemma_class_finite(p, a);
                assert(class_of(p, a).contains(a));
                assert(class_of(p, a).remove(a).insert(a) == class_of(p, a));
                assert(class_of(p, a).len() >= 1);
            }
        }
        uf
    }

    /// Root lookup with path compression.  The representative mapping is
    /// unchanged; the returned index is `i`'s representative.
    pub fn find(&mut self, i: usize) -> (root: usize)
        requires
            old(self).wf(),
            i < old(self).len(),
        ensures
            final(self).wf(),
            final(self).len() == old(self).len(),
            forall|k: int| 0 <= k < final(self).len() ==> final(self).rep(k) == old(self).rep(k),
            root < final(self).len(),
            root as int == old(self).rep(i as int),
            final(self).rep(root as int) == root as int,
    {
        proof {
            lemma_root_reaches(self.parent@, self.rank@, i as int);
        }
        // First pass: walk to the root without mutating.
        let ghost p0 = self.parent@;
        let ghost r0 = self.rank@;
        let mut curr: usize = i;
        while self.parent[curr] != curr
            invariant
                wf_core(p0, r0),
                self.parent@ == p0,
                self.rank@ == r0,
                (curr as int) < p0.len(),
                root_of(p0, curr as int) == root_of(p0, i as int),
            decreases p0.len() - r0[curr as int],
        {
            proof {
                lemma_root_unfold(p0, r0, curr as int);
            }
            curr = self.parent[curr];
        }
        let root = curr;
        proof {
            assert(root_of(p0, root as int) == root as int);
        }
        // Second pass: point every node on the walk straight at the root.
        let mut c: usize = i;
        while c != root
            invariant
                wf_core(self.parent@, self.rank@),
                self.parent@.len() == p0.len(),
                self.rank@ == r0,
                (c as int) < p0.len(),
                (root as int) < p0.len(),
                root_of(self.parent@, c as int) == root as int,
                forall|k: int|
                    0 <= k < p0.len() ==> #[trigger] root_of(self.parent@, k) == root_of(p0, k),
            decreases p0.len() - r0[c as int],
        {
            let ghost pcur = self.parent@;
            proof {
                // c is not the root it reaches, so it is not a fixed point.
                if pcur[c as int] == c as int {
                    assert(root_of(pcur, c as int) == c as int);
                }
                lemma_compress_core(pcur, r0, c as int);
                lemma_root_unfold(pcur, r0, c as int);
                lemma_rank_lt_root(pcur, r0, c as int);
                assert forall|k: int| 0 <= k < p0.len() implies #[trigger] root_of(
                    pcur.update(c as int, root),
                    k,
                ) == root_of(pcur, k) by {
                    lemma_compress_roots(pcur, r0, c as int, k);
                }
            }
            let next = self.parent[c];
            self.parent[c] = root;
            c = next;
            proof {
                assert(root_of(pcur, next as int) == root as int);
            }
        }
        proof {
            let p1 = self.parent@;
            assert forall|a: int|
                0 <= a < p1.len() && (#[trigger] p1[a]) == a implies (self.rank@[a] as int)
                < class_of(p1, a).len() by {
                // Roots and classes are unchanged by compression.
                assert(root_of(p1, a) == root_of(p0, a));
                assert(root_of(p0, a) == a || p0[a] != a);
                if p0[a] != a {
                    // impossible: a non-root's rank sits strictly below its
                    // root's, so it cannot be its own root, yet compression
                    // kept every root_of value
                    lemma_root_unfold(p0, r0, a);
                    lemma_rank_lt_root(p0, r0, a);
                    assert(root_of(p1, a) == a);
                }
                assert(p0[a] == a);
                assert(class_of(p1, a) =~= class_of(p0, a));
            }
        }
        root
    }

    /// Merge the sets of `i` and `j`; reports whether two distinct sets
    /// were merged.  Afterwards both are in one set whose representative is
    /// that of one of the two old sets; all other sets are unchanged.
    pub fn union(&mut self, i: usize, j: usize) -> (merged: bool)
        requires
            old(self).wf(),
            i < old(self).len(),
            j < old(self).len(),
        ensures
            final(self).wf(),
            final(self).len() == old(self).len(),
            merged == (old(self).rep(i as int) != old(self).rep(j as int)),
            final(self).rep(i as int) == final(self).rep(j as int),
            final(self).rep(i as int) == old(self).rep(i as int) || final(self).rep(i as int) == old(self).rep(
                j as int,
            ),
            forall|k: int|
                0 <= k < final(self).len() ==> #[trigger] final(self).rep(k) == if old(self).rep(k) == old(
                    self,
                ).rep(i as int) || old(self).rep(k) == old(self).rep(j as int) {
                    final(self).rep(i as int)
                } else {
                    old(self).rep(k)
                },
    {
        let ri = self.find(i);
        let rj = self.find(j);
        if ri == rj {
            return false;
        }
        proof {
            lemma_root_reaches(self.parent@, self.rank@, i as int);
            lemma_root_reaches(self.parent@, self.rank@, j as int);
        }
        let ghost p1 = self.parent@;
        let ghost r1 = self.rank@;
        if self.rank[ri] < self.rank[rj] {
            self.attach(ri, rj);
        } else if self.rank[ri] > self.rank[rj] {
            self.attach(rj, ri);
        } else {
            // Equal ranks: attach rj under ri after bumping ri's rank, so
            // that ranks stay strictly increasing along parent links.
            let arena = self.parent.len();
            proof {
                assert(p1.len() == arena);
                lemma_class_finite(p1, ri as int);
                // rj's class is disjoint from ri's and holds rj, so ri's
                // class has at most len - 1 members and the bumped rank
                // stays below len.
                lemma_int_range(0, p1.len() as int);
                assert(set_int_range(0, p1.len() as int).contains(rj as int));
                assert(set_int_range(0, p1.len() as int).remove(rj as int).len() == p1.len() - 1);
                assert(class_of(p1, ri as int).subset_of(
                    set_int_range(0, p1.len() as int).remove(rj as int),
                )) by {
                    assert forall|k: int| class_of(p1, ri as int).contains(k) implies set_int_range(
                        0,
                        p1.len() as int,
                    ).remove(rj as int).contains(k) by {
                        assert(root_of(p1, k) == ri as int);
                        assert(root_of(p1, rj as int) == rj as int);
                    }
                }
                lemma_len_subset(
                    class_of(p1, ri as int),
                    set_int_range(0, p1.len() as int).remove(rj as int),
                );
                assert((r1[ri as int] as int) < class_of(p1, ri as int).len());
                assert((r1[ri as int] as int) + 1 < p1.len());
            }
            self.rank[ri] = self.rank[ri] + 1;
            proof {
                let r2 = self.rank@;
                assert forall|k: int|
                    0 <= k < p1.len() && (#[trigger] p1[k]) != k implies r2[k] < r2[p1[k] as int] by {
                    assert(r1[k] < r1[p1[k] as int]);
                }
                // Ranks play no part in the value of root_of or class_of.
            }
            self.attach(rj, ri);
        }
        true
    }

    /// Attach root `b` under root `a`, whose rank is strictly larger.
    fn attach(&mut self, b: usize, a: usize)
        requires
            wf_core(old(self).parent@, old(self).rank@),
            forall|x: int|
                0 <= x < old(self).len() && (#[trigger] old(self).parent@[x]) == x && x != a
                    ==> (old(self).rank@[x] as int) < class_of(old(self).parent@, x).len(),
            (old(self).rank@[a as int] as int) <= class_of(old(self).parent@, a as int).len(),
            (a as int) < old(self).len(),
            (b as int) < old(self).len(),
            old(self).parent@[a as int] == a,
            old(self).parent@[b as int] == b,
            a != b,
            old(self).rank@[b as int] < old(self).rank@[a as int],
        ensures
            final(self).wf(),
            final(self).len() == old(self).len(),
            forall|k: int|
                0 <= k < final(self).len() ==> #[trigger] final(self).rep(k) == if old(self).rep(k) == b {
                    a as int
                } else {
                    old(self).rep(k)
                },
    {
        let ghost p1 = self.parent@;
        let ghost r1 = self.rank@;
        self.parent[b] = a;
        proof {
            let p2 = self.parent@;
            lemma_union_core(p1, r1, a as int, b as int);
            assert forall|k: int| 0 <= k < p2.len() implies #[trigger] root_of(p2, k) == (if root_of(
                p1,
                k,
            ) == b {
                a as int
            } else {
                root_of(p1, k)
            }) by {
                lemma_union_roots(p1, r1, a as int, b as int, k);
            }
            assert forall|x: int|
                0 <= x < p2.len() && (#[trigger] p2[x]) == x implies (r1[x] as int) < class_of(
                p2,
                x,
            ).len() by {
                assert(x != b as int);
                assert(p1[x] == x);
                if x == a as int {
                    // a's class gains at least the old root b.
                    let old_a = class_of(p1, a as int);
                    lemma_class_finite(p1, a as int);
                    lemma_class_finite(p2, a as int);
                    assert(root_of(p1, b as int) == b as int);
                    assert(root_of(p2, b as int) == a as int);
                    assert(!old_a.contains(b as int));
                    assert(old_a.insert(b as int).subset_of(class_of(p2, a as int)));
                    lemma_len_subset(old_a.insert(b as int), class_of(p2, a as int));
                    assert(old_a.insert(b as int).len() == old_a.len() + 1);
                } else {
                    assert(class_of(p1, x) =~= class_of(p2, x));
                }
            }
        }
    }
}

} // verus!
