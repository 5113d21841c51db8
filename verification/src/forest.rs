//! The disjoint-set forest: a fixed universe of `n` elements, a parent table
//! defining one tree per group, and a weight table steering the size-weighted
//! merge.  Queries never mutate; merges never disconnect.

use vstd::prelude::*;

verus! {

use crate::paths::{
    all_reach, count_roots_below, dist_from, in_range, lemma_count_roots_identity,
    lemma_count_roots_update, lemma_dist_bound, lemma_reaches_len_fuel, lemma_reaches_mono,
    lemma_reattach, lemma_root_props, reaches_root, root_from,
};

/// The error a forest operation reports.
#[derive(Debug, Clone, Copy, PartialEq, Eq, Structural)]
pub enum UfError {
    /// An element index at or beyond the forest's size was given.
    IndexOutOfRange,
}

/// A disjoint-set forest over the elements `0 .. n - 1`.
///
/// `c[i]` is the parent of element `i`; an element that is its own parent is
/// the root of its group.  `sz[i]` is a merge-decision weight kept at the
/// index handed to `union`, not at its root — a deliberate trait of this
/// design, so the weights approximate tree sizes rather than measure them.
pub struct UF {
    /// Number of elements; fixed at construction.
    pub n: usize,
    /// Parent table, one entry per element.
    pub c: Vec<usize>,
    /// Weight table, one entry per element, read and written by `union`.
    pub sz: Vec<usize>,
}

/// After a merge of the groups of `p` and `q`, two elements are connected
/// exactly when they already were, or when they straddled the two groups.
pub open spec fn merged(pre: UF, post: UF, p: int, q: int) -> bool {
    forall|x: int, y: int|
        pre.valid_index(x) && pre.valid_index(y) ==> (#[trigger] post.connected(x, y)
            <==> (pre.connected(x, y) || (pre.connected(x, p) && pre.connected(q, y)) || (
        pre.connected(x, q) && pre.connected(p, y))))
}

/// Saturating addition on `usize`: the weight bookkeeping tops out at
/// `usize::MAX` instead of overflowing.
pub open spec fn sat_add_spec(a: usize, b: usize) -> usize {
    if a + b <= usize::MAX {
        (a + b) as usize
    } else {
        usize::MAX
    }
}

fn sat_add(a: usize, b: usize) -> (r: usize)
    ensures
        r == sat_add_spec(a, b),
{
    if b <= usize::MAX - a {
        a + b
    } else {
        usize::MAX
    }
}

/// The effect of one structural merge step on the group model.
///
/// `post` differs from `pre` in exactly one parent entry: the root of `b`'s
/// tree now points at `v`, an element of `a`'s group.  Then every chain still
/// ends at a root, `b`'s old group has been absorbed into `a`'s, every other
/// group is untouched, and the number of groups drops by one unless `a` and
/// `b` were already together (in which case nothing changed at all).
proof fn lemma_attach_tree(pre: UF, post: UF, a: int, b: int, v: usize)
    requires
        pre.wf(),
        pre.valid_index(a),
        pre.valid_index(b),
        v < pre.n,
        pre.root_of(v as int) == pre.root_of(a),
        pre.root_of(a) == pre.root_of(b) ==> v as int == pre.root_of(b),
        post.n == pre.n,
        post.c@ == pre.c@.update(pre.root_of(b), v),
        post.sz@.len() == pre.sz@.len(),
    ensures
        post.wf(),
        post.connected(a, b),
        merged(pre, post, a, b),
        merged(pre, post, b, a),
        forall|x: int, y: int|
            pre.valid_index(x) && pre.valid_index(y) && pre.connected(x, y)
                ==> #[trigger] post.connected(x, y),
        forall|i: int|
            pre.valid_index(i) ==> #[trigger] post.root_of(i) == (if pre.root_of(i)
                == pre.root_of(b) {
                pre.root_of(a)
            } else {
                pre.root_of(i)
            }),
        pre.connected(a, b) ==> post.c@ == pre.c@,
        pre.connected(a, b) ==> post.num_groups() == pre.num_groups(),
        !pre.connected(a, b) ==> post.num_groups() + 1 == pre.num_groups(),
{
    let c = pre.c@;
    let len = c.len();
    let c2 = post.c@;
    let ra = pre.root_of(a);
    let rb = pre.root_of(b);
    assert(len == pre.n as nat);
    assert(reaches_root(c, a, pre.n as nat));
    assert(reaches_root(c, b, pre.n as nat));
    assert(reaches_root(c, v as int, pre.n as nat));
    lemma_root_props(c, a, len);
    lemma_root_props(c, b, len);
    lemma_root_props(c, v as int, len);
    if ra == rb {
        assert(c2 =~= c);
        assert forall|x: int, y: int| pre.valid_index(x) && pre.valid_index(y) implies (
        #[trigger] post.connected(x, y) <==> (pre.connected(x, y) || (pre.connected(x, a)
            && pre.connected(b, y)) || (pre.connected(x, b) && pre.connected(a, y)))) by {
            assert(post.root_of(x) == pre.root_of(x));
            assert(post.root_of(y) == pre.root_of(y));
        }
        assert forall|i: int| pre.valid_index(i) implies #[trigger] post.root_of(i) == (if pre
            .root_of(i) == pre.root_of(b) {
            pre.root_of(a)
        } else {
            pre.root_of(i)
        }) by {
            assert(post.root_of(i) == pre.root_of(i));
        }
    } else {
        assert(root_from(c, v as int, len) != rb);
        assert(v as int != rb);
        assert(all_reach(c, len));
        assert forall|i: int| 0 <= i < len implies #[trigger] reaches_root(c2, i, len) by {
            lemma_attach_point(c, rb, v, i);
        }
        assert(all_reach(c2, len));
        assert(in_range(c2)) by {
            lemma_attach_point(c, rb, v, a);
        }
        assert(post.wf());
        assert forall|i: int| pre.valid_index(i) implies #[trigger] post.root_of(i) == (if pre
            .root_of(i) == pre.root_of(b) {
            pre.root_of(a)
        } else {
            pre.root_of(i)
        }) by {
            lemma_attach_point(c, rb, v, i);
        }
        assert forall|x: int, y: int| pre.valid_index(x) && pre.valid_index(y) implies (
        #[trigger] post.connected(x, y) <==> (pre.connected(x, y) || (pre.connected(x, a)
            && pre.connected(b, y)) || (pre.connected(x, b) && pre.connected(a, y)))) by {
            lemma_attach_point(c, rb, v, x);
            lemma_attach_point(c, rb, v, y);
        }
        lemma_count_roots_update(c, rb, v, len);
    }
}

/// One index's chain after a root `r` has been re-pointed at `v`: it still
/// ends at a root within `c.len()` links, at `v`'s root if it used to end at
/// `r` and at its old root otherwise.
proof fn lemma_attach_point(c: Seq<usize>, r: int, v: usize, i: int)
    requires
        in_range(c),
        all_reach(c, c.len()),
        0 <= i < c.len(),
        0 <= r < c.len(),
        v < c.len(),
        c[r] as int == r,
        root_from(c, v as int, c.len()) != r,
    ensures
        in_range(c.update(r, v)),
        reaches_root(c.update(r, v), i, c.len()),
        root_from(c.update(r, v), i, c.len()) == (if root_from(c, i, c.len()) == r {
            root_from(c, v as int, c.len())
        } else {
            root_from(c, i, c.len())
        }),
{
    let c2 = c.update(r, v);
    let len = c.len();
    assert forall|j: int| 0 <= j < c2.len() implies c2[j] < c2.len() by {
        if j != r {
            assert(c2[j] == c[j]);
        }
    }
    assert(reaches_root(c, i, len));
    assert(reaches_root(c, v as int, len));
    lemma_reattach(c, r, v, i, len, len);
    lemma_reaches_len_fuel(c2, i, (len + len + 1) as nat);
}

impl UF {
    /// Structural invariant: both tables sized to the universe, every parent
    /// link in range, and every chain of parent links ending at a root.
    pub open spec fn wf(self) -> bool {
        &&& self.c@.len() == self.n
        &&& self.sz@.len() == self.n
        &&& in_range(self.c@)
        &&& all_reach(self.c@, self.n as nat)
    }

    /// `i` names an element of this forest.
    pub open spec fn valid_index(self, i: int) -> bool {
        0 <= i < self.n
    }

    /// The root of the tree that element `i` belongs to.
    pub open spec fn root_of(self, i: int) -> int {
        root_from(self.c@, i, self.c@.len() as nat)
    }

    /// The number of parent links from `i` up to its root.
    pub open spec fn depth_of(self, i: int) -> nat {
        dist_from(self.c@, i, self.c@.len() as nat)
    }

    /// Two elements are in the same group exactly when they share a root.
    pub open spec fn connected(self, p: int, q: int) -> bool {
        self.root_of(p) == self.root_of(q)
    }

    /// The number of distinct groups: one root per group.
    pub open spec fn num_groups(self) -> nat {
        count_roots_below(self.c@, self.c@.len() as nat)
    }

    /// Builds a forest of `n` singleton groups: every element its own root,
    /// every weight zero.
    pub fn init(n: usize) -> (uf: UF)
        ensures
            uf.wf(),
            uf.n == n,
            forall|i: int| 0 <= i < n ==> uf.c@[i] as int == i,
            forall|i: int| 0 <= i < n ==> uf.sz@[i] == 0,
            forall|p: int, q: int|
                0 <= p < n && 0 <= q < n ==> (#[trigger] uf.connected(p, q) <==> p == q),
            uf.num_groups() == n,
    {
        let mut c: Vec<usize> = Vec::new();
        let mut sz: Vec<usize> = Vec::new();
        let mut i: usize = 0;
        while i < n
            invariant
                i <= n,
                c@.len() == i,
                sz@.len() == i,
                forall|j: int| 0 <= j < i ==> c@[j] as int == j,
                forall|j: int| 0 <= j < i ==> sz@[j] == 0,
            decreases n - i,
        {
            c.push(i);
            sz.push(0);
            i = i + 1;
        }
        let uf = UF { n, c, sz };
        proof {
            assert forall|j: int| 0 <= j < n implies reaches_root(uf.c@, j, n as nat) by {
                assert(uf.c@[j] as int == j);
            }
            assert forall|j: int| 0 <= j < n implies #[trigger] uf.root_of(j) == j by {
                assert(uf.c@[j] as int == j);
            }
            lemma_count_roots_identity(uf.c@, n as nat);
        }
        uf
    }

    /// Walks parent links from `p` to its root.  A pure read: no path
    /// compression, no mutation.
    fn root_idx(&self, p: usize) -> (r: usize)
        requires
            self.wf(),
            p < self.n,
        ensures
            r < self.n,
            r as int == self.root_of(p as int),
            self.c@[r as int] == r,
    {
        let mut x: usize = p;
        let ghost mut fuel: nat = self.n as nat;
        proof {
            assert(reaches_root(self.c@, p as int, self.n as nat));
        }
        while self.c[x] != x
            invariant
                self.wf(),
                p < self.n,
                x < self.n,
                fuel <= self.n,
                reaches_root(self.c@, x as int, fuel),
                root_from(self.c@, x as int, fuel) == self.root_of(p as int),
            decreases fuel,
        {
            proof {
                fuel = (fuel - 1) as nat;
            }
            x = self.c[x];
        }
        x
    }

    /// The root of the tree containing `p`, or `IndexOutOfRange` when `p` is
    /// not an element.
    pub fn find_root(&self, p: usize) -> (r: Result<usize, UfError>)
        requires
            self.wf(),
        ensures
            match r {
                Ok(root) => {
                    &&& p < self.n
                    &&& root < self.n
                    &&& root as int == self.root_of(p as int)
                    &&& self.c@[root as int] == root
                },
                Err(e) => p >= self.n && e == UfError::IndexOutOfRange,
            },
    {
        if p >= self.n {
            return Err(UfError::IndexOutOfRange);
        }
        Ok(self.root_idx(p))
    }

    /// Whether `p` and `q` are in the same group, or `IndexOutOfRange` when
    /// either is not an element.  A pure query: any number of calls returns
    /// the same answer and mutates nothing.
    pub fn is_connected(&self, p: usize, q: usize) -> (r: Result<bool, UfError>)
        requires
            self.wf(),
        ensures
            match r {
                Ok(b) => {
                    &&& p < self.n
                    &&& q < self.n
                    &&& b == self.connected(p as int, q as int)
                },
                Err(e) => (p >= self.n || q >= self.n) && e == UfError::IndexOutOfRange,
            },
    {
        if p >= self.n || q >= self.n {
            return Err(UfError::IndexOutOfRange);
        }
        Ok(self.root_idx(p) == self.root_idx(q))
    }

    /// Merges the groups containing `p` and `q` with the size-weighted
    /// heuristic: the weights at the query indices `p` and `q` themselves
    /// decide which root is attached under which, and only those two indices'
    /// weights are ever updated.  Merging already-connected elements leaves
    /// the parent table as it is but still updates the weights.
    pub fn union(&mut self, p: usize, q: usize) -> (r: Result<(), UfError>)
        requires
            old(self).wf(),
        ensures
            final(self).n == old(self).n,
            match r {
                Ok(_) => {
                    &&& p < old(self).n
                    &&& q < old(self).n
                    &&& final(self).wf()
                    &&& final(self).connected(p as int, q as int)
                    &&& merged(*old(self), *final(self), p as int, q as int)
                    &&& (forall|x: int, y: int|
                        old(self).valid_index(x) && old(self).valid_index(y) && old(
                            self,
                        ).connected(x, y) ==> #[trigger] final(self).connected(x, y))
                    &&& (old(self).connected(p as int, q as int) ==> final(self).c@ == old(self).c@
                        && final(self).num_groups() == old(self).num_groups())
                    &&& (!old(self).connected(p as int, q as int) ==> final(self).num_groups() + 1
                        == old(self).num_groups())
                    &&& final(self).root_of(p as int) == (if old(self).sz@[p as int] < old(
                        self,
                    ).sz@[q as int] {
                        old(self).root_of(q as int)
                    } else {
                        old(self).root_of(p as int)
                    })
                    &&& ({
                        let ps = old(self).sz@[p as int];
                        let qs = old(self).sz@[q as int];
                        &&& (ps == qs ==> final(self).sz@ == old(self).sz@.update(
                            p as int,
                            sat_add_spec(ps, 1),
                        ))
                        &&& (ps < qs ==> final(self).sz@ == old(self).sz@.update(
                            q as int,
                            sat_add_spec(qs, ps),
                        ))
                        &&& (ps > qs ==> final(self).sz@ == old(self).sz@.update(
                            p as int,
                            sat_add_spec(ps, qs),
                        ))
                    })
                },
                Err(e) => {
                    &&& (p >= old(self).n || q >= old(self).n)
                    &&& e == UfError::IndexOutOfRange
                    &&& final(self).c@ == old(self).c@
                    &&& final(self).sz@ == old(self).sz@
                },
            },
    {
        if p >= self.n || q >= self.n {
            return Err(UfError::IndexOutOfRange);
        }
        let p_root = self.root_idx(p);
        let q_root = self.root_idx(q);
        let sp = self.sz[p];
        let sq = self.sz[q];
        let ghost pre = *self;
        if sp == sq {
            self.c.set(q_root, p_root);
            let w = sat_add(sp, 1);
            self.sz.set(p, w);
            proof {
                assert(pre.root_of(p_root as int) == p_root as int);
                lemma_attach_tree(pre, *self, p as int, q as int, p_root);
            }
        } else if sp < sq {
            self.c.set(p_root, q_root);
            let w = sat_add(sq, sp);
            self.sz.set(q, w);
            proof {
                assert(pre.root_of(q_root as int) == q_root as int);
                lemma_attach_tree(pre, *self, q as int, p as int, q_root);
            }
        } else {
            self.c.set(q_root, p_root);
            let w = sat_add(sp, sq);
            self.sz.set(p, w);
            proof {
                assert(pre.root_of(p_root as int) == p_root as int);
                lemma_attach_tree(pre, *self, p as int, q as int, p_root);
            }
        }
        Ok(())
    }

    /// Walks parent links from `p`, counting them, and returns the root
    /// together with the number of hops it took to reach it.
    fn root_and_level(&self, p: usize) -> (rl: (usize, usize))
        requires
            self.wf(),
            p < self.n,
        ensures
            rl.0 < self.n,
            rl.0 as int == self.root_of(p as int),
            self.c@[rl.0 as int] == rl.0,
            rl.1 as nat == self.depth_of(p as int),
    {
        let mut x: usize = p;
        let mut counter: usize = 0;
        let ghost mut fuel: nat = self.n as nat;
        proof {
            assert(reaches_root(self.c@, p as int, self.n as nat));
            lemma_dist_bound(self.c@, p as int, self.n as nat);
        }
        while self.c[x] != x
            invariant
                self.wf(),
                p < self.n,
                x < self.n,
                fuel <= self.n,
                reaches_root(self.c@, x as int, fuel),
                root_from(self.c@, x as int, fuel) == self.root_of(p as int),
                counter + dist_from(self.c@, x as int, fuel) == self.depth_of(p as int),
                self.depth_of(p as int) < self.n,
            decreases fuel,
        {
            proof {
                fuel = (fuel - 1) as nat;
            }
            x = self.c[x];
            counter = counter + 1;
        }
        (x, counter)
    }

    /// The root of the tree containing `p` and the depth of `p` below it
    /// (the number of parent links walked), or `IndexOutOfRange` when `p` is
    /// not an element.  The depth is recomputed fresh on every call, never
    /// cached.
    pub fn find_root_level(&self, p: usize) -> (r: Result<(usize, usize), UfError>)
        requires
            self.wf(),
        ensures
            match r {
                Ok(rl) => {
                    &&& p < self.n
                    &&& rl.0 < self.n
                    &&& rl.0 as int == self.root_of(p as int)
                    &&& self.c@[rl.0 as int] == rl.0
                    &&& rl.1 as nat == self.depth_of(p as int)
                },
                Err(e) => p >= self.n && e == UfError::IndexOutOfRange,
            },
    {
        if p >= self.n {
            return Err(UfError::IndexOutOfRange);
        }
        Ok(self.root_and_level(p))
    }

    /// Merges the groups containing `p` and `q` by comparing their depths,
    /// recomputed fresh on this call: the shallower root is attached under
    /// the deeper one, ties attaching `q`'s root under `p`'s.  The weight
    /// table plays no part and is untouched.
    pub fn root_level_union(&mut self, p: usize, q: usize) -> (r: Result<(), UfError>)
        requires
            old(self).wf(),
        ensures
            final(self).n == old(self).n,
            final(self).sz@ == old(self).sz@,
            match r {
                Ok(_) => {
                    &&& p < old(self).n
                    &&& q < old(self).n
                    &&& final(self).wf()
                    &&& final(self).connected(p as int, q as int)
                    &&& merged(*old(self), *final(self), p as int, q as int)
                    &&& (forall|x: int, y: int|
                        old(self).valid_index(x) && old(self).valid_index(y) && old(
                            self,
                        ).connected(x, y) ==> #[trigger] final(self).connected(x, y))
                    &&& (old(self).connected(p as int, q as int) ==> final(self).c@ == old(
                        self,
                    ).c@ && final(self).num_groups() == old(self).num_groups())
                    &&& (!old(self).connected(p as int, q as int) ==> final(self).num_groups()
                        + 1 == old(self).num_groups())
                    &&& final(self).root_of(p as int) == (if old(self).depth_of(p as int) < old(
                        self,
                    ).depth_of(q as int) {
                        old(self).root_of(q as int)
                    } else {
                        old(self).root_of(p as int)
                    })
                },
                Err(e) => {
                    &&& (p >= old(self).n || q >= old(self).n)
                    &&& e == UfError::IndexOutOfRange
                    &&& final(self).c@ == old(self).c@
                },
            },
    {
        if p >= self.n || q >= self.n {
            return Err(UfError::IndexOutOfRange);
        }
        let pr: (usize, usize) = self.root_and_level(p);
        let qr: (usize, usize) = self.root_and_level(q);
        let p_root: usize = pr.0;
        let p_lvl: usize = pr.1;
        let q_root: usize = qr.0;
        let q_lvl: usize = qr.1;
        let ghost pre = *self;
        if p_lvl == q_lvl {
            self.c.set(q_root, p_root);
            proof {
                assert(pre.root_of(p_root as int) == p_root as int);
                lemma_attach_tree(pre, *self, p as int, q as int, p_root);
            }
        } else if p_lvl < q_lvl {
            self.c.set(p_root, q_root);
            proof {
                assert(pre.root_of(q_root as int) == q_root as int);
                lemma_attach_tree(pre, *self, q as int, p as int, q_root);
            }
        } else {
            self.c.set(q_root, p_root);
            proof {
                assert(pre.root_of(p_root as int) == p_root as int);
                lemma_attach_tree(pre, *self, p as int, q as int, p_root);
            }
        }
        Ok(())
    }

    /// The naive merge kept for comparison: attaches `q` directly under
    /// `p`'s current parent, with no balancing.  When `q` is a root of
    /// another group this merges the two groups; in general it only
    /// re-parents `q`, and the resulting table need not satisfy `wf` any
    /// more — the degenerate behaviour this strategy exists to demonstrate.
    pub fn crude_union(&mut self, p: usize, q: usize) -> (r: Result<(), UfError>)
        requires
            old(self).wf(),
        ensures
            final(self).n == old(self).n,
            final(self).sz@ == old(self).sz@,
            match r {
                Ok(_) => {
                    &&& p < old(self).n
                    &&& q < old(self).n
                    &&& final(self).c@ == old(self).c@.update(q as int, old(self).c@[p as int])
                    &&& (old(self).c@[p as int] == old(self).c@[q as int] ==> final(self).c@
                        == old(self).c@ && final(self).wf())
                    &&& ((old(self).c@[q as int] as int == q && old(self).root_of(p as int) != q)
                        ==> {
                        &&& final(self).wf()
                        &&& final(self).connected(p as int, q as int)
                        &&& merged(*old(self), *final(self), p as int, q as int)
                        &&& final(self).num_groups() + 1 == old(self).num_groups()
                    })
                },
                Err(e) => {
                    &&& (p >= old(self).n || q >= old(self).n)
                    &&& e == UfError::IndexOutOfRange
                    &&& final(self).c@ == old(self).c@
                },
            },
    {
        if p >= self.n || q >= self.n {
            return Err(UfError::IndexOutOfRange);
        }
        let v = self.c[p];
        let ghost pre = *self;
        self.c.set(q, v);
        proof {
            if pre.c@[p as int] == pre.c@[q as int] {
                assert(self.c@ =~= pre.c@);
            }
            if pre.c@[q as int] as int == q as int && pre.root_of(p as int) != q as int {
                assert(pre.root_of(q as int) == q as int);
                assert(reaches_root(pre.c@, p as int, pre.n as nat));
                if pre.c@[p as int] as int != p as int {
                    lemma_reaches_mono(pre.c@, v as int, (pre.n - 1) as nat, pre.n as nat);
                }
                assert(pre.root_of(v as int) == pre.root_of(p as int));
                lemma_attach_tree(pre, *self, p as int, q as int, v);
            }
        }
        Ok(())
    }

    /// The universe size the forest was constructed with.
    pub fn count(&self) -> (r: usize)
        ensures
            r == self.n,
    {
        self.n
    }

    /// Read-only view of the parent table.
    pub fn parents(&self) -> (r: &Vec<usize>)
        ensures
            r@ == self.c@,
    {
        &self.c
    }

    /// Read-only view of the weight table.
    pub fn weights(&self) -> (r: &Vec<usize>)
        ensures
            r@ == self.sz@,
    {
        &self.sz
    }
}

} // verus!
