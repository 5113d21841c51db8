//! Parent-pointer chains over an index table.
//!
//! A disjoint-set forest is a sequence `c` of parent indices: `c[i]` is the
//! parent of `i`, and an index that is its own parent is a root.  This module
//! defines what it means for an index to reach a root by following parent
//! links, the root and the distance so reached, and proves the facts the
//! forest operations rest on: the chain from any index visits distinct
//! indices, so it reaches its root within `c.len()` steps, and re-pointing one
//! root at another tree merges exactly the two trees.

use vstd::prelude::*;

verus! {

/// Every entry of the parent table is itself a valid index.
pub open spec fn in_range(c: Seq<usize>) -> bool {
    forall|i: int| 0 <= i < c.len() ==> c[i] < c.len()
}

/// Following parent links from `i` meets a self-loop within `fuel` steps.
pub open spec fn reaches_root(c: Seq<usize>, i: int, fuel: nat) -> bool
    decreases fuel,
{
    if c[i] as int == i {
        true
    } else if fuel == 0 {
        false
    } else {
        reaches_root(c, c[i] as int, (fuel - 1) as nat)
    }
}

/// The self-looping index the parent chain from `i` meets within `fuel`
/// steps (meaningful when `reaches_root(c, i, fuel)` holds).
pub open spec fn root_from(c: Seq<usize>, i: int, fuel: nat) -> int
    decreases fuel,
{
    if c[i] as int == i {
        i
    } else if fuel == 0 {
        i
    } else {
        root_from(c, c[i] as int, (fuel - 1) as nat)
    }
}

/// The number of parent links from `i` to the first self-looping index
/// (meaningful when `reaches_root(c, i, fuel)` holds).
pub open spec fn dist_from(c: Seq<usize>, i: int, fuel: nat) -> nat
    decreases fuel,
{
    if c[i] as int == i {
        0
    } else if fuel == 0 {
        0
    } else {
        (1 + dist_from(c, c[i] as int, (fuel - 1) as nat)) as nat
    }
}

/// The `k`-th ancestor of `i` under the parent table `c`.
pub open spec fn ancestor(c: Seq<usize>, i: int, k: nat) -> int
    decreases k,
{
    if k == 0 {
        i
    } else {
        c[ancestor(c, i, (k - 1) as nat)] as int
    }
}

/// Every index of the table reaches a root within `fuel` steps.
pub open spec fn all_reach(c: Seq<usize>, fuel: nat) -> bool {
    forall|i: int| 0 <= i < c.len() ==> reaches_root(c, i, fuel)
}

/// How many of the indices below `k` are roots of `c`.
pub open spec fn count_roots_below(c: Seq<usize>, k: nat) -> nat
    decreases k,
{
    if k == 0 {
        0
    } else {
        count_roots_below(c, (k - 1) as nat) + (if c[k - 1] as int == k - 1 {
            1nat
        } else {
            0nat
        })
    }
}

/// Reachability, the root and the distance do not depend on the fuel, as
/// long as there is enough of it.
pub proof fn lemma_reaches_mono(c: Seq<usize>, i: int, f: nat, g: nat)
    requires
        in_range(c),
        0 <= i < c.len(),
        f <= g,
        reaches_root(c, i, f),
    ensures
        reaches_root(c, i, g),
        root_from(c, i, g) == root_from(c, i, f),
        dist_from(c, i, g) == dist_from(c, i, f),
    decreases f,
{
    if c[i] as int == i {
    } else {
        lemma_reaches_mono(c, c[i] as int, (f - 1) as nat, (g - 1) as nat);
    }
}

/// The root reached from `i` is a valid index, is its own parent, and lies
/// at most `fuel` links away.
pub proof fn lemma_root_props(c: Seq<usize>, i: int, fuel: nat)
    requires
        in_range(c),
        0 <= i < c.len(),
        reaches_root(c, i, fuel),
    ensures
        0 <= root_from(c, i, fuel) < c.len(),
        c[root_from(c, i, fuel)] as int == root_from(c, i, fuel),
        dist_from(c, i, fuel) <= fuel,
    decreases fuel,
{
    if c[i] as int == i {
    } else {
        lemma_root_props(c, c[i] as int, (fuel - 1) as nat);
    }
}

/// Ancestors of a valid index are valid indices.
pub proof fn lemma_ancestor_in_range(c: Seq<usize>, i: int, k: nat)
    requires
        in_range(c),
        0 <= i < c.len(),
    ensures
        0 <= ancestor(c, i, k) < c.len(),
    decreases k,
{
    if k > 0 {
        lemma_ancestor_in_range(c, i, (k - 1) as nat);
    }
}

/// Taking `k` steps from `i` is one step and then `k - 1` steps.
pub proof fn lemma_ancestor_shift(c: Seq<usize>, i: int, k: nat)
    requires
        in_range(c),
        0 <= i < c.len(),
        k >= 1,
    ensures
        ancestor(c, i, k) == ancestor(c, c[i] as int, (k - 1) as nat),
    decreases k,
{
    if k == 1 {
        assert(ancestor(c, i, 1) == c[ancestor(c, i, 0)] as int);
        assert(ancestor(c, i, 0) == i);
        assert(ancestor(c, c[i] as int, 0) == c[i] as int);
    } else {
        lemma_ancestor_shift(c, i, (k - 1) as nat);
        assert(ancestor(c, i, k) == c[ancestor(c, i, (k - 1) as nat)] as int);
        assert(ancestor(c, c[i] as int, (k - 1) as nat) == c[ancestor(c, c[i] as int, (k - 2) as nat)] as int);
        assert(ancestor(c, i, (k - 1) as nat) == ancestor(c, c[i] as int, (k - 2) as nat));
    }
}

/// Walking `k` of the `dist_from(c, i, fuel)` links towards the root leaves
/// a chain of exactly `dist_from(c, i, fuel) - k` links.
pub proof fn lemma_ancestor_dist(c: Seq<usize>, i: int, fuel: nat, k: nat)
    requires
        in_range(c),
        0 <= i < c.len(),
        reaches_root(c, i, fuel),
        k <= dist_from(c, i, fuel),
    ensures
        0 <= ancestor(c, i, k) < c.len(),
        reaches_root(c, ancestor(c, i, k), fuel),
        dist_from(c, ancestor(c, i, k), fuel) == dist_from(c, i, fuel) - k,
    decreases k,
{
    lemma_ancestor_in_range(c, i, k);
    if k == 0 {
    } else {
        assert(c[i] as int != i);
        lemma_ancestor_shift(c, i, k);
        lemma_ancestor_dist(c, c[i] as int, (fuel - 1) as nat, (k - 1) as nat);
        lemma_reaches_mono(c, ancestor(c, i, k), (fuel - 1) as nat, fuel);
    }
}

/// The indices on the chain from `i` to its root are pairwise distinct:
/// each lies at its own distance from the root.
pub proof fn lemma_ancestors_distinct(c: Seq<usize>, i: int, fuel: nat, a: nat, b: nat)
    requires
        in_range(c),
        0 <= i < c.len(),
        reaches_root(c, i, fuel),
        a < b <= dist_from(c, i, fuel),
    ensures
        ancestor(c, i, a) != ancestor(c, i, b),
{
    lemma_ancestor_dist(c, i, fuel, a);
    lemma_ancestor_dist(c, i, fuel, b);
}

/// The set of the first `k + 1` indices on the chain from `i`.
pub open spec fn ancestor_set(c: Seq<usize>, i: int, k: nat) -> Set<int>
    decreases k,
{
    if k == 0 {
        Set::empty().insert(i)
    } else {
        ancestor_set(c, i, (k - 1) as nat).insert(ancestor(c, i, k))
    }
}

/// On the chain from `i` to its root, the first `k + 1` indices form a set
/// of exactly `k + 1` valid indices.
pub proof fn lemma_ancestor_set_props(c: Seq<usize>, i: int, fuel: nat, k: nat)
    requires
        in_range(c),
        0 <= i < c.len(),
        reaches_root(c, i, fuel),
        k <= dist_from(c, i, fuel),
    ensures
        ancestor_set(c, i, k).finite(),
        ancestor_set(c, i, k).len() == k + 1,
        forall|j: int| #[trigger] ancestor_set(c, i, k).contains(j) ==> 0 <= j < c.len(),
        forall|j: int| #[trigger] ancestor_set(c, i, k).contains(j) ==> exists|k2: nat|
            k2 <= k && ancestor(c, i, k2) == j,
    decreases k,
{
    broadcast use vstd::set::group_set_axioms;

    if k == 0 {
        assert(ancestor(c, i, 0) == i);
    } else {
        lemma_ancestor_set_props(c, i, fuel, (k - 1) as nat);
        lemma_ancestor_in_range(c, i, k);
        let prev = ancestor_set(c, i, (k - 1) as nat);
        let ak = ancestor(c, i, k);
        if prev.contains(ak) {
            let k2 = choose|k2: nat| k2 <= k - 1 && ancestor(c, i, k2) == ak;
            lemma_ancestors_distinct(c, i, fuel, k2, k);
            assert(false);
        }
        assert forall|j: int| #[trigger] ancestor_set(c, i, k).contains(j) implies exists|k2: nat|
            k2 <= k && ancestor(c, i, k2) == j by {
            if j == ak {
                assert(ancestor(c, i, k) == j);
            } else {
                let k2 = choose|k2: nat| k2 <= k - 1 && ancestor(c, i, k2) == j;
                assert(k2 <= k && ancestor(c, i, k2) == j);
            }
        }
    }
}

/// A chain of distinct valid indices cannot be longer than the table: every
/// index reaches its root in fewer than `c.len()` links.
pub proof fn lemma_dist_bound(c: Seq<usize>, i: int, fuel: nat)
    requires
        in_range(c),
        0 <= i < c.len(),
        reaches_root(c, i, fuel),
    ensures
        dist_from(c, i, fuel) < c.len(),
{
    let d = dist_from(c, i, fuel);
    lemma_root_props(c, i, fuel);
    lemma_ancestor_set_props(c, i, fuel, d);
    let s = ancestor_set(c, i, d);
    let whole = vstd::set_lib::set_int_range(0, c.len() as int);
    vstd::set_lib::lemma_int_range(0, c.len() as int);
    assert(s.subset_of(whole));
    vstd::set_lib::lemma_len_subset(s, whole);
}

/// Reaching a root within any fuel at all means reaching it within the
/// distance itself.
pub proof fn lemma_reaches_with_dist(c: Seq<usize>, i: int, fuel: nat)
    requires
        in_range(c),
        0 <= i < c.len(),
        reaches_root(c, i, fuel),
    ensures
        reaches_root(c, i, dist_from(c, i, fuel)),
    decreases fuel,
{
    if c[i] as int == i {
    } else {
        lemma_reaches_with_dist(c, c[i] as int, (fuel - 1) as nat);
    }
}

/// Whatever fuel showed that `i` reaches a root, fuel `c.len()` shows it as
/// well, with the same root and distance.
pub proof fn lemma_reaches_len_fuel(c: Seq<usize>, i: int, fuel: nat)
    requires
        in_range(c),
        0 <= i < c.len(),
        reaches_root(c, i, fuel),
    ensures
        reaches_root(c, i, c.len() as nat),
        root_from(c, i, c.len() as nat) == root_from(c, i, fuel),
        dist_from(c, i, c.len() as nat) == dist_from(c, i, fuel),
{
    let d = dist_from(c, i, fuel);
    lemma_reaches_with_dist(c, i, fuel);
    lemma_dist_bound(c, i, fuel);
    lemma_root_props(c, i, fuel);
    lemma_reaches_mono(c, i, d, c.len() as nat);
    lemma_reaches_mono(c, i, d, fuel);
}

/// A chain that never passes through `r` is untouched when the entry at `r`
/// is rewritten.
pub proof fn lemma_update_off_path(c: Seq<usize>, r: int, v: usize, i: int, fuel: nat)
    requires
        in_range(c),
        0 <= i < c.len(),
        0 <= r < c.len(),
        v < c.len(),
        c[r] as int == r,
        reaches_root(c, i, fuel),
        root_from(c, i, fuel) != r,
    ensures
        reaches_root(c.update(r, v), i, fuel),
        root_from(c.update(r, v), i, fuel) == root_from(c, i, fuel),
    decreases fuel,
{
    if c[i] as int == i {
    } else {
        lemma_update_off_path(c, r, v, c[i] as int, (fuel - 1) as nat);
    }
}

/// Re-pointing the root `r` at an index `v` of another tree: every chain
/// still ends at a root, and the chains that ended at `r` now end at `v`'s
/// root, while all others keep theirs.
pub proof fn lemma_reattach(c: Seq<usize>, r: int, v: usize, i: int, fi: nat, fv: nat)
    requires
        in_range(c),
        0 <= i < c.len(),
        0 <= r < c.len(),
        v < c.len(),
        c[r] as int == r,
        reaches_root(c, i, fi),
        reaches_root(c, v as int, fv),
        root_from(c, v as int, fv) != r,
    ensures
        in_range(c.update(r, v)),
        reaches_root(c.update(r, v), i, (fi + fv + 1) as nat),
        root_from(c.update(r, v), i, (fi + fv + 1) as nat) == (if root_from(c, i, fi) == r {
            root_from(c, v as int, fv)
        } else {
            root_from(c, i, fi)
        }),
    decreases fi,
{
    let c2 = c.update(r, v);
    assert forall|j: int| 0 <= j < c2.len() implies c2[j] < c2.len() by {
        if j != r {
            assert(c2[j] == c[j]);
        }
    }
    if c[i] as int == i {
        if i == r {
            assert(v as int != r);
            lemma_update_off_path(c, r, v, v as int, fv);
            lemma_reaches_mono(c2, v as int, fv, (fi + fv) as nat);
        } else {
            assert(c2[i] == c[i]);
        }
    } else {
        lemma_reattach(c, r, v, c[i] as int, (fi - 1) as nat, fv);
    }
}

/// Rewriting the entry of a root `r` to a non-root value removes exactly one
/// root from the table.
pub proof fn lemma_count_roots_update(c: Seq<usize>, r: int, v: usize, k: nat)
    requires
        0 <= r < c.len(),
        v < c.len(),
        c[r] as int == r,
        v as int != r,
        k <= c.len(),
    ensures
        count_roots_below(c.update(r, v), k) + (if r < k {
            1nat
        } else {
            0nat
        }) == count_roots_below(c, k),
    decreases k,
{
    if k == 0 {
    } else {
        lemma_count_roots_update(c, r, v, (k - 1) as nat);
        if k - 1 != r {
            assert(c.update(r, v)[k - 1] == c[k - 1]);
        }
    }
}

/// In a table where the first `k` indices are their own parents, all `k` of
/// them are roots.
pub proof fn lemma_count_roots_identity(c: Seq<usize>, k: nat)
    requires
        k <= c.len(),
        forall|j: int| 0 <= j < k ==> c[j] as int == j,
    ensures
        count_roots_below(c, k) == k,
    decreases k,
{
    if k > 0 {
        lemma_count_roots_identity(c, (k - 1) as nat);
    }
}

} // verus!
