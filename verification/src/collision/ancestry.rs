//! How the cells of the tree lie above and below each other.

use crate::collision::layout::arena_len;
use crate::collision::layout::child;
use crate::collision::layout::is_ancestor;
use crate::collision::layout::parent;
use crate::collision::layout::path;
use crate::collision::layout::TreeModel;
use vstd::prelude::*;

verus! {

/// A cell lies above cells of greater index only.
pub proof fn lemma_ancestor_bounds(a: int, n: int)
    requires
        0 <= n,
        is_ancestor(a, n),
    ensures
        0 <= a <= n,
    decreases n,
{
    if a != n {
        lemma_ancestor_bounds(a, parent(n));
    }
}

/// The root lies above every cell.
pub proof fn lemma_root_is_ancestor(n: int)
    requires
        0 <= n,
    ensures
        is_ancestor(0, n),
    decreases n,
{
    if n > 0 {
        lemma_root_is_ancestor(parent(n));
    }
}

/// Two cells that lie above each other are one cell.
pub proof fn lemma_ancestor_antisymmetric(a: int, b: int)
    requires
        0 <= a,
        0 <= b,
        is_ancestor(a, b),
        is_ancestor(b, a),
    ensures
        a == b,
{
    lemma_ancestor_bounds(a, b);
    lemma_ancestor_bounds(b, a);
}

/// The quadrant of `k` through which the way from `k` down to `n` leads,
/// for a cell `n` below `k`.
pub open spec fn step_toward(k: int, n: int) -> int
    decreases n,
{
    if n <= 0 || parent(n) == k {
        (n - 1) % 4
    } else {
        step_toward(k, parent(n))
    }
}

/// The way from a cell to a cell below it leads through one of the four
/// quadrants.
pub proof fn lemma_step_toward_is_a_quadrant(k: int, n: int)
    requires
        0 <= n,
    ensures
        0 <= step_toward(k, n) < 4,
    decreases n,
{
    if n > 0 && parent(n) != k {
        lemma_step_toward_is_a_quadrant(k, parent(n));
    }
}

/// Of the quadrants of a cell `k`, exactly one lies above a given cell
/// below `k`, and none lies above a cell that is not below `k`.
pub proof fn lemma_child_on_the_way(k: int, q: int, n: int)
    requires
        0 <= k,
        0 <= q < 4,
        0 <= n,
    ensures
        is_ancestor(child(k, q), n) <==> (k != n && is_ancestor(k, n) && q == step_toward(k, n)),
    decreases n,
{
    let c = child(k, q);
    if n == 0 {
    } else if parent(n) == k {
        // n is itself a quadrant of k
        if is_ancestor(c, n) && c != n {
            lemma_ancestor_bounds(c, k);
        }
        assert(is_ancestor(k, k));
    } else {
        lemma_child_on_the_way(k, q, parent(n));
        if k == n {
            if is_ancestor(c, n) {
                lemma_ancestor_bounds(c, n);
            }
        }
    }
}

/// The cells on the way to `n` are the cells that lie above `n` or are `n`.
pub proof fn lemma_path_holds_ancestors(a: int, n: int)
    requires
        0 <= n,
    ensures
        path(n).contains(a) <==> is_ancestor(a, n),
    decreases n,
{
    if n == 0 {
        assert(path(0)[0] == 0);
        if is_ancestor(a, 0) {
            assert(path(0).contains(0));
        }
    } else {
        lemma_path_holds_ancestors(a, parent(n));
        let up = path(parent(n));
        assert(path(n) == up.push(n));
        if up.contains(a) {
            let i = choose|i: int| 0 <= i < up.len() && up[i] == a;
            assert(path(n)[i] == a);
        }
        if a == n {
            assert(path(n)[up.len() as int] == n);
        }
        if path(n).contains(a) {
            let i = choose|i: int| 0 <= i < path(n).len() && path(n)[i] == a;
            if i < up.len() {
                assert(up[i] == a);
            }
        }
    }
}

impl TreeModel {
    /// A cell of a tree has its four quadrants in the tree or none of them.
    pub proof fn lemma_quadrants_all_or_none(self, k: int, q: int)
        requires
            self.well_formed(),
            0 <= k,
            0 <= q < 4,
        ensures
            self.has_children(k) <==> child(k, q) < self.cells.len(),
            self.cells.len() >= 1,
    {
        assert(arena_len(self.max_depth + 1) == 4 * arena_len(self.max_depth) + 1);
    }

    /// A cell of the tree that is not the root is a quadrant of its parent,
    /// which is a subdivided cell of the tree.
    pub proof fn lemma_parent_is_subdivided(self, n: int)
        requires
            self.well_formed(),
            0 < n < self.cells.len(),
        ensures
            0 <= parent(n) < n,
            self.has_children(parent(n)),
            n == child(parent(n), (n - 1) % 4),
    {
        self.lemma_quadrants_all_or_none(parent(n), (n - 1) % 4);
    }
}

} // verus!
