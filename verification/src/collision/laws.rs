//! What holds of the quadtree's operations, taken together.

use crate::collision::ancestry::lemma_ancestor_bounds;
use crate::collision::ancestry::lemma_child_on_the_way;
use crate::collision::ancestry::lemma_root_is_ancestor;
use crate::collision::ancestry::lemma_step_toward_is_a_quadrant;
use crate::collision::ancestry::step_toward;
use crate::collision::layout::Cell;
use crate::collision::layout::child;
use crate::collision::layout::is_ancestor;
use crate::collision::layout::lemma_grid_scale_positive;
use crate::collision::layout::parent;
use crate::collision::layout::quadrant;
use crate::collision::layout::TreeModel;
use crate::collision::primitives::Circle;
use crate::common::objects::ObjectRef;
use crate::types::Vector2;
use vstd::multiset::Multiset;
use vstd::prelude::*;

verus! {

impl TreeModel {
    /// The tree with the list of cell `k` replaced by `list`.
    pub open spec fn with_list(self, k: int, list: Seq<ObjectRef>) -> TreeModel {
        TreeModel { objects: self.objects.update(k, list), ..self }
    }

    /// Replacing the list of one cell changes the contents of the tree by
    /// what the two lists differ in.
    pub proof fn lemma_contents_with_list(self, k: int, list: Seq<ObjectRef>)
        requires
            0 <= k < self.objects.len(),
        ensures
            self.with_list(k, list).contents().add(self.objects[k].to_multiset())
                == self.contents().add(list.to_multiset()),
    {
        self.lemma_contents_upto_with_list(k, list, self.objects.len());
    }

    proof fn lemma_contents_upto_with_list(self, k: int, list: Seq<ObjectRef>, n: nat)
        requires
            0 <= k < self.objects.len(),
            n <= self.objects.len(),
        ensures
            n <= k ==> self.with_list(k, list).contents_upto(n) == self.contents_upto(n),
            n > k ==> self.with_list(k, list).contents_upto(n).add(self.objects[k].to_multiset())
                == self.contents_upto(n).add(list.to_multiset()),
        decreases n,
    {
        broadcast use vstd::multiset::group_multiset_axioms;

        if n > 0 {
            self.lemma_contents_upto_with_list(k, list, (n - 1) as nat);
            let changed = self.with_list(k, list);
            assert(changed.contents_upto(n) == changed.contents_upto((n - 1) as nat).add(
                changed.objects[n - 1].to_multiset(),
            ));
            assert(self.contents_upto(n) == self.contents_upto((n - 1) as nat).add(
                self.objects[n - 1].to_multiset(),
            ));
            assert(changed.objects[n - 1] == if n - 1 == k {
                list
            } else {
                self.objects[n - 1]
            });
            if n - 1 == k {
                assert(changed.contents_upto(n).add(self.objects[k].to_multiset())
                    =~= self.contents_upto(n).add(list.to_multiset()));
            } else if n > k {
                let before_changed = changed.contents_upto((n - 1) as nat).add(
                    self.objects[k].to_multiset(),
                );
                let before_same = self.contents_upto((n - 1) as nat).add(list.to_multiset());
                assert forall|v: ObjectRef|
                    changed.contents_upto(n).add(self.objects[k].to_multiset()).count(v)
                        == self.contents_upto(n).add(list.to_multiset()).count(v) by {
                    assert(before_changed.count(v) == before_same.count(v));
                }
                assert(changed.contents_upto(n).add(self.objects[k].to_multiset())
                    =~= self.contents_upto(n).add(list.to_multiset()));
            } else {
                assert(changed.contents_upto(n) =~= self.contents_upto(n));
            }
        }
    }

    /// Adding an object adds it, once, to the contents of the tree.
    pub proof fn lemma_insert_contents(self, object: ObjectRef, bounds: Circle)
        requires
            self.well_formed(),
        ensures
            self.insert(object, bounds).contents() == self.contents().insert(object),
    {
        broadcast use vstd::multiset::group_multiset_axioms;

        let k = self.home(bounds);
        self.lemma_locate_within(0, bounds);
        let list = self.objects[k].push(object);
        self.lemma_contents_with_list(k, list);
        vstd::seq_lib::to_multiset_build(self.objects[k], object);
        let after = self.insert(object, bounds).contents();
        let held = self.objects[k].to_multiset();
        assert forall|v: ObjectRef| after.count(v) == self.contents().insert(object).count(v) by {
            assert(after.add(held).count(v) == self.contents().add(list.to_multiset()).count(v));
        }
        assert(after =~= self.contents().insert(object));
    }

    /// Removing an object that is found takes it, once, from the contents
    /// of the tree; a removal that fails leaves the tree as it is.
    pub proof fn lemma_remove_contents(self, object: ObjectRef, bounds: Circle)
        requires
            self.well_formed(),
        ensures
            self.holds_at(object, bounds) ==> self.remove(object, bounds).contents()
                == self.contents().remove(object),
            self.holds_at(object, bounds) ==> self.contents().count(object) > 0,
            !self.holds_at(object, bounds) ==> self.remove(object, bounds) == self,
    {
        broadcast use vstd::multiset::group_multiset_axioms;

        let k = self.home(bounds);
        self.lemma_locate_within(0, bounds);
        let held = self.objects[k];
        held.index_of_first_ensures(object);
        if self.holds_at(object, bounds) {
            let i = held.index_of_first(object).unwrap();
            let list = held.remove(i);
            self.lemma_contents_with_list(k, list);
            vstd::seq_lib::to_multiset_remove(held, i);
            vstd::seq_lib::to_multiset_contains(held, object);
            let after = self.remove(object, bounds).contents();
            let held_set = held.to_multiset();
            assert(self.remove(object, bounds) == self.with_list(k, list));
            assert forall|v: ObjectRef| after.add(held_set).count(v) == self.contents().add(
                list.to_multiset(),
            ).count(v) by {}
            assert(after.add(held_set).count(object) == self.contents().add(
                list.to_multiset(),
            ).count(object));
            assert forall|v: ObjectRef| after.count(v) == self.contents().remove(object).count(
                v,
            ) by {
                assert(after.add(held_set).count(v) == self.contents().add(
                    list.to_multiset(),
                ).count(v));
            }
            assert(after =~= self.contents().remove(object));
        } else {
            assert(self.remove(object, bounds).objects =~= self.objects);
        }
    }
}

/// Where a circle comes to rest depends on the cells of the tree, and the
/// unit they are measured in, alone: not on the objects it holds, nor on
/// what was done to it before.
pub proof fn lemma_home_depends_on_cells(a: TreeModel, b: TreeModel, bounds: Circle)
    requires
        a.cells == b.cells,
        a.scale == b.scale,
    ensures
        a.home(bounds) == b.home(bounds),
{
    lemma_locate_depends_on_cells(a, b, 0, bounds);
}

proof fn lemma_locate_depends_on_cells(a: TreeModel, b: TreeModel, k: int, bounds: Circle)
    requires
        a.cells == b.cells,
        a.scale == b.scale,
    ensures
        a.locate(k, bounds) == b.locate(k, bounds),
    decreases a.cells.len() - k,
{
    if 0 <= k && a.has_children(k) {
        match quadrant(a.cells[k], bounds, a.scale) {
            Some(q) => {
                lemma_locate_depends_on_cells(a, b, child(k, q), bounds);
            },
            None => {},
        }
    }
}

/// No operation moves a cell: after adding, removing, scheduling or
/// relocating, every circle comes to rest where it did before. An object
/// added by a circle is therefore looked for, by the same circle, at the
/// very cell it was added to.
pub proof fn lemma_home_is_stable(
    tree: TreeModel,
    object: ObjectRef,
    bounds: Circle,
    old_position: Vector2,
    moves: Seq<(ObjectRef, Vector2)>,
    circles: Seq<Circle>,
    probe: Circle,
)
    ensures
        tree.insert(object, bounds).home(probe) == tree.home(probe),
        tree.remove(object, bounds).home(probe) == tree.home(probe),
        tree.schedule(object, old_position).home(probe) == tree.home(probe),
        tree.relocate_all(moves, circles).0.home(probe) == tree.home(probe),
{
    lemma_home_depends_on_cells(tree.insert(object, bounds), tree, probe);
    lemma_home_depends_on_cells(tree.remove(object, bounds), tree, probe);
    lemma_home_depends_on_cells(tree.schedule(object, old_position), tree, probe);
    tree.lemma_relocate_all_keeps_shape(moves, circles);
    lemma_home_depends_on_cells(tree.relocate_all(moves, circles).0, tree, probe);
}

/// An object that was added is found again by the circle it was added
/// with, and removing it leaves the tree with the contents it had before the
/// object was added. Where the object was not held at that cell before, the
/// tree is the very same as before.
pub proof fn lemma_insert_then_remove(tree: TreeModel, object: ObjectRef, bounds: Circle)
    requires
        tree.well_formed(),
    ensures
        tree.insert(object, bounds).well_formed(),
        tree.insert(object, bounds).holds_at(object, bounds),
        tree.insert(object, bounds).remove(object, bounds).contents() == tree.contents(),
        !tree.holds_at(object, bounds) ==> tree.insert(object, bounds).remove(object, bounds)
            == tree,
{
    let added = tree.insert(object, bounds);
    let k = tree.home(bounds);
    tree.lemma_locate_within(0, bounds);
    lemma_home_depends_on_cells(added, tree, bounds);
    let list = tree.objects[k].push(object);
    assert(added.objects[k] == list);
    assert(list[list.len() - 1] == object);
    assert(added.holds_at(object, bounds));
    tree.lemma_insert_contents(object, bounds);
    added.lemma_remove_contents(object, bounds);
    assert(tree.contents().insert(object).remove(object) =~= tree.contents()) by {
        broadcast use vstd::multiset::group_multiset_axioms;

    }
    if !tree.holds_at(object, bounds) {
        list.index_of_first_ensures(object);
        let i = list.index_of_first(object).unwrap();
        assert(i == list.len() - 1) by {
            if i < list.len() - 1 {
                assert(tree.objects[k][i] == object);
            }
        }
        assert(list.remove(i) =~= tree.objects[k]);
        assert(added.remove(object, bounds).objects =~= tree.objects);
    }
}

/// Scheduling one relocation in a tree that has none pending, and then
/// carrying the schedule out, comes to the same as removing the object
/// where it rested at its old position and adding it anew: the same tree
/// where the object is found, and the untouched tree with a failure where
/// it is not.
pub proof fn lemma_scheduled_relocation_is_remove_then_insert(
    tree: TreeModel,
    object: ObjectRef,
    old_position: Vector2,
    circles: Seq<Circle>,
)
    requires
        tree.pending.len() == 0,
    ensures
        ({
            let scheduled = tree.schedule(object, old_position);
            let prior = TreeModel::prior_bounds(object, old_position, circles);
            let outcome = scheduled.unscheduled().relocate_all(scheduled.pending, circles);
            if tree.holds_at(object, prior) {
                outcome == (tree.remove(object, prior).insert(object, circles[object.index as int]), true)
            } else {
                outcome == (tree, false)
            }
        }),
{
    let scheduled = tree.schedule(object, old_position);
    assert(scheduled.unscheduled() == tree) by {
        assert(tree.pending =~= Seq::<(ObjectRef, Vector2)>::empty());
    }
    let moves = scheduled.pending;
    assert(moves.len() == 1);
    assert(moves.last() == (object, old_position));
    assert(moves.drop_last().len() == 0);
    reveal_with_fuel(TreeModel::relocate_all, 3);
}

/// How often `object` occurs in `list`.
pub open spec fn copies(list: Seq<ObjectRef>, object: ObjectRef) -> nat {
    list.to_multiset().count(object)
}

/// Nothing occurs in the empty list.
pub proof fn lemma_copies_empty(object: ObjectRef)
    ensures
        copies(Seq::empty(), object) == 0,
{
    broadcast use vstd::multiset::group_multiset_axioms;

    vstd::seq_lib::to_multiset_len(Seq::<ObjectRef>::empty());
    assert(Seq::<ObjectRef>::empty().to_multiset().len() == 0);
}

/// One more element is one more copy of itself.
pub proof fn lemma_copies_push(list: Seq<ObjectRef>, last: ObjectRef, object: ObjectRef)
    ensures
        copies(list.push(last), object) == copies(list, object) + if last == object {
            1nat
        } else {
            0nat
        },
{
    broadcast use vstd::multiset::group_multiset_axioms;

    vstd::seq_lib::to_multiset_build(list, last);
}

/// In a list without repetitions an object occurs once or not at all.
pub proof fn lemma_copies_unique(list: Seq<ObjectRef>, object: ObjectRef)
    requires
        list.no_duplicates(),
    ensures
        copies(list, object) == if list.contains(object) {
            1nat
        } else {
            0nat
        },
{
    broadcast use vstd::multiset::group_multiset_axioms;

    list.lemma_multiset_has_no_duplicates();
    vstd::seq_lib::to_multiset_contains(list, object);
}

/// An object that a list does not hold occurs in it no times.
pub proof fn lemma_copies_of_absent(list: Seq<ObjectRef>, object: ObjectRef)
    requires
        !list.contains(object),
    ensures
        copies(list, object) == 0,
{
    vstd::seq_lib::to_multiset_contains(list, object);
}

impl TreeModel {
    /// Where no handle is held twice, the list of a cell has no
    /// repetitions, and an object held at one cell is held at no other.
    pub proof fn lemma_distinct_cells(self, k: int, object: ObjectRef, at: int, place: int)
        requires
            self.handles_distinct(),
            0 <= k < self.objects.len(),
            self.held_at(at, place, object),
        ensures
            self.objects[k].no_duplicates(),
            k != at ==> !self.objects[k].contains(object),
            forall|t: int|
                0 <= t < self.objects[k].len() && !(k == at && t == place) ==> self.objects[k][t]
                    != object,
    {
        let list = self.objects[k];
        assert forall|i: int, j: int| 0 <= i < list.len() && 0 <= j < list.len() && i != j implies list[i]
            != list[j] by {
            if self.objects[k][i] == self.objects[k][j] {
            }
        }
        assert forall|t: int| 0 <= t < list.len() && !(k == at && t == place) implies list[t]
            != object by {
            if self.objects[k][t] == self.objects[at][place] {
            }
        }
        if list.contains(object) {
            let t = choose|t: int| 0 <= t < list.len() && list[t] == object;
            assert(self.objects[k][t] == self.objects[at][place]);
        }
    }
}

impl TreeModel {
    /// The objects held in the subtree of cell `k`, leaving out the cells
    /// from index `n` on.
    pub open spec fn covered(self, k: int, n: nat) -> Multiset<ObjectRef>
        decreases 4 * n + 4 - k,
    {
        if 0 <= k < n {
            self.objects[k].to_multiset().add(self.covered(child(k, 0), n)).add(
                self.covered(child(k, 1), n),
            ).add(self.covered(child(k, 2), n)).add(self.covered(child(k, 3), n))
        } else {
            Multiset::empty()
        }
    }

    /// Letting in one more cell adds its objects to the subtrees it lies in.
    proof fn lemma_covered_step(self, k: int, n: nat)
        requires
            0 <= k,
        ensures
            self.covered(k, n + 1) == if is_ancestor(k, n as int) {
                self.covered(k, n).add(self.objects[n as int].to_multiset())
            } else {
                self.covered(k, n)
            },
        decreases 4 * n + 4 - k,
    {
        broadcast use vstd::multiset::group_multiset_axioms;

        let more = self.objects[n as int].to_multiset();
        if k > n {
            if is_ancestor(k, n as int) {
                lemma_ancestor_bounds(k, n as int);
            }
        } else if k == n {
            assert(self.covered(child(k, 0), n + 1) == Multiset::<ObjectRef>::empty());
            assert(self.covered(child(k, 1), n + 1) == Multiset::<ObjectRef>::empty());
            assert(self.covered(child(k, 2), n + 1) == Multiset::<ObjectRef>::empty());
            assert(self.covered(child(k, 3), n + 1) == Multiset::<ObjectRef>::empty());
            assert(self.covered(k, n + 1) =~= self.covered(k, n).add(more));
        } else {
            self.lemma_covered_step(child(k, 0), n);
            self.lemma_covered_step(child(k, 1), n);
            self.lemma_covered_step(child(k, 2), n);
            self.lemma_covered_step(child(k, 3), n);
            lemma_child_on_the_way(k, 0, n as int);
            lemma_child_on_the_way(k, 1, n as int);
            lemma_child_on_the_way(k, 2, n as int);
            lemma_child_on_the_way(k, 3, n as int);
            if is_ancestor(k, n as int) {
                assert(0 <= step_toward(k, n as int) < 4) by {
                    lemma_step_toward_is_a_quadrant(k, n as int);
                }
                assert(self.covered(k, n + 1) =~= self.covered(k, n).add(more));
            } else {
                assert(self.covered(k, n + 1) =~= self.covered(k, n));
            }
        }
    }

    /// With every cell let in, the subtree of the root covers the contents.
    proof fn lemma_covered_is_contents(self, n: nat)
        ensures
            self.covered(0, n) == self.contents_upto(n),
        decreases n,
    {
        broadcast use vstd::multiset::group_multiset_axioms;

        if n == 0 {
            assert(self.covered(0, n) =~= self.contents_upto(n));
        } else {
            self.lemma_covered_is_contents((n - 1) as nat);
            self.lemma_covered_step(0, (n - 1) as nat);
            lemma_root_is_ancestor(n - 1);
        }
    }

    /// A walk of a subtree yields what the subtree holds.
    proof fn lemma_traversal_is_covered(self, k: int)
        requires
            self.well_formed(),
            0 <= k < self.cells.len(),
        ensures
            self.traversal(k).to_multiset() == self.covered(k, self.cells.len()),
        decreases self.cells.len() - k,
    {
        broadcast use vstd::multiset::group_multiset_axioms;

        let n = self.cells.len();
        self.lemma_quadrants_all_or_none(k, 0);
        self.lemma_quadrants_all_or_none(k, 1);
        self.lemma_quadrants_all_or_none(k, 2);
        self.lemma_quadrants_all_or_none(k, 3);
        if self.has_children(k) {
            self.lemma_traversal_is_covered(child(k, 0));
            self.lemma_traversal_is_covered(child(k, 1));
            self.lemma_traversal_is_covered(child(k, 2));
            self.lemma_traversal_is_covered(child(k, 3));
            let t0 = self.traversal(child(k, 0));
            let t1 = self.traversal(child(k, 1));
            let t2 = self.traversal(child(k, 2));
            let t3 = self.traversal(child(k, 3));
            let own = self.objects[k];
            vstd::seq_lib::lemma_multiset_commutative(t3, t2);
            vstd::seq_lib::lemma_multiset_commutative(t3 + t2, t1);
            vstd::seq_lib::lemma_multiset_commutative(t3 + t2 + t1, t0);
            vstd::seq_lib::lemma_multiset_commutative(t3 + t2 + t1 + t0, own);
            assert(self.traversal(k).to_multiset() =~= self.covered(k, n));
        } else {
            assert(self.covered(child(k, 0), n) == Multiset::<ObjectRef>::empty());
            assert(self.covered(child(k, 1), n) == Multiset::<ObjectRef>::empty());
            assert(self.covered(child(k, 2), n) == Multiset::<ObjectRef>::empty());
            assert(self.covered(child(k, 3), n) == Multiset::<ObjectRef>::empty());
            assert(self.covered(k, n) =~= self.objects[k].to_multiset());
        }
    }

    /// A walk of the whole tree yields every object as often as the tree
    /// holds it: no object is missed and none is yielded more often than it
    /// was added, however deep the tree and wherever the objects rest.
    pub proof fn lemma_traversal_is_contents(self)
        requires
            self.well_formed(),
        ensures
            self.traversal(0).to_multiset() == self.contents(),
            self.traversal(0).len() == self.contents().len(),
    {
        self.lemma_quadrants_all_or_none(0, 0);
        self.lemma_traversal_is_covered(0);
        self.lemma_covered_is_contents(self.cells.len());
        vstd::seq_lib::to_multiset_len(self.traversal(0));
    }
}


/// Two circles that overlap, and that each lie in a quadrant of a cell, lie
/// in the same quadrant: were they on different sides of a dividing line,
/// each further from it than its radius, their centers would be further
/// apart than their radii add up to.
pub proof fn lemma_overlapping_circles_share_quadrant(cell: Cell, a: Circle, b: Circle, scale: nat)
    requires
        scale > 0,
        a.overlaps(b),
        quadrant(cell, a, scale).is_some(),
        quadrant(cell, b, scale).is_some(),
    ensures
        quadrant(cell, a, scale) == quadrant(cell, b, scale),
{
    let dx = a.center.x - b.center.x;
    let dy = a.center.y - b.center.y;
    let reach = a.radius + b.radius;
    let ax = a.center.x * scale - cell.x;
    let bx = b.center.x * scale - cell.x;
    let ay = a.center.y * scale - cell.y;
    let by = b.center.y * scale - cell.y;
    assert(dx * dx >= 0 && dy * dy >= 0) by (nonlinear_arith);
    assert(dx > reach || -dx > reach ==> dx * dx > reach * reach) by (nonlinear_arith)
        requires
            reach >= 0,
    ;
    assert(dy > reach || -dy > reach ==> dy * dy > reach * reach) by (nonlinear_arith)
        requires
            reach >= 0,
    ;
    // on different sides of a line, the centers are more than `reach` apart
    assert(ax - bx == dx * scale && ay - by == dy * scale) by (nonlinear_arith)
        requires
            dx == a.center.x - b.center.x,
            dy == a.center.y - b.center.y,
            ax == a.center.x * scale - cell.x,
            bx == b.center.x * scale - cell.x,
            ay == a.center.y * scale - cell.y,
            by == b.center.y * scale - cell.y,
    ;
    assert(a.radius * scale + b.radius * scale == reach * scale) by (nonlinear_arith)
        requires
            reach == a.radius + b.radius,
    ;
    assert(dx * scale > reach * scale ==> dx > reach) by (nonlinear_arith)
        requires
            scale > 0,
    ;
    assert(-(dx * scale) > reach * scale ==> -dx > reach) by (nonlinear_arith)
        requires
            scale > 0,
    ;
    assert(dy * scale > reach * scale ==> dy > reach) by (nonlinear_arith)
        requires
            scale > 0,
    ;
    assert(-(dy * scale) > reach * scale ==> -dy > reach) by (nonlinear_arith)
        requires
            scale > 0,
    ;
    assert(a.radius * scale >= 0 && b.radius * scale >= 0) by (nonlinear_arith)
        requires
            scale > 0,
    ;
}

impl TreeModel {
    /// Two circles that overlap come to rest at one cell, or at two cells of
    /// which one lies above the other.
    pub proof fn lemma_overlapping_circles_rest_on_one_way(self, k: int, a: Circle, b: Circle)
        requires
            self.scale > 0,
            0 <= k < self.cells.len(),
            a.overlaps(b),
        ensures
            is_ancestor(self.locate(k, a), self.locate(k, b)) || is_ancestor(
                self.locate(k, b),
                self.locate(k, a),
            ),
        decreases self.cells.len() - k,
    {
        self.lemma_locate_within(k, a);
        self.lemma_locate_within(k, b);
        if self.has_children(k) {
            let qa = quadrant(self.cells[k], a, self.scale);
            let qb = quadrant(self.cells[k], b, self.scale);
            if qa.is_some() && qb.is_some() {
                lemma_overlapping_circles_share_quadrant(self.cells[k], a, b, self.scale);
                self.lemma_overlapping_circles_rest_on_one_way(child(k, qa.unwrap()), a, b);
            }
        }
    }

    /// A walk of a subtree yields what the walk of any subtree within it
    /// yields.
    pub proof fn lemma_traversal_includes(self, k: int, n: int, object: ObjectRef)
        requires
            self.well_formed(),
            0 <= k,
            0 <= n < self.cells.len(),
            is_ancestor(k, n),
            self.traversal(n).contains(object),
        ensures
            self.traversal(k).contains(object),
        decreases n,
    {
        if k != n {
            let up = parent(n);
            self.lemma_parent_is_subdivided(n);
            let t0 = self.traversal(child(up, 0));
            let t1 = self.traversal(child(up, 1));
            let t2 = self.traversal(child(up, 2));
            let t3 = self.traversal(child(up, 3));
            let own = self.objects[up];
            let inner = self.traversal(n);
            let i = choose|i: int| 0 <= i < inner.len() && inner[i] == object;
            let whole = self.traversal(up);
            assert(whole == t3 + t2 + t1 + t0 + own);
            if n == child(up, 3) {
                assert(whole[i] == object);
            } else if n == child(up, 2) {
                assert(whole[t3.len() + i] == object);
            } else if n == child(up, 1) {
                assert(whole[t3.len() + t2.len() + i] == object);
            } else {
                assert(n == child(up, 0));
                assert(whole[t3.len() + t2.len() + t1.len() + i] == object);
            }
            self.lemma_traversal_includes(k, up, object);
        }
    }

    /// A walk of a subtree yields the objects held at its root cell.
    pub proof fn lemma_traversal_holds_own(self, k: int, object: ObjectRef)
        requires
            0 <= k < self.cells.len(),
            self.objects[k].contains(object),
        ensures
            self.traversal(k).contains(object),
    {
        let own = self.objects[k];
        let i = choose|i: int| 0 <= i < own.len() && own[i] == object;
        if self.has_children(k) {
            let front = self.traversal(child(k, 3)) + self.traversal(child(k, 2)) + self.traversal(
                child(k, 1),
            ) + self.traversal(child(k, 0));
            assert(self.traversal(k) == front + own);
            assert(self.traversal(k)[front.len() + i] == object);
        }
    }
}

/// An object whose circle overlaps the query circle rests at the cell where
/// the query rests, below it, or above it.
pub proof fn lemma_overlapping_object_rests_on_the_way(tree: TreeModel, bounds: Circle, query: Circle)
    requires
        tree.well_formed(),
        bounds.overlaps(query),
    ensures
        is_ancestor(tree.home(query), tree.home(bounds)) || is_ancestor(
            tree.home(bounds),
            tree.home(query),
        ),
{
    tree.lemma_quadrants_all_or_none(0, 0);
    lemma_grid_scale_positive(tree.max_depth);
    tree.lemma_overlapping_circles_rest_on_one_way(0, bounds, query);
}

/// The local walk for a query circle yields every object whose circle
/// overlaps the query, but for the objects that rest at a cell above the
/// one where the query rests: such an object straddles a dividing line that
/// the query lies clear of, and the local walk does not reach it.
pub proof fn lemma_local_walk_finds_overlapping(
    tree: TreeModel,
    object: ObjectRef,
    bounds: Circle,
    query: Circle,
)
    requires
        tree.well_formed(),
        tree.holds_at(object, bounds),
        bounds.overlaps(query),
        !(is_ancestor(tree.home(bounds), tree.home(query)) && tree.home(bounds) != tree.home(query)),
    ensures
        tree.traversal(tree.home(query)).contains(object),
{
    let entry = tree.home(query);
    let rest = tree.home(bounds);
    tree.lemma_quadrants_all_or_none(0, 0);
    tree.lemma_locate_within(0, bounds);
    tree.lemma_locate_within(0, query);
    lemma_overlapping_object_rests_on_the_way(tree, bounds, query);
    assert(is_ancestor(entry, rest));
    tree.lemma_traversal_holds_own(rest, object);
    tree.lemma_traversal_includes(entry, rest, object);
}

impl TreeModel {
    /// Where no handle is held twice, the first `n` cells hold an object
    /// once if one of them holds it, and not at all if none does.
    proof fn lemma_contents_upto_distinct(self, n: nat, object: ObjectRef)
        requires
            self.handles_distinct(),
            n <= self.objects.len(),
        ensures
            self.contents_upto(n).count(object) == if exists|k: int|
                0 <= k < n && self.objects[k].contains(object) {
                1nat
            } else {
                0nat
            },
        decreases n,
    {
        broadcast use vstd::multiset::group_multiset_axioms;

        if n > 0 {
            let last = self.objects[n - 1];
            self.lemma_contents_upto_distinct((n - 1) as nat, object);
            if last.contains(object) {
                let t = choose|t: int| 0 <= t < last.len() && last[t] == object;
                assert(self.held_at(n - 1, t, object));
                self.lemma_distinct_cells(n - 1, object, n - 1, t);
                lemma_copies_unique(last, object);
                if exists|k: int| 0 <= k < n - 1 && self.objects[k].contains(object) {
                    let k = choose|k: int| 0 <= k < n - 1 && self.objects[k].contains(object);
                    self.lemma_distinct_cells(k, object, n - 1, t);
                }
            } else {
                lemma_copies_of_absent(last, object);
                if exists|k: int| 0 <= k < n && self.objects[k].contains(object) {
                    let k = choose|k: int| 0 <= k < n && self.objects[k].contains(object);
                    assert(0 <= k < n - 1 && self.objects[k].contains(object));
                }
            }
        }
    }

    /// Where no handle is held twice, a walk of the whole tree yields no
    /// object twice: every object held is yielded exactly once.
    pub proof fn lemma_traversal_yields_each_once(self)
        requires
            self.well_formed(),
            self.handles_distinct(),
        ensures
            self.traversal(0).no_duplicates(),
            forall|object: ObjectRef| self.holds(object) ==> self.traversal(0).contains(object),
    {
        broadcast use vstd::multiset::group_multiset_axioms;

        let walk = self.traversal(0);
        self.lemma_traversal_is_contents();
        assert forall|object: ObjectRef| walk.to_multiset().contains(object) implies walk.to_multiset().count(
            object,
        ) == 1 by {
            self.lemma_contents_upto_distinct(self.objects.len(), object);
        }
        walk.lemma_multiset_has_no_duplicates_conv();
        assert forall|object: ObjectRef| self.holds(object) implies walk.contains(object) by {
            let (k, i) = choose|k: int, i: int| self.held_at(k, i, object);
            assert(self.objects[k][i] == object);
            self.lemma_quadrants_all_or_none(0, 0);
            lemma_root_is_ancestor(k);
            self.lemma_traversal_holds_own(k, object);
            self.lemma_traversal_includes(0, k, object);
        }
    }
}

} // verus!
