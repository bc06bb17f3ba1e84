//! How often the collision sweep tests and reports a pair of objects.

use crate::collision::ancestry::lemma_ancestor_antisymmetric;
use crate::collision::ancestry::lemma_ancestor_bounds;
use crate::collision::ancestry::lemma_child_on_the_way;
use crate::collision::ancestry::lemma_path_holds_ancestors;
use crate::collision::ancestry::lemma_root_is_ancestor;
use crate::collision::ancestry::lemma_step_toward_is_a_quadrant;
use crate::collision::ancestry::step_toward;
use crate::collision::laws::copies;
use crate::collision::laws::lemma_copies_empty;
use crate::collision::laws::lemma_copies_of_absent;
use crate::collision::laws::lemma_copies_push;
use crate::collision::laws::lemma_copies_unique;
use crate::collision::layout::against;
use crate::collision::layout::child;
use crate::collision::layout::is_ancestor;
use crate::collision::layout::lemma_grid_scale_positive;
use crate::collision::layout::lemma_path_bounds;
use crate::collision::layout::parent;
use crate::collision::layout::path;
use crate::collision::layout::rivals;
use crate::collision::layout::tests_against;
use crate::collision::layout::tests_with;
use crate::collision::layout::touching;
use crate::collision::layout::TreeModel;
use crate::collision::primitives::Circle;
use crate::common::objects::ObjectRef;
use vstd::prelude::*;

verus! {

/// How often `pair` occurs in `pairs`.
pub open spec fn occurrences(pairs: Seq<(ObjectRef, ObjectRef)>, pair: (ObjectRef, ObjectRef)) -> nat {
    pairs.to_multiset().count(pair)
}

/// A pair occurs in two sequences put together as often as in both.
pub proof fn lemma_occurrences_concat(
    a: Seq<(ObjectRef, ObjectRef)>,
    b: Seq<(ObjectRef, ObjectRef)>,
    pair: (ObjectRef, ObjectRef),
)
    ensures
        occurrences(a + b, pair) == occurrences(a, pair) + occurrences(b, pair),
{
    broadcast use vstd::multiset::group_multiset_axioms;

    vstd::seq_lib::lemma_multiset_commutative(a, b);
}

/// Nothing occurs in the empty sequence.
pub proof fn lemma_occurrences_empty(pair: (ObjectRef, ObjectRef))
    ensures
        occurrences(Seq::empty(), pair) == 0,
{
    broadcast use vstd::multiset::group_multiset_axioms;

    vstd::seq_lib::to_multiset_len(Seq::<(ObjectRef, ObjectRef)>::empty());
    assert(Seq::<(ObjectRef, ObjectRef)>::empty().to_multiset().len() == 0);
}

/// Of the tested pairs, those whose circles overlap are reported, as often
/// as they were tested; the others are not.
pub proof fn lemma_occurrences_filter(
    pairs: Seq<(ObjectRef, ObjectRef)>,
    circles: Seq<Circle>,
    pair: (ObjectRef, ObjectRef),
)
    ensures
        occurrences(pairs.filter(touching(circles)), pair) == if touching(circles)(pair) {
            occurrences(pairs, pair)
        } else {
            0
        },
    decreases pairs.len(),
{
    broadcast use vstd::multiset::group_multiset_axioms;

    let f = touching(circles);
    if pairs.len() == 0 {
        assert(pairs.filter(f) =~= Seq::<(ObjectRef, ObjectRef)>::empty()) by {
            pairs.lemma_filter_len(f);
        }
        assert(pairs =~= Seq::<(ObjectRef, ObjectRef)>::empty());
        lemma_occurrences_empty(pair);
    } else {
        let front = pairs.drop_last();
        let last = pairs.last();
        assert(pairs =~= front.push(last));
        lemma_occurrences_filter(front, circles, pair);
        front.lemma_filter_push(last, f);
        vstd::seq_lib::to_multiset_build(front, last);
        vstd::seq_lib::to_multiset_build(front.filter(f), last);
    }
}

/// Pitting `other` against the objects of a list gives a pair as often as
/// the list has the pair's first object, where `other` is its second.
pub proof fn lemma_pitted_occurrences(list: Seq<ObjectRef>, other: ObjectRef, pair: (ObjectRef, ObjectRef))
    ensures
        occurrences(list.map_values(against(other)), pair) == if pair.1 == other {
            copies(list, pair.0)
        } else {
            0
        },
    decreases list.len(),
{
    broadcast use vstd::multiset::group_multiset_axioms;

    let f = against(other);
    if list.len() == 0 {
        assert(list.map_values(f) =~= Seq::<(ObjectRef, ObjectRef)>::empty());
        assert(list =~= Seq::<ObjectRef>::empty());
        lemma_occurrences_empty(pair);
        lemma_copies_empty(pair.0);
    } else {
        let front = list.drop_last();
        let last = list.last();
        assert(list =~= front.push(last));
        lemma_pitted_occurrences(front, other, pair);
        assert(list.map_values(f) =~= front.map_values(f).push((last, other)));
        vstd::seq_lib::to_multiset_build(front.map_values(f), (last, other));
        lemma_copies_push(front, last, pair.0);
    }
}

/// The tests of the object `other` at place `j` of a cell on the way give a
/// pair as often as its first object occurs among the rivals, where `other`
/// is its second.
pub proof fn lemma_tests_with_occurrences(
    current: Seq<ObjectRef>,
    other: ObjectRef,
    same_cell: bool,
    j: int,
    pair: (ObjectRef, ObjectRef),
)
    ensures
        occurrences(tests_with(current, other, same_cell, j), pair) == if pair.1 == other {
            copies(rivals(current, same_cell, j), pair.0)
        } else {
            0
        },
{
    lemma_pitted_occurrences(rivals(current, same_cell, j), other, pair);
}

/// The rivals are objects of the visited cell.
pub proof fn lemma_rivals_are_current(current: Seq<ObjectRef>, same_cell: bool, j: int, object: ObjectRef)
    requires
        same_cell ==> 0 <= j <= current.len(),
        rivals(current, same_cell, j).contains(object),
    ensures
        current.contains(object),
{
    let part = rivals(current, same_cell, j);
    let t = choose|t: int| 0 <= t < part.len() && part[t] == object;
    assert(current[t] == object);
}

/// The tests at a cell never give a pair whose first object the cell does
/// not hold.
pub proof fn lemma_tests_against_without(
    current: Seq<ObjectRef>,
    above: Seq<ObjectRef>,
    same_cell: bool,
    n: nat,
    pair: (ObjectRef, ObjectRef),
)
    requires
        n <= above.len(),
        same_cell ==> above == current,
        !current.contains(pair.0),
    ensures
        occurrences(tests_against(current, above, same_cell, n), pair) == 0,
    decreases n,
{
    if n == 0 {
        lemma_occurrences_empty(pair);
    } else {
        let m = (n - 1) as nat;
        lemma_tests_against_without(current, above, same_cell, m, pair);
        lemma_tests_with_occurrences(current, above[n - 1], same_cell, n - 1, pair);
        lemma_occurrences_concat(
            tests_against(current, above, same_cell, m),
            tests_with(current, above[n - 1], same_cell, n - 1),
            pair,
        );
        let part = rivals(current, same_cell, n - 1);
        if part.contains(pair.0) {
            lemma_rivals_are_current(current, same_cell, n - 1, pair.0);
        }
        lemma_copies_of_absent(part, pair.0);
    }
}

/// Where the second object of a pair stands at no place of a cell on the
/// way but, at most, place `j`: the tests against the first `n` objects of
/// that cell give the pair as often as its first object occurs among the
/// rivals of that place, if the place is among the first `n` and holds the
/// second object, and not at all otherwise.
pub proof fn lemma_tests_against_single(
    current: Seq<ObjectRef>,
    above: Seq<ObjectRef>,
    same_cell: bool,
    n: nat,
    pair: (ObjectRef, ObjectRef),
    j: int,
)
    requires
        n <= above.len(),
        forall|t: int| 0 <= t < above.len() && t != j ==> above[t] != pair.1,
    ensures
        occurrences(tests_against(current, above, same_cell, n), pair) == if 0 <= j < n && above[j]
            == pair.1 {
            copies(rivals(current, same_cell, j), pair.0)
        } else {
            0
        },
    decreases n,
{
    if n == 0 {
        lemma_occurrences_empty(pair);
    } else {
        let m = (n - 1) as nat;
        lemma_tests_against_single(current, above, same_cell, m, pair, j);
        lemma_tests_with_occurrences(current, above[n - 1], same_cell, n - 1, pair);
        lemma_occurrences_concat(
            tests_against(current, above, same_cell, m),
            tests_with(current, above[n - 1], same_cell, n - 1),
            pair,
        );
    }
}

/// The way to a cell goes through cells of ever greater index.
pub proof fn lemma_path_increasing(k: int)
    requires
        0 <= k,
    ensures
        forall|i: int, j: int| 0 <= i < j < path(k).len() ==> path(k)[i] < path(k)[j],
    decreases k,
{
    if k > 0 {
        lemma_path_increasing(parent(k));
        lemma_path_bounds(parent(k));
    }
}

/// Overlap does not depend on the order of the two circles.
pub proof fn lemma_overlaps_symmetric(a: Circle, b: Circle)
    ensures
        a.overlaps(b) == b.overlaps(a),
{
    let dx = a.center.x - b.center.x;
    let dy = a.center.y - b.center.y;
    assert(dx * dx == (-dx) * (-dx)) by (nonlinear_arith);
    assert(dy * dy == (-dy) * (-dy)) by (nonlinear_arith);
}

impl TreeModel {
    /// The visit of a cell never tests a pair whose first object the cell
    /// does not hold.
    pub proof fn lemma_tests_on_path_without(self, k: int, m: nat, pair: (ObjectRef, ObjectRef))
        requires
            !self.objects[k].contains(pair.0),
        ensures
            occurrences(self.tests_on_path(k, m), pair) == 0,
        decreases m,
    {
        if m == 0 {
            lemma_occurrences_empty(pair);
        } else {
            let cell = path(k)[m - 1];
            let above = self.objects[cell];
            self.lemma_tests_on_path_without(k, (m - 1) as nat, pair);
            lemma_tests_against_without(self.objects[k], above, cell == k, above.len(), pair);
            lemma_occurrences_concat(
                self.tests_on_path(k, (m - 1) as nat),
                tests_against(self.objects[k], above, cell == k, above.len()),
                pair,
            );
        }
    }

    /// Where no handle is held twice: the tests at a cell against the
    /// first `m` cells on the way give a pair as often as its first object
    /// occurs among the rivals of the second, if the cell of the second is
    /// among those cells, and not at all otherwise.
    pub proof fn lemma_tests_on_path_distinct(
        self,
        k: int,
        m: nat,
        pair: (ObjectRef, ObjectRef),
        l: int,
        j: int,
    )
        requires
            self.handles_distinct(),
            0 <= k < self.objects.len(),
            m <= path(k).len(),
            self.held_at(l, j, pair.1),
        ensures
            occurrences(self.tests_on_path(k, m), pair) == if exists|i: int|
                0 <= i < m && path(k)[i] == l {
                copies(rivals(self.objects[k], l == k, j), pair.0)
            } else {
                0
            },
        decreases m,
    {
        if m == 0 {
            lemma_occurrences_empty(pair);
        } else {
            lemma_path_bounds(k);
            lemma_path_increasing(k);
            let cell = path(k)[m - 1];
            let above = self.objects[cell];
            self.lemma_tests_on_path_distinct(k, (m - 1) as nat, pair, l, j);
            self.lemma_distinct_cells(cell, pair.1, l, j);
            lemma_occurrences_concat(
                self.tests_on_path(k, (m - 1) as nat),
                tests_against(self.objects[k], above, cell == k, above.len()),
                pair,
            );
            if cell == l {
                lemma_tests_against_single(self.objects[k], above, cell == k, above.len(), pair, j);
                assert(path(k)[m - 1] == l);
                assert(!exists|i: int| 0 <= i < m - 1 && path(k)[i] == l);
            } else {
                lemma_tests_against_single(self.objects[k], above, cell == k, above.len(), pair, -1);
                if exists|i: int| 0 <= i < m && path(k)[i] == l {
                    let i = choose|i: int| 0 <= i < m && path(k)[i] == l;
                    assert(0 <= i < m - 1 && path(k)[i] == l);
                }
            }
        }
    }

    /// Where no handle is held twice: how often the visit of the cell of
    /// the pair's first object tests the pair. It is tested once if the
    /// second object is held at a cell above, or at the same cell and later
    /// in its list; otherwise it is not tested.
    pub proof fn lemma_tests_at_distinct(
        self,
        first: ObjectRef,
        k: int,
        i: int,
        second: ObjectRef,
        l: int,
        j: int,
    )
        requires
            self.handles_distinct(),
            self.held_at(k, i, first),
            self.held_at(l, j, second),
        ensures
            occurrences(self.tests_at(k), (first, second)) == if is_ancestor(l, k) && (l != k || i < j) {
                1nat
            } else {
                0nat
            },
    {
        let pair = (first, second);
        let current = self.objects[k];
        self.lemma_tests_on_path_distinct(k, path(k).len(), pair, l, j);
        lemma_path_holds_ancestors(l, k);
        if path(k).contains(l) {
            let t = choose|t: int| 0 <= t < path(k).len() && path(k)[t] == l;
            assert(0 <= t < path(k).len() && path(k)[t] == l);
        }
        // the copies of `first` among the rivals of `second`
        self.lemma_distinct_cells(k, first, k, i);
        let part = rivals(current, l == k, j);
        if l == k {
            assert(part.no_duplicates());
            if i < j {
                assert(part[i] == first);
            } else if part.contains(first) {
                let t = choose|t: int| 0 <= t < part.len() && part[t] == first;
                assert(current[t] == first);
            }
        } else {
            assert(current[i] == first);
        }
        lemma_copies_unique(part, first);
    }

    /// Where no handle is held twice, the sweep of a subtree tests a pair
    /// as often as the visit of the cell of the pair's first object does, if
    /// that cell lies in the subtree, and not at all if it does not.
    pub proof fn lemma_sweep_occurrences(self, n: int, pair: (ObjectRef, ObjectRef), k: int, i: int)
        requires
            self.well_formed(),
            self.handles_distinct(),
            0 <= n < self.cells.len(),
            self.held_at(k, i, pair.0),
        ensures
            occurrences(self.sweep(n), pair) == if is_ancestor(n, k) {
                occurrences(self.tests_at(k), pair)
            } else {
                0
            },
        decreases self.cells.len() - n,
    {
        self.lemma_quadrants_all_or_none(n, 0);
        self.lemma_quadrants_all_or_none(n, 1);
        self.lemma_quadrants_all_or_none(n, 2);
        self.lemma_quadrants_all_or_none(n, 3);
        lemma_child_on_the_way(n, 0, k);
        lemma_child_on_the_way(n, 1, k);
        lemma_child_on_the_way(n, 2, k);
        lemma_child_on_the_way(n, 3, k);
        if n != k {
            self.lemma_distinct_cells(n, pair.0, k, i);
            self.lemma_tests_on_path_without(n, path(n).len(), pair);
        }
        if self.has_children(n) {
            let s0 = self.sweep(child(n, 0));
            let s1 = self.sweep(child(n, 1));
            let s2 = self.sweep(child(n, 2));
            let s3 = self.sweep(child(n, 3));
            self.lemma_sweep_occurrences(child(n, 0), pair, k, i);
            self.lemma_sweep_occurrences(child(n, 1), pair, k, i);
            self.lemma_sweep_occurrences(child(n, 2), pair, k, i);
            self.lemma_sweep_occurrences(child(n, 3), pair, k, i);
            lemma_occurrences_concat(self.tests_at(n), s0, pair);
            lemma_occurrences_concat(self.tests_at(n) + s0, s1, pair);
            lemma_occurrences_concat(self.tests_at(n) + s0 + s1, s2, pair);
            lemma_occurrences_concat(self.tests_at(n) + s0 + s1 + s2, s3, pair);
            if is_ancestor(n, k) && n != k {
                lemma_step_toward_is_a_quadrant(n, k);
            }
        } else {
            if is_ancestor(n, k) && n != k {
                lemma_step_toward_is_a_quadrant(n, k);
                let q = step_toward(n, k);
                assert(is_ancestor(child(n, q), k));
                lemma_ancestor_bounds(child(n, q), k);
            }
        }
    }

    /// No sweep tests a pair whose first object the tree does not hold.
    pub proof fn lemma_sweep_without(self, n: int, pair: (ObjectRef, ObjectRef))
        requires
            !self.holds(pair.0),
            0 <= n < self.objects.len(),
            self.objects.len() == self.cells.len(),
        ensures
            occurrences(self.sweep(n), pair) == 0,
        decreases self.cells.len() - n,
    {
        if self.objects[n].contains(pair.0) {
            let t = choose|t: int| 0 <= t < self.objects[n].len() && self.objects[n][t] == pair.0;
            assert(self.held_at(n, t, pair.0));
        }
        self.lemma_tests_on_path_without(n, path(n).len(), pair);
        if self.has_children(n) {
            let s0 = self.sweep(child(n, 0));
            let s1 = self.sweep(child(n, 1));
            let s2 = self.sweep(child(n, 2));
            let s3 = self.sweep(child(n, 3));
            self.lemma_sweep_without(child(n, 0), pair);
            self.lemma_sweep_without(child(n, 1), pair);
            self.lemma_sweep_without(child(n, 2), pair);
            self.lemma_sweep_without(child(n, 3), pair);
            lemma_occurrences_concat(self.tests_at(n), s0, pair);
            lemma_occurrences_concat(self.tests_at(n) + s0, s1, pair);
            lemma_occurrences_concat(self.tests_at(n) + s0 + s1, s2, pair);
            lemma_occurrences_concat(self.tests_at(n) + s0 + s1 + s2, s3, pair);
        }
    }
}

impl TreeModel {
    /// The visit of a cell never tests a pair whose second object the tree
    /// does not hold.
    pub proof fn lemma_tests_on_path_without_second(self, k: int, m: nat, pair: (ObjectRef, ObjectRef))
        requires
            !self.holds(pair.1),
            0 <= k < self.objects.len(),
            m <= path(k).len(),
        ensures
            occurrences(self.tests_on_path(k, m), pair) == 0,
        decreases m,
    {
        if m == 0 {
            lemma_occurrences_empty(pair);
        } else {
            lemma_path_bounds(k);
            let cell = path(k)[m - 1];
            let above = self.objects[cell];
            self.lemma_tests_on_path_without_second(k, (m - 1) as nat, pair);
            assert forall|t: int| 0 <= t < above.len() implies above[t] != pair.1 by {
                if above[t] == pair.1 {
                    assert(self.held_at(cell, t, pair.1));
                }
            }
            lemma_tests_against_single(self.objects[k], above, cell == k, above.len(), pair, -1);
            lemma_occurrences_concat(
                self.tests_on_path(k, (m - 1) as nat),
                tests_against(self.objects[k], above, cell == k, above.len()),
                pair,
            );
        }
    }

    /// No sweep tests a pair whose second object the tree does not hold.
    pub proof fn lemma_sweep_without_second(self, n: int, pair: (ObjectRef, ObjectRef))
        requires
            !self.holds(pair.1),
            0 <= n < self.objects.len(),
            self.objects.len() == self.cells.len(),
        ensures
            occurrences(self.sweep(n), pair) == 0,
        decreases self.cells.len() - n,
    {
        self.lemma_tests_on_path_without_second(n, path(n).len(), pair);
        if self.has_children(n) {
            let s0 = self.sweep(child(n, 0));
            let s1 = self.sweep(child(n, 1));
            let s2 = self.sweep(child(n, 2));
            let s3 = self.sweep(child(n, 3));
            self.lemma_sweep_without_second(child(n, 0), pair);
            self.lemma_sweep_without_second(child(n, 1), pair);
            self.lemma_sweep_without_second(child(n, 2), pair);
            self.lemma_sweep_without_second(child(n, 3), pair);
            lemma_occurrences_concat(self.tests_at(n), s0, pair);
            lemma_occurrences_concat(self.tests_at(n) + s0, s1, pair);
            lemma_occurrences_concat(self.tests_at(n) + s0 + s1, s2, pair);
            lemma_occurrences_concat(self.tests_at(n) + s0 + s1 + s2, s3, pair);
        }
    }
}

/// How often the object `a` is called with the other object `b` when the
/// reported pairs are handed to the objects: once for each report of the
/// two, in either order.
pub open spec fn calls(tree: TreeModel, circles: Seq<Circle>, a: ObjectRef, b: ObjectRef) -> nat {
    occurrences(tree.collisions(circles), (a, b)) + occurrences(tree.collisions(circles), (b, a))
}

/// In a tree where no handle is held twice and every object rests where
/// its circle comes to rest, two different objects whose circles overlap are
/// reported as one pair, once: each of the two is called once with the
/// other, wherever in the tree they are held.
pub proof fn lemma_overlapping_pair_is_reported_once(
    tree: TreeModel,
    circles: Seq<Circle>,
    a: ObjectRef,
    b: ObjectRef,
)
    requires
        tree.well_formed(),
        tree.handles_distinct(),
        tree.rests_by(circles),
        tree.holds(a),
        tree.holds(b),
        a != b,
        circles[a.index as int].overlaps(circles[b.index as int]),
    ensures
        calls(tree, circles, a, b) == 1,
        calls(tree, circles, b, a) == 1,
{
    let (ka, ia) = choose|k: int, i: int| tree.held_at(k, i, a);
    let (kb, ib) = choose|k: int, i: int| tree.held_at(k, i, b);
    assert(tree.held_at(ka, ia, a));
    assert(tree.held_at(kb, ib, b));
    let ca = circles[a.index as int];
    let cb = circles[b.index as int];
    assert(tree.home(circles[tree.objects[ka][ia].index as int]) == ka);
    assert(tree.home(circles[tree.objects[kb][ib].index as int]) == kb);
    tree.lemma_quadrants_all_or_none(0, 0);
    lemma_grid_scale_positive(tree.max_depth);
    tree.lemma_overlapping_circles_rest_on_one_way(0, ca, cb);
    lemma_overlaps_symmetric(ca, cb);
    lemma_root_is_ancestor(ka);
    lemma_root_is_ancestor(kb);
    tree.lemma_sweep_occurrences(0, (a, b), ka, ia);
    tree.lemma_sweep_occurrences(0, (b, a), kb, ib);
    tree.lemma_tests_at_distinct(a, ka, ia, b, kb, ib);
    tree.lemma_tests_at_distinct(b, kb, ib, a, ka, ia);
    lemma_occurrences_filter(tree.sweep(0), circles, (a, b));
    lemma_occurrences_filter(tree.sweep(0), circles, (b, a));
    if is_ancestor(ka, kb) && is_ancestor(kb, ka) {
        lemma_ancestor_antisymmetric(ka, kb);
    }
}

/// Two objects whose circles do not overlap are not reported, in either
/// order: neither is called with the other.
pub proof fn lemma_apart_pair_is_not_reported(tree: TreeModel, circles: Seq<Circle>, a: ObjectRef, b: ObjectRef)
    requires
        !circles[a.index as int].overlaps(circles[b.index as int]),
    ensures
        calls(tree, circles, a, b) == 0,
        calls(tree, circles, b, a) == 0,
{
    lemma_overlaps_symmetric(circles[a.index as int], circles[b.index as int]);
    lemma_occurrences_filter(tree.sweep(0), circles, (a, b));
    lemma_occurrences_filter(tree.sweep(0), circles, (b, a));
}

/// In a tree where no handle is held twice, no object is reported as
/// colliding with itself: no object is called with its own handle.
pub proof fn lemma_no_object_meets_itself(tree: TreeModel, circles: Seq<Circle>, object: ObjectRef)
    requires
        tree.well_formed(),
        tree.handles_distinct(),
    ensures
        calls(tree, circles, object, object) == 0,
{
    tree.lemma_quadrants_all_or_none(0, 0);
    if tree.holds(object) {
        let (k, i) = choose|k: int, i: int| tree.held_at(k, i, object);
        assert(tree.held_at(k, i, object));
        lemma_root_is_ancestor(k);
        tree.lemma_sweep_occurrences(0, (object, object), k, i);
        tree.lemma_tests_at_distinct(object, k, i, object, k, i);
    } else {
        tree.lemma_sweep_without(0, (object, object));
    }
    lemma_occurrences_filter(tree.sweep(0), circles, (object, object));
}

/// An object that the tree does not hold is never reported, neither as the
/// first object of a pair nor as the second: it is called with no other
/// object, and no other object is called with it.
pub proof fn lemma_unheld_object_is_not_reported(
    tree: TreeModel,
    circles: Seq<Circle>,
    a: ObjectRef,
    b: ObjectRef,
)
    requires
        tree.well_formed(),
        !tree.holds(a) || !tree.holds(b),
    ensures
        calls(tree, circles, a, b) == 0,
        calls(tree, circles, b, a) == 0,
{
    tree.lemma_quadrants_all_or_none(0, 0);
    if !tree.holds(a) {
        tree.lemma_sweep_without(0, (a, b));
        tree.lemma_sweep_without_second(0, (b, a));
    } else {
        tree.lemma_sweep_without(0, (b, a));
        tree.lemma_sweep_without_second(0, (a, b));
    }
    lemma_occurrences_filter(tree.sweep(0), circles, (a, b));
    lemma_occurrences_filter(tree.sweep(0), circles, (b, a));
}

} // verus!
