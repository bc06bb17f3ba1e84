//! The mathematical model of the quadtree: its cells, laid out level by
//! level in one sequence, and the objects held at each cell.
//!
//! Cell 0 is the whole space. The four quadrants of cell `k` are the cells
//! `4k + 1` to `4k + 4`; a cell either has all four or none.
//!
//! Cells are measured in units of which `2^max_depth` make one step of the
//! grid that the objects live on. A half-width can so be halved once for
//! each level of the tree and stay whole: every quadrant is exactly half
//! its cell, whatever the half-width of the space.

use crate::collision::primitives::Circle;
use crate::common::objects::ObjectRef;
use crate::types::Vector2;
use vstd::multiset::Multiset;
use vstd::prelude::*;

verus! {

/// The number of cells of a tree with `levels` levels: 0, 1, 5, 21, ...
pub open spec fn arena_len(levels: nat) -> nat
    decreases levels,
{
    if levels == 0 {
        0
    } else {
        4 * arena_len((levels - 1) as nat) + 1
    }
}

/// The number of units that make one step of the grid, in a tree of the
/// given depth: 1, 2, 4, 8, ...
pub open spec fn grid_scale(max_depth: nat) -> nat
    decreases max_depth,
{
    if max_depth == 0 {
        1
    } else {
        2 * grid_scale((max_depth - 1) as nat)
    }
}

/// The number of cells on the way from the root to cell `k`, `k` itself
/// left out: 0 for the root, 1 for its quadrants, and so on.
pub open spec fn level(k: int) -> nat
    decreases k,
{
    if k <= 0 {
        0
    } else {
        1 + level(parent(k))
    }
}

/// A square region of space: its center and its half-width, in units of
/// the tree.
pub struct Cell {
    pub x: int,
    pub y: int,
    pub half_width: nat,
}

/// Quadrant `q` of `cell`. Bit 0 of `q` chooses the side of greater x, bit 1
/// the side of greater y; the quadrant's half-width is half the cell's. In
/// a tree the half-width of a cell that has quadrants is even, so that the
/// half is exact.
pub open spec fn child_cell(cell: Cell, q: int) -> Cell {
    let step = cell.half_width / 2;
    Cell {
        x: if q % 2 == 1 {
            cell.x + step
        } else {
            cell.x - step
        },
        y: if q / 2 == 1 {
            cell.y + step
        } else {
            cell.y - step
        },
        half_width: step,
    }
}

/// The quadrant of `cell` that `bounds` lies in, or `None` where the circle
/// straddles one of the two lines that divide the cell: where its center is
/// no further from the line than its radius. The circle is given in steps
/// of the grid, of which each is `scale` units of the cell.
pub open spec fn quadrant(cell: Cell, bounds: Circle, scale: nat) -> Option<int> {
    let dx = bounds.center.x * scale - cell.x;
    let dy = bounds.center.y * scale - cell.y;
    let reach = bounds.radius * scale;
    if vstd::math::abs(dx) > reach && vstd::math::abs(dy) > reach {
        Some(
            (if dx > 0 {
                1int
            } else {
                0int
            }) + (if dy > 0 {
                2int
            } else {
                0int
            }),
        )
    } else {
        None
    }
}

/// The index of quadrant `q` of cell `k`.
pub open spec fn child(k: int, q: int) -> int {
    4 * k + 1 + q
}

/// The index of the cell that cell `k` is a quadrant of, for `k > 0`.
pub open spec fn parent(k: int) -> int {
    (k - 1) / 4
}

/// Whether cell `a` is cell `n` or lies above it on the way to the root.
pub open spec fn is_ancestor(a: int, n: int) -> bool
    decreases n,
{
    a == n || (n > 0 && is_ancestor(a, parent(n)))
}

/// The cells on the way from the root to cell `k`, the root first and `k`
/// last.
pub open spec fn path(k: int) -> Seq<int>
    decreases k,
{
    if k <= 0 {
        seq![0int]
    } else {
        path(parent(k)).push(k)
    }
}

/// The objects of the visited cell that an object of a cell on the way is
/// pitted against: all of `current`, or, where the cell on the way is the
/// visited cell itself and the object stands at place `j` of its list, the
/// objects before that place. So no place is pitted against itself, and two
/// places of one cell are pitted against each other once.
pub open spec fn rivals(current: Seq<ObjectRef>, same_cell: bool, j: int) -> Seq<ObjectRef> {
    if same_cell {
        current.take(j)
    } else {
        current
    }
}

/// The pair that pits `other` against an object of the cell being visited.
pub open spec fn against(other: ObjectRef) -> spec_fn(ObjectRef) -> (ObjectRef, ObjectRef) {
    |object: ObjectRef| (object, other)
}

/// The pairs tested for the object `other` that stands at place `j` of a
/// cell on the way: it is pitted against its rivals in order.
pub open spec fn tests_with(current: Seq<ObjectRef>, other: ObjectRef, same_cell: bool, j: int) -> Seq<
    (ObjectRef, ObjectRef),
> {
    rivals(current, same_cell, j).map_values(against(other))
}

/// The pairs tested for the first `n` objects of `above`, a cell on the way,
/// against the objects `current` of the visited cell.
pub open spec fn tests_against(current: Seq<ObjectRef>, above: Seq<ObjectRef>, same_cell: bool, n: nat) -> Seq<
    (ObjectRef, ObjectRef),
>
    decreases n,
{
    if n == 0 {
        Seq::empty()
    } else {
        tests_against(current, above, same_cell, (n - 1) as nat) + tests_with(
            current,
            above[n - 1],
            same_cell,
            n - 1,
        )
    }
}

/// Whether the circles of the two objects of a pair overlap, where
/// `circles[h.index]` is the bounding circle of the object `h`.
pub open spec fn touching(circles: Seq<Circle>) -> spec_fn((ObjectRef, ObjectRef)) -> bool {
    |pair: (ObjectRef, ObjectRef)|
        circles[pair.0.index as int].overlaps(circles[pair.1.index as int])
}

/// Whether `object` is one of the two objects of some pair of `pairs`.
pub open spec fn involves(pairs: Seq<(ObjectRef, ObjectRef)>, object: ObjectRef) -> bool {
    exists|i: int| 0 <= i < pairs.len() && (#[trigger] pairs[i].0 == object || pairs[i].1 == object)
}

/// What a quadtree is: its cells, the objects held at each, and the
/// relocations waiting to be carried out.
pub struct TreeModel {
    /// The greatest number of subdivisions between the root and a cell.
    pub max_depth: nat,
    /// The number of units of the cells that make one step of the grid.
    pub scale: nat,
    /// The region of each cell, in those units.
    pub cells: Seq<Cell>,
    /// The objects held at each cell, in the order they came.
    pub objects: Seq<Seq<ObjectRef>>,
    /// The scheduled relocations: an object and the position it had when it
    /// was last placed, oldest first.
    pub pending: Seq<(ObjectRef, Vector2)>,
}

impl TreeModel {
    /// Whether cell `k` is subdivided.
    pub open spec fn has_children(self, k: int) -> bool {
        4 * k + 4 < self.cells.len()
    }

    /// The shape of a tree: `max_depth + 1` full levels, a unit fine enough
    /// to halve the half-width of the space once for each level, each
    /// cell's quadrants placed around its center and exactly half its size,
    /// and an object list for each cell.
    pub open spec fn well_formed(self) -> bool {
        &&& self.scale == grid_scale(self.max_depth)
        &&& self.cells.len() == arena_len(self.max_depth + 1)
        &&& self.objects.len() == self.cells.len()
        &&& forall|k: int|
            0 <= k && self.has_children(k) ==> (#[trigger] self.cells[k]).half_width % 2 == 0
        &&& forall|k: int, q: int|
            0 <= k && 0 <= q < 4 && child(k, q) < self.cells.len() ==> #[trigger] self.cells[child(
                k,
                q,
            )] == child_cell(self.cells[k], q)
    }

    /// The cell at which a circle comes to rest when it is handed down from
    /// cell `k`: the first cell on the way that has no quadrants or whose
    /// dividing lines the circle straddles.
    pub open spec fn locate(self, k: int, bounds: Circle) -> int
        decreases self.cells.len() - k,
    {
        if 0 <= k && self.has_children(k) {
            match quadrant(self.cells[k], bounds, self.scale) {
                Some(q) => self.locate(child(k, q), bounds),
                None => k,
            }
        } else {
            k
        }
    }

    /// The cell at which a circle comes to rest when handed down from the root.
    pub open spec fn home(self, bounds: Circle) -> int {
        self.locate(0, bounds)
    }

    /// The tree with `object` appended to the list of the home cell of `bounds`.
    pub open spec fn insert(self, object: ObjectRef, bounds: Circle) -> TreeModel {
        let k = self.home(bounds);
        TreeModel { objects: self.objects.update(k, self.objects[k].push(object)), ..self }
    }

    /// Whether `object` is held at the home cell of `bounds`.
    pub open spec fn holds_at(self, object: ObjectRef, bounds: Circle) -> bool {
        self.objects[self.home(bounds)].contains(object)
    }

    /// The tree without the first occurrence of `object` in the list of the
    /// home cell of `bounds`; the same tree where it does not occur there.
    pub open spec fn remove(self, object: ObjectRef, bounds: Circle) -> TreeModel {
        let k = self.home(bounds);
        TreeModel { objects: self.objects.update(k, self.objects[k].remove_value(object)), ..self }
    }

    /// The tree with one more relocation scheduled.
    pub open spec fn schedule(self, object: ObjectRef, old_position: Vector2) -> TreeModel {
        TreeModel { pending: self.pending.push((object, old_position)), ..self }
    }

    /// The circle an object had where it was last placed: its circle now,
    /// `circles[object.index]`, moved to `old_position`.
    pub open spec fn prior_bounds(object: ObjectRef, old_position: Vector2, circles: Seq<Circle>) -> Circle {
        Circle { center: old_position, radius: circles[object.index as int].radius }
    }

    /// The tree after `object` is taken from where it rested at
    /// `old_position` and placed anew by its circle `circles[object.index]`.
    pub open spec fn relocate(self, object: ObjectRef, old_position: Vector2, circles: Seq<Circle>) -> TreeModel {
        self.remove(object, Self::prior_bounds(object, old_position, circles)).insert(
            object,
            circles[object.index as int],
        )
    }

    /// The tree after the relocations `moves` are carried out in order, and
    /// whether all of them were: the first relocation whose object is not
    /// found where it is looked for ends the run, and neither it nor those
    /// after it change the tree.
    pub open spec fn relocate_all(self, moves: Seq<(ObjectRef, Vector2)>, circles: Seq<Circle>) -> (
        TreeModel,
        bool,
    )
        decreases moves.len(),
    {
        if moves.len() == 0 {
            (self, true)
        } else {
            let (tree, done) = self.relocate_all(moves.drop_last(), circles);
            let (object, old_position) = moves.last();
            if done && tree.holds_at(object, Self::prior_bounds(object, old_position, circles)) {
                (tree.relocate(object, old_position, circles), true)
            } else {
                (tree, false)
            }
        }
    }

    /// The tree with no relocation scheduled.
    pub open spec fn unscheduled(self) -> TreeModel {
        TreeModel { pending: Seq::empty(), ..self }
    }

    /// The objects that a walk of the subtree of cell `k` yields, in order:
    /// those of the quadrants, the last quadrant first, then those held at
    /// `k` itself.
    pub open spec fn traversal(self, k: int) -> Seq<ObjectRef>
        decreases self.cells.len() - k,
    {
        if 0 <= k && self.has_children(k) {
            self.traversal(child(k, 3)) + self.traversal(child(k, 2)) + self.traversal(child(k, 1))
                + self.traversal(child(k, 0)) + self.objects[k]
        } else {
            self.objects[k]
        }
    }

    /// The number of cells in the subtree of cell `k`.
    pub open spec fn subtree_size(self, k: int) -> nat
        decreases self.cells.len() - k,
    {
        if 0 <= k && self.has_children(k) {
            1 + self.subtree_size(child(k, 0)) + self.subtree_size(child(k, 1)) + self.subtree_size(
                child(k, 2),
            ) + self.subtree_size(child(k, 3))
        } else {
            1
        }
    }

    /// The pairs tested when the sweep visits cell `k`, as far as they pit
    /// the objects held at `k` against those of the first `n` cells on the
    /// way from the root to `k`.
    pub open spec fn tests_on_path(self, k: int, n: nat) -> Seq<(ObjectRef, ObjectRef)>
        decreases n,
    {
        if n == 0 {
            Seq::empty()
        } else {
            let cell = path(k)[n - 1];
            let above = self.objects[cell];
            self.tests_on_path(k, (n - 1) as nat) + tests_against(
                self.objects[k],
                above,
                cell == k,
                above.len(),
            )
        }
    }

    /// The pairs tested when the sweep visits cell `k`: the objects held at
    /// `k` against those of every cell from the root down to `k` itself.
    pub open spec fn tests_at(self, k: int) -> Seq<(ObjectRef, ObjectRef)> {
        self.tests_on_path(k, path(k).len())
    }

    /// The pairs tested by the sweep of the subtree of cell `k`, in order:
    /// those of `k`, then those of its quadrants, the first quadrant first.
    pub open spec fn sweep(self, k: int) -> Seq<(ObjectRef, ObjectRef)>
        decreases self.cells.len() - k,
    {
        if 0 <= k && self.has_children(k) {
            self.tests_at(k) + self.sweep(child(k, 0)) + self.sweep(child(k, 1)) + self.sweep(
                child(k, 2),
            ) + self.sweep(child(k, 3))
        } else {
            self.tests_at(k)
        }
    }

    /// The pairs that a collision sweep of the whole tree reports, in order,
    /// where `circles[h.index]` is the bounding circle of the object `h`:
    /// the tested pairs whose circles overlap.
    pub open spec fn collisions(self, circles: Seq<Circle>) -> Seq<(ObjectRef, ObjectRef)> {
        self.sweep(0).filter(touching(circles))
    }

    /// What a walk yields for the first `q` quadrants of cell `k`: the
    /// later quadrant first.
    pub open spec fn quadrants_traversal(self, k: int, q: nat) -> Seq<ObjectRef>
        decreases q,
    {
        if q == 0 {
            Seq::empty()
        } else {
            self.traversal(child(k, q - 1)) + self.quadrants_traversal(k, (q - 1) as nat)
        }
    }

    /// The number of cells in the subtrees of the first `q` quadrants of
    /// cell `k`.
    pub open spec fn quadrants_size(self, k: int, q: nat) -> nat
        decreases q,
    {
        if q == 0 {
            0
        } else {
            self.quadrants_size(k, (q - 1) as nat) + self.subtree_size(child(k, q - 1))
        }
    }

    /// The pairs tested by the sweeps of the first `q` quadrants of cell
    /// `k`, the first quadrant first.
    pub open spec fn quadrants_sweep(self, k: int, q: nat) -> Seq<(ObjectRef, ObjectRef)>
        decreases q,
    {
        if q == 0 {
            Seq::empty()
        } else {
            self.quadrants_sweep(k, (q - 1) as nat) + self.sweep(child(k, q - 1))
        }
    }

    /// A walk of a subdivided cell yields what its four quadrants yield, then
    /// the cell's own objects; its subtree is the cell and the four subtrees.
    pub proof fn lemma_quadrants_traversal(self, k: int)
        requires
            0 <= k,
            self.has_children(k),
        ensures
            self.traversal(k) == self.quadrants_traversal(k, 4) + self.objects[k],
            self.subtree_size(k) == 1 + self.quadrants_size(k, 4),
    {
        reveal_with_fuel(TreeModel::quadrants_traversal, 5);
        reveal_with_fuel(TreeModel::quadrants_size, 5);
        assert(self.quadrants_traversal(k, 4) =~= self.traversal(child(k, 3)) + self.traversal(
            child(k, 2),
        ) + self.traversal(child(k, 1)) + self.traversal(child(k, 0)));
    }

    /// The sweep of a subdivided cell tests the pairs of the cell, then
    /// those of its four quadrants.
    pub proof fn lemma_quadrants_sweep(self, k: int)
        requires
            0 <= k,
            self.has_children(k),
        ensures
            self.sweep(k) == self.tests_at(k) + self.quadrants_sweep(k, 4),
    {
        reveal_with_fuel(TreeModel::quadrants_sweep, 5);
        assert(self.tests_at(k) + self.quadrants_sweep(k, 4) =~= self.tests_at(k) + self.sweep(
            child(k, 0),
        ) + self.sweep(child(k, 1)) + self.sweep(child(k, 2)) + self.sweep(child(k, 3)));
    }

    /// The objects held at the first `n` cells, each as often as it is held.
    pub open spec fn contents_upto(self, n: nat) -> Multiset<ObjectRef>
        decreases n,
    {
        if n == 0 {
            Multiset::empty()
        } else {
            self.contents_upto((n - 1) as nat).add(self.objects[n - 1].to_multiset())
        }
    }

    /// All objects held in the tree, each as often as it is held.
    pub open spec fn contents(self) -> Multiset<ObjectRef> {
        self.contents_upto(self.objects.len())
    }

    /// Whether every handle held in the tree has an index below `n`.
    pub open spec fn held_below(self, n: nat) -> bool {
        forall|k: int, i: int|
            0 <= k < self.objects.len() && 0 <= i < self.objects[k].len() ==> (
            #[trigger] self.objects[k][i]).index < n
    }

    /// Whether every handle among the scheduled relocations has an index
    /// below `n`.
    pub open spec fn pending_below(self, n: nat) -> bool {
        forall|j: int| 0 <= j < self.pending.len() ==> (#[trigger] self.pending[j]).0.index < n
    }

    /// Whether `object` is held at cell `k`, at place `i` of its list.
    pub open spec fn held_at(self, k: int, i: int, object: ObjectRef) -> bool {
        &&& 0 <= k < self.objects.len()
        &&& 0 <= i < self.objects[k].len()
        &&& self.objects[k][i] == object
    }

    /// Whether `object` is held somewhere in the tree.
    pub open spec fn holds(self, object: ObjectRef) -> bool {
        exists|k: int, i: int| self.held_at(k, i, object)
    }

    /// Whether every object rests where its circle comes to rest, with
    /// `circles[h.index]` as the bounding circle of the object `h`.
    pub open spec fn rests_by(self, circles: Seq<Circle>) -> bool {
        forall|k: int, i: int|
            0 <= k < self.objects.len() && 0 <= i < self.objects[k].len() ==> self.home(
                circles[(#[trigger] self.objects[k][i]).index as int],
            ) == k
    }

    /// Whether no handle is held twice in the tree.
    pub open spec fn handles_distinct(self) -> bool {
        forall|k: int, i: int, l: int, j: int|
            0 <= k < self.objects.len() && 0 <= i < self.objects[k].len() && 0 <= l
                < self.objects.len() && 0 <= j < self.objects[l].len() && #[trigger] self.objects[k][i]
                == #[trigger] self.objects[l][j] ==> k == l && i == j
    }
}

/// More levels never make for fewer cells.
pub proof fn lemma_arena_len_monotonic(a: nat, b: nat)
    requires
        a <= b,
    ensures
        arena_len(a) <= arena_len(b),
    decreases b,
{
    if a < b {
        lemma_arena_len_monotonic(a, (b - 1) as nat);
    }
}

/// The size of the largest tree that can be built: sixteen levels.
pub proof fn lemma_arena_len_sixteen()
    ensures
        arena_len(16) == 1431655765,
{
    assert(arena_len(1) == 1) by {
        reveal_with_fuel(arena_len, 2);
    }
    assert(arena_len(2) == 5);
    assert(arena_len(3) == 21);
    assert(arena_len(4) == 85);
    assert(arena_len(5) == 341);
    assert(arena_len(6) == 1365);
    assert(arena_len(7) == 5461);
    assert(arena_len(8) == 21845);
    assert(arena_len(9) == 87381);
    assert(arena_len(10) == 349525);
    assert(arena_len(11) == 1398101);
    assert(arena_len(12) == 5592405);
    assert(arena_len(13) == 22369621);
    assert(arena_len(14) == 89478485);
    assert(arena_len(15) == 357913941);
}

impl TreeModel {
    /// A tree of at most sixteen levels has at least one cell, and fewer
    /// than 2^31.
    pub proof fn lemma_cell_count_bounds(self)
        requires
            self.well_formed(),
            self.max_depth <= 15,
        ensures
            1 <= self.cells.len() <= 1431655765,
    {
        lemma_arena_len_sixteen();
        lemma_arena_len_monotonic(self.max_depth + 1, 16);
        lemma_arena_len_monotonic(1, self.max_depth + 1);
        assert(arena_len(1) == 1) by {
            reveal_with_fuel(arena_len, 2);
        }
    }

    /// Handing a circle down from a cell of the tree ends at a cell of the
    /// tree, at that cell or below it.
    pub proof fn lemma_locate_within(self, k: int, bounds: Circle)
        requires
            0 <= k < self.cells.len(),
        ensures
            k <= self.locate(k, bounds) < self.cells.len(),
            is_ancestor(k, self.locate(k, bounds)),
        decreases self.cells.len() - k,
    {
        if self.has_children(k) {
            match quadrant(self.cells[k], bounds, self.scale) {
                Some(q) => {
                    let c = child(k, q);
                    self.lemma_locate_within(c, bounds);
                    lemma_ancestor_of_child(k, q, self.locate(c, bounds));
                },
                None => {},
            }
        }
    }
}

/// What lies at or below a quadrant of `k` lies below `k`.
pub proof fn lemma_ancestor_of_child(k: int, q: int, n: int)
    requires
        0 <= k,
        0 <= q < 4,
        is_ancestor(child(k, q), n),
    ensures
        is_ancestor(k, n),
    decreases n,
{
    if child(k, q) == n {
        assert(parent(n) == k);
        assert(is_ancestor(k, k));
    } else {
        lemma_ancestor_of_child(k, q, parent(n));
    }
}

/// Once a relocation has failed, the ones after it change nothing: the
/// outcome of the whole run is the outcome of the run up to the failure.
pub proof fn lemma_relocate_all_stops(
    tree: TreeModel,
    moves: Seq<(ObjectRef, Vector2)>,
    circles: Seq<Circle>,
    n: int,
)
    requires
        0 <= n <= moves.len(),
        !tree.relocate_all(moves.take(n), circles).1,
    ensures
        tree.relocate_all(moves, circles) == tree.relocate_all(moves.take(n), circles),
    decreases moves.len() - n,
{
    if n < moves.len() {
        assert(moves.take(n + 1).drop_last() =~= moves.take(n));
        lemma_relocate_all_stops(tree, moves, circles, n + 1);
    } else {
        assert(moves.take(n) =~= moves);
    }
}

impl TreeModel {
    /// Relocations change which objects a cell holds, and nothing else: the
    /// cells stay, and the schedule is the one the run began with.
    pub proof fn lemma_relocate_all_keeps_shape(self, moves: Seq<(ObjectRef, Vector2)>, circles: Seq<Circle>)
        ensures
            self.relocate_all(moves, circles).0.cells == self.cells,
            self.relocate_all(moves, circles).0.scale == self.scale,
            self.relocate_all(moves, circles).0.max_depth == self.max_depth,
            self.relocate_all(moves, circles).0.pending == self.pending,
        decreases moves.len(),
    {
        if moves.len() > 0 {
            self.lemma_relocate_all_keeps_shape(moves.drop_last(), circles);
        }
    }
}

/// The way from the root to a cell goes through cells of no greater index,
/// and ends at the cell.
pub proof fn lemma_path_bounds(k: int)
    requires
        0 <= k,
    ensures
        path(k).len() >= 1,
        path(k).last() == k,
        forall|i: int| 0 <= i < path(k).len() ==> 0 <= #[trigger] path(k)[i] <= k,
    decreases k,
{
    if k > 0 {
        lemma_path_bounds(parent(k));
    }
}

/// At least one unit makes a step of the grid.
pub proof fn lemma_grid_scale_positive(max_depth: nat)
    ensures
        grid_scale(max_depth) >= 1,
    decreases max_depth,
{
    if max_depth > 0 {
        lemma_grid_scale_positive((max_depth - 1) as nat);
    }
}

/// In a tree that can be built, at most 32768 units make one step of the
/// grid.
pub proof fn lemma_grid_scale_bounds(max_depth: nat)
    requires
        max_depth <= 15,
    ensures
        1 <= grid_scale(max_depth) <= 32768,
    decreases 15 - max_depth,
{
    if max_depth < 15 {
        lemma_grid_scale_bounds(max_depth + 1);
    } else {
        assert(grid_scale(1) == 2) by {
            reveal_with_fuel(grid_scale, 2);
        }
        assert(grid_scale(2) == 4);
        assert(grid_scale(3) == 8);
        assert(grid_scale(4) == 16);
        assert(grid_scale(5) == 32);
        assert(grid_scale(6) == 64);
        assert(grid_scale(7) == 128);
        assert(grid_scale(8) == 256);
        assert(grid_scale(9) == 512);
        assert(grid_scale(10) == 1024);
        assert(grid_scale(11) == 2048);
        assert(grid_scale(12) == 4096);
        assert(grid_scale(13) == 8192);
        assert(grid_scale(14) == 16384);
    }
}

/// A tree of so many levels has no cell on a level beyond them.
pub proof fn lemma_level_bound(k: int, levels: nat)
    requires
        0 <= k < arena_len(levels),
    ensures
        level(k) < levels,
    decreases k,
{
    if k > 0 {
        assert(levels >= 2) by {
            reveal_with_fuel(arena_len, 2);
        }
        lemma_level_bound(parent(k), (levels - 1) as nat);
    }
}

impl TreeModel {
    /// The quadrants of a cell tile it: each is exactly half the cell's
    /// size, and its center lies half the cell's half-width aside and half
    /// of it up or down from the cell's center.
    pub proof fn lemma_quadrants_tile_the_cell(self, k: int, q: int)
        requires
            self.well_formed(),
            0 <= k,
            0 <= q < 4,
            self.has_children(k),
        ensures
            2 * self.cells[child(k, q)].half_width == self.cells[k].half_width,
            self.cells[child(k, q)].x == if q % 2 == 1 {
                self.cells[k].x + self.cells[child(k, q)].half_width
            } else {
                self.cells[k].x - self.cells[child(k, q)].half_width
            },
            self.cells[child(k, q)].y == if q / 2 == 1 {
                self.cells[k].y + self.cells[child(k, q)].half_width
            } else {
                self.cells[k].y - self.cells[child(k, q)].half_width
            },
    {
        assert(self.cells[k].half_width % 2 == 0);
        assert(self.cells[child(k, q)] == child_cell(self.cells[k], q));
    }
}

/// The half-width of cell `k`, in units, where the space has a half-width
/// of `half_width` steps of the grid and the tree a depth of `max_depth`:
/// the half-width of the space, halved once for each level between the
/// root and the cell.
#[verifier::opaque]
pub open spec fn half_width_of(half_width: nat, max_depth: nat, k: int) -> nat {
    half_width * grid_scale((max_depth - level(k)) as nat)
}

/// The root has the half-width of the space.
pub proof fn lemma_half_width_of_root(half_width: nat, max_depth: nat)
    ensures
        half_width_of(half_width, max_depth, 0) == half_width * grid_scale(max_depth),
{
    reveal(half_width_of);
}

/// A cell is exactly twice as wide as its quadrants.
pub proof fn lemma_half_width_of_quadrant(half_width: nat, max_depth: nat, k: int)
    requires
        0 < k,
        level(k) <= max_depth,
    ensures
        half_width_of(half_width, max_depth, parent(k)) == 2 * half_width_of(half_width, max_depth, k),
{
    reveal(half_width_of);
    let finer = (max_depth - level(k)) as nat;
    assert(level(k) == 1 + level(parent(k)));
    assert(grid_scale(finer + 1) == 2 * grid_scale(finer));
    assert(half_width * (2 * grid_scale(finer)) == 2 * (half_width * grid_scale(finer)))
        by (nonlinear_arith);
}

} // verus!
