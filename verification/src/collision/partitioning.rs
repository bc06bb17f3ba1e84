//! Spatial partitioning: the quadtree and its operations.

use crate::collision::layout::against;
use crate::collision::layout::arena_len;
use crate::collision::layout::Cell;
use crate::collision::layout::child;
use crate::collision::layout::child_cell;
use crate::collision::layout::grid_scale;
use crate::collision::layout::half_width_of;
use crate::collision::layout::lemma_grid_scale_bounds;
use crate::collision::layout::lemma_half_width_of_quadrant;
use crate::collision::layout::lemma_half_width_of_root;
use crate::collision::layout::lemma_level_bound;
use crate::collision::layout::involves;
use crate::collision::layout::lemma_arena_len_monotonic;
use crate::collision::layout::lemma_arena_len_sixteen;
use crate::collision::layout::lemma_path_bounds;
use crate::collision::layout::lemma_relocate_all_stops;
use crate::collision::layout::parent;
use crate::collision::layout::path;
use crate::collision::layout::quadrant;
use crate::collision::layout::tests_against;
use crate::collision::layout::tests_with;
use crate::collision::layout::touching;
use crate::collision::layout::TreeModel;
use crate::collision::primitives::Circle;
use crate::collision::primitives::Collidable;
use crate::common::objects::GameObject;
use crate::common::objects::ObjectPool;
use crate::common::objects::ObjectRef;
use crate::types::Vector2;
use ref_eq::ref_eq;
use vstd::prelude::*;

verus! {

/// The greatest subdivision depth a tree can be built with. A tree of this
/// depth has fewer than 2^31 cells.
pub const MAX_DEPTH: u32 = 15;

/// What `remove` answers when the object is not where it is looked for.
pub const NOT_FOUND: &'static str = "Object does not exist in this quadtree";

/// One cell of the tree: its region and the objects held at it.
struct QuadtreeNode {
    // Center and half-width, in units of the tree
    center_x: i64,
    center_y: i64,
    halfw: u64,
    objects: Vec<ObjectRef>,
}

impl QuadtreeNode {
    /// The region of this cell.
    spec fn cell(&self) -> Cell {
        Cell { x: self.center_x as int, y: self.center_y as int, half_width: self.halfw as nat }
    }

    /// The objects held at this cell, in the order they came.
    spec fn held(&self) -> Seq<ObjectRef> {
        self.objects@
    }

    /// The quadrant of this cell that `bounds` lies in, or `None` where the
    /// circle straddles one of the two dividing lines. `scale` units of the
    /// cell make one step of the grid that the circle is given in.
    fn quadrant(&self, bounds: &Circle, scale: u32) -> (q: Option<usize>)
        ensures
            match q {
                Some(i) => quadrant(self.cell(), *bounds, scale as nat) == Some(i as int),
                None => quadrant(self.cell(), *bounds, scale as nat).is_none(),
            },
    {
        let mut index: usize = 0;
        let unit: i128 = scale as i128;
        let x: i128 = bounds.center.x as i128;
        let y: i128 = bounds.center.y as i128;
        let r: i128 = bounds.radius as i128;
        proof {
            lemma_product_bound(x as int, unit as int);
            lemma_product_bound(y as int, unit as int);
            lemma_product_bound(r as int, unit as int);
        }
        let radius: i128 = r * unit;
        let delta_x: i128 = x * unit - self.center_x as i128;
        let delta_y: i128 = y * unit - self.center_y as i128;
        // Clear of the line that divides left from right?
        if delta_x > radius || -delta_x > radius {
            if delta_x > 0 {
                index += 1;
            }
            // Clear of the line that divides low from high?
            if delta_y > radius || -delta_y > radius {
                if delta_y > 0 {
                    index += 2;
                }
                Some(index)
            } else {
                None
            }
        } else {
            None
        }
    }

    /// Appends `object` to the objects held at this cell.
    fn add(&mut self, object: ObjectRef)
        ensures
            final(self).cell() == old(self).cell(),
            final(self).held() == old(self).held().push(object),
    {
        self.objects.push(object);
    }

    /// Takes the first occurrence of `object` out of the objects held at
    /// this cell; fails, and changes nothing, where there is none.
    fn remove(&mut self, object: ObjectRef) -> (r: Result<ObjectRef, &'static str>)
        ensures
            final(self).cell() == old(self).cell(),
            r.is_ok() == old(self).held().contains(object),
            r.is_ok() ==> r == Ok::<ObjectRef, &'static str>(object),
            r.is_err() ==> r == Err::<ObjectRef, &'static str>(NOT_FOUND),
            final(self).held() == old(self).held().remove_value(object),
    {
        let mut contains = false;
        let mut index: usize = 0;
        while index < self.objects.len()
            invariant_except_break
                !contains,
            invariant
                index <= self.objects.len(),
                forall|j: int| 0 <= j < index ==> self.objects@[j] != object,
            ensures
                index <= self.objects.len(),
                contains ==> index < self.objects.len() && self.objects@[index as int] == object,
                !contains ==> index == self.objects.len(),
                forall|j: int| 0 <= j < index ==> self.objects@[j] != object,
            decreases self.objects.len() - index,
        {
            if self.objects[index] == object {
                contains = true;
                break ;
            }
            index += 1;
        }
        proof {
            self.objects@.index_of_first_ensures(object);
        }
        if !contains {
            Err(NOT_FOUND)
        } else {
            let object = self.objects.remove(index);
            Ok(object)
        }
    }
}

/// The regions of a sequence of cells.
spec fn cells_of(nodes: Seq<QuadtreeNode>) -> Seq<Cell> {
    Seq::new(nodes.len(), |k: int| nodes[k].cell())
}

/// The object lists of a sequence of cells.
spec fn objects_of(nodes: Seq<QuadtreeNode>) -> Seq<Seq<ObjectRef>> {
    Seq::new(nodes.len(), |k: int| nodes[k].held())
}

/// A quadtree: a square space divided into four quadrants, each divided
/// again in the same way, down to a fixed depth. Each object is held at the
/// smallest cell that its bounding circle fits in without straddling that
/// cell's dividing lines.
pub struct Quadtree {
    nodes: Vec<QuadtreeNode>,
    max_depth: u32,
    // The number of units of the cells that make one step of the grid
    scale: u32,
    // For the collision sweep only: the cells from the root to the cell
    // being visited. Empty outside a sweep.
    ancestors: Vec<usize>,
    // The relocations that wait for `update_positions`, oldest first.
    update_queue: Vec<(ObjectRef, Vector2)>,
}

impl View for Quadtree {
    type V = TreeModel;

    closed spec fn view(&self) -> TreeModel {
        TreeModel {
            max_depth: self.max_depth as nat,
            scale: self.scale as nat,
            cells: cells_of(self.nodes@),
            objects: objects_of(self.nodes@),
            pending: self.update_queue@,
        }
    }
}

/// Whether the objects `after` are the objects `before`, but for those that
/// a pair of `pairs` names.
pub open spec fn others_untouched<T>(before: Seq<T>, after: Seq<T>, pairs: Seq<(ObjectRef, ObjectRef)>) -> bool {
    &&& after.len() == before.len()
    &&& forall|h: int|
        0 <= h < before.len() && !involves(pairs, ObjectRef { index: h as usize }) ==> #[trigger] after[h]
            == before[h]
}

/// Whether `stack` holds the cells of `way`, in order.
spec fn stack_is(stack: Seq<usize>, way: Seq<int>) -> bool {
    &&& stack.len() == way.len()
    &&& forall|i: int| 0 <= i < stack.len() ==> stack[i] as int == way[i]
}

/// A coordinate or a radius of the grid, in units of a tree, is well
/// within 64 bits.
proof fn lemma_product_bound(v: int, unit: int)
    requires
        -0x1_0000_0000 <= v <= 0x1_0000_0000,
        0 <= unit <= 0x1_0000_0000,
    ensures
        -0x1_0000_0000_0000_0000 <= v * unit <= 0x1_0000_0000_0000_0000,
{
    assert(-0x1_0000_0000_0000_0000 <= v * unit <= 0x1_0000_0000_0000_0000) by (nonlinear_arith)
        requires
            -0x1_0000_0000 <= v <= 0x1_0000_0000,
            0 <= unit <= 0x1_0000_0000,
    ;
}

/// A coordinate or a length of the grid, in the units of a tree that can be
/// built, is within 48 bits.
proof fn lemma_scaled_bound(v: int, unit: int)
    requires
        -0x1_0000_0000 <= v <= 0x1_0000_0000,
        0 <= unit <= 32768,
    ensures
        -0x8000_0000_0000 <= v * unit <= 0x8000_0000_0000,
{
    assert(-0x8000_0000_0000 <= v * unit <= 0x8000_0000_0000) by (nonlinear_arith)
        requires
            -0x1_0000_0000 <= v <= 0x1_0000_0000,
            0 <= unit <= 32768,
    ;
}

/// The number of units that make one step of the grid in a tree of the
/// given depth.
fn grid_size(max_depth: u32) -> (scale: u32)
    requires
        max_depth <= MAX_DEPTH,
    ensures
        scale == grid_scale(max_depth as nat),
        1 <= scale <= 32768,
{
    let mut scale: u32 = 1;
    let mut i: u32 = 0;
    while i < max_depth
        invariant
            i <= max_depth <= 15,
            scale == grid_scale(i as nat),
        decreases max_depth - i,
    {
        proof {
            lemma_grid_scale_bounds((i + 1) as nat);
        }
        scale = 2 * scale;
        i += 1;
    }
    proof {
        lemma_grid_scale_bounds(max_depth as nat);
    }
    scale
}

/// The number of cells of a tree with `levels` levels.
fn arena_size(levels: u32) -> (n: usize)
    requires
        levels <= MAX_DEPTH + 1,
    ensures
        n == arena_len(levels as nat),
        n <= 1431655765,
{
    let mut n: usize = 0;
    let mut i: u32 = 0;
    proof {
        lemma_arena_len_sixteen();
    }
    while i < levels
        invariant
            i <= levels <= 16,
            n == arena_len(i as nat),
            arena_len(16) == 1431655765,
        decreases levels - i,
    {
        proof {
            lemma_arena_len_monotonic((i + 1) as nat, 16);
        }
        n = 4 * n + 1;
        i += 1;
    }
    proof {
        lemma_arena_len_monotonic(levels as nat, 16);
    }
    n
}

impl Quadtree {
    /// Whether the tree is in order: built to its depth, every cell's
    /// quadrants in place, and no collision sweep under way.
    pub open spec fn wf(&self) -> bool {
        &&& self@.well_formed()
        &&& self@.max_depth <= MAX_DEPTH
        &&& self.ancestor_stack().len() == 0
    }

    /// The cells from the root to the cell that a collision sweep is
    /// visiting; empty outside a sweep.
    pub closed spec fn ancestor_stack(&self) -> Seq<usize> {
        self.ancestors@
    }

    /// Creates an empty quadtree over the square with the given center and
    /// half-width, subdivided `max_depth` times: a depth of zero gives a
    /// single undivided cell. Every quadrant is exactly half its cell, also
    /// where the half-width is odd: the cells are measured in units of
    /// which `2^max_depth` make one step of the grid.
    pub fn new(center: Vector2, half_width: u32, max_depth: u32) -> (tree: Quadtree)
        requires
            max_depth <= MAX_DEPTH,
        ensures
            tree.wf(),
            tree@.max_depth == max_depth,
            tree@.scale == grid_scale(max_depth as nat),
            tree@.cells[0] == (Cell {
                x: center.x * grid_scale(max_depth as nat),
                y: center.y * grid_scale(max_depth as nat),
                half_width: (half_width * grid_scale(max_depth as nat)) as nat,
            }),
            forall|k: int| 0 <= k < tree@.objects.len() ==> tree@.objects[k] == Seq::<ObjectRef>::empty(),
            tree@.pending == Seq::<(ObjectRef, Vector2)>::empty(),
            tree.ancestor_stack().len() == 0,
    {
        let scale: u32 = grid_size(max_depth);
        let tree = Quadtree {
            nodes: Quadtree::build_tree(center, half_width, max_depth + 1, scale),
            max_depth,
            scale,
            ancestors: Vec::new(),
            update_queue: Vec::new(),
        };
        proof {
            assert forall|k: int| 0 <= k && tree@.has_children(k) implies (#[trigger] tree@.cells[k]).half_width
                % 2 == 0 by {
                assert(tree.nodes@[k].halfw % 2 == 0);
            }
        }
        tree
    }

    /// The number of cells of the tree.
    pub fn cell_count(&self) -> (n: usize)
        ensures
            n == self@.cells.len(),
    {
        self.nodes.len()
    }

    /// The number of cells on the sweep's stack: zero outside a sweep.
    pub fn ancestor_count(&self) -> (n: usize)
        ensures
            n == self.ancestor_stack().len(),
    {
        self.ancestors.len()
    }

    /// Tells whether cell `k` is subdivided.
    fn has_children(&self, k: usize) -> (yes: bool)
        requires
            self@.well_formed(),
            k < self.nodes@.len(),
        ensures
            yes == self@.has_children(k as int),
    {
        k < (self.nodes.len() - 1) / 4
    }

    /// The cell at which `bounds` comes to rest when handed down from the root.
    fn locate(&self, bounds: &Circle) -> (k: usize)
        requires
            self@.well_formed(),
            self@.max_depth <= MAX_DEPTH,
        ensures
            k == self@.home(*bounds),
            k < self.nodes@.len(),
    {
        let mut k: usize = 0;
        proof {
            self@.lemma_cell_count_bounds();
        }
        loop
            invariant
                self@.well_formed(),
                self.nodes@.len() <= 1431655765,
                k < self.nodes@.len(),
                self@.locate(k as int, *bounds) == self@.home(*bounds),
            ensures
                k < self.nodes@.len(),
                k == self@.home(*bounds),
            decreases self.nodes@.len() - k,
        {
            if !self.has_children(k) {
                break ;
            }
            assert(self@.cells.len() == self.nodes@.len());
            assert(self@.cells[k as int] == self.nodes@[k as int].cell());
            match self.nodes[k].quadrant(bounds, self.scale) {
                None => {
                    break ;
                },
                Some(index) => {
                    // Clear of both lines: hand the circle down to the quadrant
                    k = 4 * k + 1 + index;
                },
            }
        }
        k
    }

    /// Adds `object`, whose bounding circle is `bounds`, to the quadtree:
    /// at the end of the list of the cell where the circle comes to rest.
    pub fn add_bounded(&mut self, object: ObjectRef, bounds: Circle)
        requires
            old(self).wf(),
        ensures
            final(self).wf(),
            final(self)@ == old(self)@.insert(object, bounds),
    {
        let k: usize = self.locate(&bounds);
        self.nodes[k].add(object);
        proof {
            assert(final(self)@.cells =~= old(self)@.cells);
            assert(final(self)@.objects =~= old(self)@.insert(object, bounds).objects);
        }
    }

    /// Removes `object` from the quadtree, looking for it only at the cell
    /// where `bounds`, the circle it was placed by, comes to rest. Fails,
    /// and changes nothing, where the object is not held at that cell.
    pub fn remove_bounded(&mut self, object: ObjectRef, bounds: Circle) -> (r: Result<
        ObjectRef,
        &'static str,
    >)
        requires
            old(self).wf(),
        ensures
            final(self).wf(),
            r.is_ok() == old(self)@.holds_at(object, bounds),
            r.is_ok() ==> r == Ok::<ObjectRef, &'static str>(object),
            r.is_err() ==> r == Err::<ObjectRef, &'static str>(NOT_FOUND),
            r.is_err() ==> final(self)@ == old(self)@,
            final(self)@ == old(self)@.remove(object, bounds),
    {
        let k: usize = self.locate(&bounds);
        let r = self.nodes[k].remove(object);
        proof {
            assert(final(self)@.cells =~= old(self)@.cells);
            assert(final(self)@.objects =~= old(self)@.remove(object, bounds).objects);
            if r.is_err() {
                old(self)@.objects[k as int].index_of_first_ensures(object);
                assert(final(self)@.objects =~= old(self)@.objects);
            }
        }
        r
    }

    /// Schedules `object` for relocation: `old_position` is the position it
    /// had when it was last placed. Nothing moves before `update_positions`.
    pub fn schedule_update(&mut self, object: ObjectRef, old_position: Vector2)
        requires
            old(self).wf(),
        ensures
            final(self).wf(),
            final(self)@ == old(self)@.schedule(object, old_position),
    {
        self.update_queue.push((object, old_position));
    }

    /// Tells whether every object scheduled for relocation has a handle
    /// below `n`.
    pub fn pending_within(&self, n: usize) -> (yes: bool)
        ensures
            yes == self@.pending_below(n as nat),
    {
        let mut j: usize = 0;
        while j < self.update_queue.len()
            invariant
                j <= self.update_queue@.len(),
                forall|i: int| 0 <= i < j ==> (#[trigger] self.update_queue@[i]).0.index < n,
            decreases self.update_queue@.len() - j,
        {
            if self.update_queue[j].0.index >= n {
                assert(self@.pending[j as int].0.index >= n);
                return false;
            }
            j += 1;
        }
        true
    }

    /// Carries out the scheduled relocations, oldest first, with
    /// `circles[h.index]` as the bounding circle of the object `h`: each
    /// object is removed from where it rested at its old position and added
    /// anew. The schedule is emptied first. The first object that is not
    /// found ends the run with an error: the relocations before it stay
    /// done, it and those after it are dropped.
    pub fn relocate_pending(&mut self, circles: &Vec<Circle>) -> (r: Result<(), &'static str>)
        requires
            old(self).wf(),
            old(self)@.pending_below(circles@.len()),
        ensures
            final(self).wf(),
            final(self)@ == old(self)@.unscheduled().relocate_all(old(self)@.pending, circles@).0,
            r.is_ok() == old(self)@.unscheduled().relocate_all(old(self)@.pending, circles@).1,
            r.is_err() ==> r == Err::<(), &'static str>(NOT_FOUND),
    {
        let mut update_queue: Vec<(ObjectRef, Vector2)> = Vec::new();
        core::mem::swap(&mut update_queue, &mut self.update_queue);
        let ghost start = self@;
        assert(start == old(self)@.unscheduled());
        assert(update_queue@ == old(self)@.pending);
        assert forall|j: int| 0 <= j < update_queue@.len() implies (#[trigger] update_queue@[j]).0.index
            < circles@.len() by {
            assert(old(self)@.pending[j].0.index < circles@.len());
        }
        let mut n: usize = 0;
        while n < update_queue.len()
            invariant
                n <= update_queue@.len(),
                update_queue@ == old(self)@.pending,
                start == old(self)@.unscheduled(),
                forall|j: int|
                    0 <= j < update_queue@.len() ==> (#[trigger] update_queue@[j]).0.index
                        < circles@.len(),
                self.wf(),
                start.relocate_all(update_queue@.take(n as int), circles@) == (self@, true),
            decreases update_queue@.len() - n,
        {
            let object: ObjectRef = update_queue[n].0;
            let old_position: Vector2 = update_queue[n].1;
            let bounds: Circle = circles[object.index];
            let prior = Circle { center: old_position, radius: bounds.radius };
            proof {
                assert(update_queue@.take(n + 1).drop_last() =~= update_queue@.take(n as int));
                assert(update_queue@.take(n + 1).last() == update_queue@[n as int]);
            }
            match self.remove_bounded(object, prior) {
                Err(e) => {
                    proof {
                        assert(start.relocate_all(update_queue@.take(n + 1), circles@) == (
                            self@,
                            false,
                        ));
                        lemma_relocate_all_stops(
                            start,
                            update_queue@,
                            circles@,
                            n + 1,
                        );
                        assert(update_queue@.take(update_queue@.len() as int) =~= update_queue@);
                    }
                    return Err(e);
                },
                Ok(_) => {},
            }
            self.add_bounded(object, bounds);
            n += 1;
        }
        proof {
            assert(update_queue@.take(n as int) =~= update_queue@);
        }
        Ok(())
    }

    /// Adds a game object to the quadtree, by the bounding circle that the
    /// object gives.
    pub fn add<T: GameObject>(&mut self, pool: &ObjectPool<T>, object: ObjectRef)
        requires
            old(self).wf(),
            pool.holds(object),
        ensures
            final(self).wf(),
            exists|bounds: Circle| final(self)@ == #[trigger] old(self)@.insert(object, bounds),
    {
        let bounds: Circle = pool.get(object).bounding_circle();
        self.add_bounded(object, bounds);
    }

    /// Removes a game object from the quadtree. `old_position` is the
    /// position the object had when it was last placed; the radius is the
    /// one the object gives now. The object is looked for only at the cell
    /// where that circle comes to rest.
    pub fn remove<T: GameObject>(
        &mut self,
        pool: &ObjectPool<T>,
        object: ObjectRef,
        old_position: Vector2,
    ) -> (r: Result<ObjectRef, &'static str>)
        requires
            old(self).wf(),
            pool.holds(object),
        ensures
            final(self).wf(),
            exists|radius: u32|
                {
                    &&& r.is_ok() == #[trigger] old(self)@.holds_at(
                        object,
                        Circle { center: old_position, radius },
                    )
                    &&& final(self)@ == old(self)@.remove(object, Circle { center: old_position, radius })
                },
            r.is_ok() ==> r == Ok::<ObjectRef, &'static str>(object),
            r.is_err() ==> r == Err::<ObjectRef, &'static str>(NOT_FOUND),
            r.is_err() ==> final(self)@ == old(self)@,
    {
        let mut bounds: Circle = pool.get(object).bounding_circle();
        bounds.center = old_position;  // We need to check relative to the old object position
        let r = self.remove_bounded(object, bounds);
        proof {
            assert(r.is_ok() == old(self)@.holds_at(
                object,
                Circle { center: old_position, radius: bounds.radius },
            ));
        }
        r
    }

    /// Carries out the scheduled relocations with the bounding circles that
    /// the objects of `pool` give; see `relocate_pending`.
    pub fn update_positions<T: GameObject>(&mut self, pool: &ObjectPool<T>) -> (r: Result<
        (),
        &'static str,
    >)
        requires
            old(self).wf(),
            old(self)@.pending_below(pool@.len()),
        ensures
            final(self).wf(),
            final(self)@.pending.len() == 0,
            exists|circles: Seq<Circle>|
                {
                    &&& circles.len() == pool@.len()
                    &&& (final(self)@, r.is_ok()) == #[trigger] old(self)@.unscheduled().relocate_all(
                        old(self)@.pending,
                        circles,
                    )
                },
            r.is_err() ==> r == Err::<(), &'static str>(NOT_FOUND),
    {
        let circles: Vec<Circle> = pool.bounding_circles();
        let r = self.relocate_pending(&circles);
        proof {
            old(self)@.unscheduled().lemma_relocate_all_keeps_shape(old(self)@.pending, circles@);
            assert((final(self)@, r.is_ok()) == old(self)@.unscheduled().relocate_all(
                old(self)@.pending,
                circles@,
            ));
        }
        r
    }

    /// A walk over all objects of the quadtree.
    pub fn iter(&self) -> (walk: QuadtreeIter<'_>)
        requires
            self.wf(),
        ensures
            walk.wf(),
            walk.tree() == self@,
            walk.remaining() == self@.traversal(0),
    {
        let walk = QuadtreeIter {
            tree: self,
            nodes: vec![QuadtreeIterNode { current: 0, read: false, node: 0 }],
        };
        proof {
            lemma_stack_push(Seq::empty(), walk.nodes@[0], self@);
            assert(walk.nodes@ =~= Seq::<QuadtreeIterNode>::empty().push(walk.nodes@[0]));
            assert(self@.traversal(0) + Seq::<ObjectRef>::empty() =~= self@.traversal(0));
        }
        walk
    }

    /// A walk that is local to the provided bounding circle: over the
    /// subtree of the cell where the circle comes to rest. Every object held
    /// in that subtree is yielded, whether it overlaps the circle or not;
    /// objects held at cells above it are not.
    pub fn local_iter(&self, bounding_circle: Circle) -> (walk: QuadtreeIter<'_>)
        requires
            self.wf(),
        ensures
            walk.wf(),
            walk.tree() == self@,
            walk.remaining() == self@.traversal(self@.home(bounding_circle)),
    {
        let node: usize = self.locate(&bounding_circle);
        let walk = QuadtreeIter {
            tree: self,
            nodes: vec![QuadtreeIterNode { current: 0, read: false, node }],
        };
        proof {
            lemma_stack_push(Seq::empty(), walk.nodes@[0], self@);
            assert(walk.nodes@ =~= Seq::<QuadtreeIterNode>::empty().push(walk.nodes@[0]));
            assert(self@.traversal(node as int) + Seq::<ObjectRef>::empty() =~= self@.traversal(
                node as int,
            ));
        }
        walk
    }

    /// Tells whether every object held in the tree has a handle below `n`.
    pub fn held_within(&self, n: usize) -> (yes: bool)
        ensures
            yes == self@.held_below(n as nat),
    {
        let mut k: usize = 0;
        while k < self.nodes.len()
            invariant
                k <= self.nodes@.len(),
                forall|l: int, i: int|
                    0 <= l < k && 0 <= i < self@.objects[l].len() ==> (
                    #[trigger] self@.objects[l][i]).index < n,
            decreases self.nodes@.len() - k,
        {
            let mut i: usize = 0;
            assert(self@.objects[k as int] == self.nodes@[k as int].held());
            while i < self.nodes[k].objects.len()
                invariant
                    k < self.nodes@.len(),
                    i <= self.nodes@[k as int].objects@.len(),
                    self@.objects[k as int] == self.nodes@[k as int].objects@,
                    forall|t: int| 0 <= t < i ==> (#[trigger] self@.objects[k as int][t]).index < n,
                decreases self.nodes@[k as int].objects@.len() - i,
            {
                if self.nodes[k].objects[i].index >= n {
                    assert(self@.objects[k as int][i as int].index >= n);
                    return false;
                }
                i += 1;
            }
            k += 1;
        }
        true
    }

    /// Finds the colliding objects, with `circles[h.index]` as the bounding
    /// circle of the object `h`. Every cell is visited, a cell before its
    /// quadrants; at each, the objects held there are tested against the
    /// objects of every cell on the way from the root down to that cell
    /// itself. Two places of one cell are tested against each other once,
    /// and no place against itself. The result holds the tested pairs whose
    /// circles overlap, in the order of the tests: in each pair, first the
    /// object of the visited cell.
    pub fn colliding_pairs(&mut self, circles: &Vec<Circle>) -> (hits: Vec<(ObjectRef, ObjectRef)>)
        requires
            old(self).wf(),
            old(self)@.held_below(circles@.len() as nat),
        ensures
            final(self).wf(),
            final(self)@ == old(self)@,
            final(self).ancestor_stack().len() == 0,
            hits@ == old(self)@.collisions(circles@),
            forall|i: int|
                0 <= i < hits@.len() ==> (#[trigger] hits@[i]).0.index < circles@.len() && hits@[i].1.index
                    < circles@.len(),
    {
        let mut hits: Vec<(ObjectRef, ObjectRef)> = Vec::new();
        proof {
            self@.lemma_cell_count_bounds();
        }
        self.test_all_collisions(0, circles, &mut hits);
        assert(hits@ =~= old(self)@.collisions(circles@));
        hits
    }

    /// Tests all collisions between objects, calling each object's
    /// `on_collision` callback. The objects are asked for their bounding
    /// circles once, before any callback runs; for each pair that
    /// `colliding_pairs` reports on those circles, in order, the first
    /// object of the pair is called with the handle of the second, then the
    /// second with the handle of the first. The tree itself does not change,
    /// and no object changes but those of the reported pairs.
    pub fn test_collisions<T: GameObject>(&mut self, pool: &mut ObjectPool<T>)
        requires
            old(self).wf(),
            old(self)@.held_below(old(pool)@.len()),
        ensures
            final(self).wf(),
            final(self)@ == old(self)@,
            final(self).ancestor_stack().len() == 0,
            final(pool)@.len() == old(pool)@.len(),
            exists|circles: Seq<Circle>|
                {
                    &&& circles.len() == old(pool)@.len()
                    &&& others_untouched(
                        old(pool)@,
                        final(pool)@,
                        #[trigger] old(self)@.collisions(circles),
                    )
                },
    {
        let circles: Vec<Circle> = pool.bounding_circles();
        let hits: Vec<(ObjectRef, ObjectRef)> = self.colliding_pairs(&circles);
        let mut i: usize = 0;
        while i < hits.len()
            invariant
                i <= hits@.len(),
                pool@.len() == old(pool)@.len(),
                circles@.len() == pool@.len(),
                forall|i: int|
                    0 <= i < hits@.len() ==> (#[trigger] hits@[i]).0.index < circles@.len()
                        && hits@[i].1.index < circles@.len(),
                others_untouched(old(pool)@, pool@, hits@.take(i as int)),
            decreases hits@.len() - i,
        {
            let obj_a: ObjectRef = hits[i].0;
            let obj_b: ObjectRef = hits[i].1;
            let ghost earlier = pool@;
            // Each of the two hears of the other
            pool.get_mut(obj_a).on_collision(obj_b);
            pool.get_mut(obj_b).on_collision(obj_a);
            proof {
                let done = hits@.take(i as int);
                let more = hits@.take(i + 1);
                assert(more[i as int] == hits@[i as int]);
                assert forall|h: int|
                    0 <= h < pool@.len() && !involves(more, ObjectRef { index: h as usize }) implies #[trigger] pool@[h]
                    == old(pool)@[h] by {
                    let object = ObjectRef { index: h as usize };
                    if involves(done, object) {
                        let t = choose|t: int|
                            0 <= t < done.len() && (#[trigger] done[t].0 == object || done[t].1
                                == object);
                        assert(more[t] == done[t]);
                    }
                    assert(more[i as int].0 != object && more[i as int].1 != object);
                    assert(pool@[h] == earlier[h]);
                }
            }
            i += 1;
        }
        proof {
            assert(hits@.take(i as int) =~= hits@);
        }
    }

    /// Tells whether place `i` of the list of cell `k` and place `j` of the
    /// list of cell `a` are one place. Calls `ref_eq::ref_eq`, which compares
    /// the addresses of the two places; what is claimed of it, and not
    /// proved, is that two places have one address only where they are the
    /// same place of the same cell. A handle takes up room, so no two
    /// places of the lists share an address.
    #[verifier::external_body]
    fn same_place(&self, k: usize, i: usize, a: usize, j: usize) -> (same: bool)
        requires
            k < self.nodes@.len(),
            i < self.nodes@[k as int].held().len(),
            a < self.nodes@.len(),
            j < self.nodes@[a as int].held().len(),
        ensures
            same == (k == a && i == j),
    {
        ref_eq(&self.nodes[k].objects[i], &self.nodes[a].objects[j])
    }

    /// The sweep of the subtree of cell `node`. On entry the stack holds the
    /// cells above `node`; on return it holds them again.
    fn test_all_collisions(
        &mut self,
        node: usize,
        circles: &Vec<Circle>,
        hits: &mut Vec<(ObjectRef, ObjectRef)>,
    )
        requires
            old(self)@.well_formed(),
            old(self)@.max_depth <= MAX_DEPTH,
            old(self)@.held_below(circles@.len() as nat),
            node < old(self).nodes@.len(),
            node == 0 ==> old(self).ancestors@.len() == 0,
            node > 0 ==> stack_is(old(self).ancestors@, path(parent(node as int))),
            forall|i: int|
                0 <= i < old(hits)@.len() ==> (#[trigger] old(hits)@[i]).0.index < circles@.len()
                    && old(hits)@[i].1.index < circles@.len(),
        ensures
            final(self)@ == old(self)@,
            final(self).nodes@.len() == old(self).nodes@.len(),
            final(self).max_depth == old(self).max_depth,
            final(self).ancestors@ == old(self).ancestors@,
            final(hits)@ == old(hits)@ + old(self)@.sweep(node as int).filter(touching(circles@)),
            forall|i: int|
                0 <= i < final(hits)@.len() ==> (#[trigger] final(hits)@[i]).0.index < circles@.len()
                    && final(hits)@[i].1.index < circles@.len(),
        decreases old(self).nodes@.len() - node,
    {
        // The cell joins the way for the time of its visit
        self.ancestors.push(node);
        let ghost tree = self@;
        let ghost way = path(node as int);
        let ghost base = hits@;
        let ghost f = touching(circles@);
        let ghost current = tree.objects[node as int];
        let ghost mut done: Seq<(ObjectRef, ObjectRef)> = Seq::empty();
        proof {
            lemma_path_bounds(node as int);
            assert(stack_is(self.ancestors@, way));
            assert(base + done.filter(f) =~= base);
        }
        let mut n: usize = 0;
        while n < self.ancestors.len()
            invariant
                self@ == tree,
                tree == old(self)@,
                tree.well_formed(),
                tree.held_below(circles@.len() as nat),
                self.nodes@.len() == old(self).nodes@.len(),
                self.max_depth == old(self).max_depth,
                self.ancestors@ == old(self).ancestors@.push(node),
                stack_is(self.ancestors@, way),
                way == path(node as int),
                forall|i: int| 0 <= i < way.len() ==> 0 <= #[trigger] way[i] <= node,
                node < self.nodes@.len(),
                current == tree.objects[node as int],
                f == touching(circles@),
                n <= self.ancestors@.len(),
                done == tree.tests_on_path(node as int, n as nat),
                hits@ == base + done.filter(f),
                forall|i: int|
                    0 <= i < hits@.len() ==> (#[trigger] hits@[i]).0.index < circles@.len()
                        && hits@[i].1.index < circles@.len(),
            decreases self.ancestors@.len() - n,
        {
            let a: usize = self.ancestors[n];
            assert(a as int == way[n as int]);
            let ghost above = tree.objects[a as int];
            let ghost done_n = done;
            assert(above == self.nodes@[a as int].held());
            assert(current == self.nodes@[node as int].held());
            proof {
                assert(done_n + tests_against(current, above, a == node, 0) =~= done_n);
            }
            let mut j: usize = 0;
            while j < self.nodes[a].objects.len()
                invariant
                    self@ == tree,
                    tree.held_below(circles@.len() as nat),
                    a < self.nodes@.len(),
                    node < self.nodes@.len(),
                    above == tree.objects[a as int],
                    above == self.nodes@[a as int].objects@,
                    current == tree.objects[node as int],
                    current == self.nodes@[node as int].objects@,
                    f == touching(circles@),
                    j <= above.len(),
                    done == done_n + tests_against(current, above, a == node, j as nat),
                    hits@ == base + done.filter(f),
                    forall|i: int|
                        0 <= i < hits@.len() ==> (#[trigger] hits@[i]).0.index < circles@.len()
                            && hits@[i].1.index < circles@.len(),
                decreases above.len() - j,
            {
                let obj_b: ObjectRef = self.nodes[a].objects[j];
                assert(obj_b == tree.objects[a as int][j as int]);
                let ghost done_j = done;
                proof {
                    assert(current.take(0).map_values(against(obj_b)) =~= Seq::<
                        (ObjectRef, ObjectRef),
                    >::empty());
                    assert(done_j + current.take(0).map_values(against(obj_b)) =~= done_j);
                }
                let mut i: usize = 0;
                while i < self.nodes[node].objects.len()
                    invariant
                        self@ == tree,
                        tree.held_below(circles@.len() as nat),
                        node < self.nodes@.len(),
                        a < self.nodes@.len(),
                        j < self.nodes@[a as int].objects@.len(),
                        current == tree.objects[node as int],
                        current == self.nodes@[node as int].objects@,
                        obj_b.index < circles@.len(),
                        f == touching(circles@),
                        i <= current.len(),
                        a == node ==> i <= j,
                        done == done_j + current.take(i as int).map_values(against(obj_b)),
                        hits@ == base + done.filter(f),
                        forall|i: int|
                            0 <= i < hits@.len() ==> (#[trigger] hits@[i]).0.index < circles@.len()
                                && hits@[i].1.index < circles@.len(),
                    ensures
                        done == done_j + tests_with(current, obj_b, a == node, j as int),
                        hits@ == base + done.filter(f),
                        forall|i: int|
                            0 <= i < hits@.len() ==> (#[trigger] hits@[i]).0.index < circles@.len()
                                && hits@[i].1.index < circles@.len(),
                    decreases current.len() - i,
                {
                    // A place is not pitted against itself, nor against later ones
                    if self.same_place(node, i, a, j) {
                        break ;
                    }
                    let obj_a: ObjectRef = self.nodes[node].objects[i];
                    assert(obj_a == tree.objects[node as int][i as int]);
                    let hit: bool = circles[obj_a.index].collides(&circles[obj_b.index]);
                    proof {
                        let pair = (obj_a, obj_b);
                        done.lemma_filter_push(pair, f);
                        assert(current.take(i + 1).map_values(against(obj_b)) =~= current.take(
                            i as int,
                        ).map_values(against(obj_b)).push(pair));
                        assert(done_j + current.take(i + 1).map_values(against(obj_b)) =~= done.push(
                            pair,
                        ));
                        assert(f(pair) == hit);
                        assert(base + done.filter(f).push(pair) =~= (base + done.filter(f)).push(pair));
                        done = done.push(pair);
                    }
                    if hit {
                        hits.push((obj_a, obj_b));
                    }
                    i += 1;
                    proof {
                        if i == current.len() {
                            assert(current.take(i as int) =~= current);
                        }
                    }
                }
                proof {
                    assert(done_n + tests_against(current, above, a == node, (j + 1) as nat) =~= done_n
                        + tests_against(current, above, a == node, j as nat) + tests_with(
                        current,
                        obj_b,
                        a == node,
                        j as int,
                    ));
                }
                j += 1;
            }
            proof {
                assert(done == tree.tests_on_path(node as int, (n + 1) as nat));
            }
            n += 1;
        }
        assert(done == tree.tests_at(node as int));
        if self.has_children(node) {
            proof {
                tree.lemma_cell_count_bounds();
            }
            let mut q: usize = 0;
            proof {
                assert(tree.tests_at(node as int) + tree.quadrants_sweep(node as int, 0) =~= done);
            }
            while q < 4
                invariant
                    self@ == tree,
                    tree == old(self)@,
                    tree.well_formed(),
                    tree.held_below(circles@.len() as nat),
                    tree.has_children(node as int),
                    tree.max_depth <= MAX_DEPTH,
                    self.nodes@.len() <= 1431655765,
                    self.nodes@.len() == old(self).nodes@.len(),
                    tree.cells.len() == self.nodes@.len(),
                    self.max_depth == old(self).max_depth,
                    self.ancestors@ == old(self).ancestors@.push(node),
                    stack_is(self.ancestors@, path(node as int)),
                    f == touching(circles@),
                    q <= 4,
                    done == tree.tests_at(node as int) + tree.quadrants_sweep(node as int, q as nat),
                    hits@ == base + done.filter(f),
                    forall|i: int|
                        0 <= i < hits@.len() ==> (#[trigger] hits@[i]).0.index < circles@.len()
                            && hits@[i].1.index < circles@.len(),
                decreases 4 - q,
            {
                let below: usize = 4 * node + 1 + q;
                assert(parent(below as int) == node);
                self.test_all_collisions(below, circles, hits);
                proof {
                    let part = tree.sweep(child(node as int, q as int));
                    Seq::filter_distributes_over_add(done, part, f);
                    assert(base + (done + part).filter(f) =~= base + done.filter(f) + part.filter(f));
                    assert(done + part =~= tree.tests_at(node as int) + tree.quadrants_sweep(
                        node as int,
                        (q + 1) as nat,
                    ));
                    done = done + part;
                }
                q += 1;
            }
            proof {
                tree.lemma_quadrants_sweep(node as int);
            }
        } else {
            assert(done =~= tree.sweep(node as int));
        }
        // The visit is over: the cell leaves the way
        let _ = self.ancestors.pop();
        assert(self.ancestors@ =~= old(self).ancestors@);
    }

    /// Builds the cells of a tree with `stop_depth` levels, level by level:
    /// the root first, then each cell's four quadrants in order. `scale`
    /// units make one step of the grid: enough to halve the half-width once
    /// for each level below the root.
    fn build_tree(center: Vector2, half_width: u32, stop_depth: u32, scale: u32) -> (nodes: Vec<
        QuadtreeNode,
    >)
        requires
            stop_depth <= MAX_DEPTH + 1,
            stop_depth > 0 ==> scale == grid_scale((stop_depth - 1) as nat),
        ensures
            nodes@.len() == arena_len(stop_depth as nat),
            stop_depth > 0 ==> nodes@[0].cell() == (Cell {
                x: center.x * scale,
                y: center.y * scale,
                half_width: (half_width * scale) as nat,
            }),
            forall|k: int|
                0 <= k && 4 * k + 4 < nodes@.len() ==> (#[trigger] nodes@[k]).halfw % 2 == 0,
            forall|k: int, q: int|
                0 <= k && 0 <= q < 4 && child(k, q) < nodes@.len() ==> (#[trigger] nodes@[child(
                    k,
                    q,
                )]).cell() == child_cell(nodes@[k].cell(), q),
            forall|k: int| 0 <= k < nodes@.len() ==> (#[trigger] nodes@[k]).held() == Seq::<
                ObjectRef,
            >::empty(),
    {
        let total: usize = arena_size(stop_depth);
        let mut nodes: Vec<QuadtreeNode> = Vec::new();
        if total == 0 {
            return nodes;
        }
        let ghost below: nat = (stop_depth - 1) as nat;
        proof {
            lemma_grid_scale_bounds(below);
            lemma_half_width_of_root(half_width as nat, below);
            lemma_scaled_bound(center.x as int, scale as int);
            lemma_scaled_bound(center.y as int, scale as int);
            lemma_scaled_bound(half_width as int, scale as int);
            assert(0 <= half_width * scale) by (nonlinear_arith)
                requires
                    0 <= half_width,
                    0 <= scale,
            ;
        }
        // The root first; every later cell is a quadrant of an earlier one
        nodes.push(
            QuadtreeNode {
                center_x: center.x as i64 * scale as i64,
                center_y: center.y as i64 * scale as i64,
                halfw: half_width as u64 * scale as u64,
                objects: Vec::new(),
            },
        );
        let ghost root_x: int = center.x * scale;
        let ghost root_y: int = center.y * scale;
        let ghost root_hw: int = half_width * scale;
        let mut k: usize = 1;
        while k < total
            invariant
                1 <= k <= total <= 1431655765,
                total == arena_len(stop_depth as nat),
                stop_depth >= 1,
                below == stop_depth - 1,
                nodes@.len() == k,
                0 <= root_hw <= 0x8000_0000_0000,
                -0x8000_0000_0000 <= root_x <= 0x8000_0000_0000,
                -0x8000_0000_0000 <= root_y <= 0x8000_0000_0000,
                root_x == center.x * scale,
                root_y == center.y * scale,
                root_hw == half_width * scale,
                scale == grid_scale(below),
                nodes@[0].cell() == (Cell { x: root_x, y: root_y, half_width: root_hw as nat }),
                forall|j: int|
                    1 <= j < k ==> (#[trigger] nodes@[j]).cell() == child_cell(
                        nodes@[parent(j)].cell(),
                        (j - 1) % 4,
                    ),
                forall|j: int|
                    0 <= j < k ==> (#[trigger] nodes@[j]).halfw == half_width_of(
                        half_width as nat,
                        below,
                        j,
                    ),
                forall|j: int|
                    0 <= j < k ==> {
                        &&& root_x - root_hw <= (#[trigger] nodes@[j]).center_x - nodes@[j].halfw
                        &&& nodes@[j].center_x + nodes@[j].halfw <= root_x + root_hw
                        &&& root_y - root_hw <= nodes@[j].center_y - nodes@[j].halfw
                        &&& nodes@[j].center_y + nodes@[j].halfw <= root_y + root_hw
                    },
                forall|j: int| 0 <= j < k ==> (#[trigger] nodes@[j]).held() == Seq::<
                    ObjectRef,
                >::empty(),
            decreases total - k,
        {
            let up: usize = (k - 1) / 4;
            let i: usize = (k - 1) % 4;
            proof {
                // the cell above has a level to spare: its half-width is even
                assert(parent(k as int) == up);
                lemma_level_bound(k as int, stop_depth as nat);
                lemma_half_width_of_quadrant(half_width as nat, below, k as int);
            }
            let step: u64 = nodes[up].halfw / 2;
            let offset_x: i64 = if i % 2 == 1 {
                step as i64
            } else {
                -(step as i64)
            };
            let offset_y: i64 = if i / 2 == 1 {
                step as i64
            } else {
                -(step as i64)
            };
            let node = QuadtreeNode {
                center_x: nodes[up].center_x + offset_x,
                center_y: nodes[up].center_y + offset_y,
                halfw: step,
                objects: Vec::new(),
            };
            assert(node.cell() == child_cell(nodes@[parent(k as int)].cell(), (k - 1) % 4));
            nodes.push(node);
            k += 1;
        }
        assert forall|k: int, q: int|
            0 <= k && 0 <= q < 4 && child(k, q) < nodes@.len() implies (#[trigger] nodes@[child(
            k,
            q,
        )]).cell() == child_cell(nodes@[k].cell(), q) by {
            let j = child(k, q);
            assert(parent(j) == k);
            assert((j - 1) % 4 == q);
        }
        assert forall|k: int| 0 <= k && 4 * k + 4 < nodes@.len() implies (#[trigger] nodes@[k]).halfw
            % 2 == 0 by {
            let below_k = child(k, 0);
            assert(parent(below_k) == k);
            lemma_level_bound(below_k, stop_depth as nat);
            lemma_half_width_of_quadrant(half_width as nat, below, below_k);
            assert(nodes@[below_k].halfw == half_width_of(half_width as nat, below, below_k));
        }
        nodes
    }
}

/// One step of a walk: a cell, whether its quadrants have been entered, and
/// how many of the objects held at it have been yielded.
struct QuadtreeIterNode {
    current: usize,
    read: bool,
    node: usize,
}

impl QuadtreeIterNode {
    /// What this step has yet to yield: the whole subtree of its cell while
    /// the quadrants have not been entered, afterwards the objects of the
    /// cell itself that are left.
    spec fn pending(self, tree: TreeModel) -> Seq<ObjectRef> {
        if self.read {
            tree.objects[self.node as int].skip(self.current as int)
        } else {
            tree.traversal(self.node as int)
        }
    }

    /// A bound on the work this step still causes.
    spec fn weight(self, tree: TreeModel) -> nat {
        if self.read {
            1
        } else {
            2 * tree.subtree_size(self.node as int)
        }
    }

    /// Whether this step points into `tree`.
    spec fn fits(self, tree: TreeModel) -> bool {
        &&& self.node < tree.cells.len()
        &&& self.current <= tree.objects[self.node as int].len()
        &&& !self.read ==> self.current == 0
    }
}

/// What a stack of steps has yet to yield: the top step first.
spec fn stack_pending(frames: Seq<QuadtreeIterNode>, tree: TreeModel) -> Seq<ObjectRef>
    decreases frames.len(),
{
    if frames.len() == 0 {
        Seq::empty()
    } else {
        frames.last().pending(tree) + stack_pending(frames.drop_last(), tree)
    }
}

/// A bound on the work a stack of steps still causes.
spec fn stack_weight(frames: Seq<QuadtreeIterNode>, tree: TreeModel) -> nat
    decreases frames.len(),
{
    if frames.len() == 0 {
        0
    } else {
        frames.last().weight(tree) + stack_weight(frames.drop_last(), tree)
    }
}

proof fn lemma_stack_push(frames: Seq<QuadtreeIterNode>, frame: QuadtreeIterNode, tree: TreeModel)
    ensures
        stack_pending(frames.push(frame), tree) == frame.pending(tree) + stack_pending(frames, tree),
        stack_weight(frames.push(frame), tree) == frame.weight(tree) + stack_weight(frames, tree),
{
    assert(frames.push(frame).drop_last() =~= frames);
}

/// A walk over the objects of a quadtree, or of one of its subtrees. It
/// yields every object held there once for each time it is held; the order
/// is the one `TreeModel::traversal` gives.
pub struct QuadtreeIter<'a> {
    tree: &'a Quadtree,
    nodes: Vec<QuadtreeIterNode>,
}

impl<'a> QuadtreeIter<'a> {
    /// The tree that is walked.
    pub closed spec fn tree(&self) -> TreeModel {
        self.tree@
    }

    /// The objects that the walk has yet to yield, in order.
    pub closed spec fn remaining(&self) -> Seq<ObjectRef> {
        stack_pending(self.nodes@, self.tree@)
    }

    /// Whether the walk is in order: every step points into the tree.
    pub closed spec fn wf(&self) -> bool {
        &&& self.tree@.well_formed()
        &&& self.tree@.max_depth <= MAX_DEPTH
        &&& forall|i: int| 0 <= i < self.nodes@.len() ==> (#[trigger] self.nodes@[i]).fits(self.tree@)
    }

    /// Yields the next object of the walk, or `None` when all were yielded.
    pub fn next(&mut self) -> (r: Option<ObjectRef>)
        requires
            old(self).wf(),
        ensures
            final(self).wf(),
            final(self).tree() == old(self).tree(),
            match r {
                Some(object) => {
                    &&& old(self).remaining().len() > 0
                    &&& object == old(self).remaining()[0]
                    &&& final(self).remaining() == old(self).remaining().skip(1)
                },
                None => old(self).remaining().len() == 0 && final(self).remaining().len() == 0,
            },
    {
        let ghost tree = self.tree@;
        loop
            invariant
                self.wf(),
                self.tree@ == tree,
                tree == old(self).tree@,
                stack_pending(self.nodes@, tree) == old(self).remaining(),
            decreases stack_weight(self.nodes@, tree),
        {
            if self.nodes.len() == 0 {
                return None;
            }
            let top: usize = self.nodes.len() - 1;
            let ghost below = self.nodes@.drop_last();
            let ghost frame = self.nodes@[top as int];
            assert(self.nodes@ =~= below.push(frame));
            proof {
                lemma_stack_push(below, frame, tree);
            }
            // A cell met for the first time: its quadrants go first
            let was_read: bool = self.nodes[top].read;
            let node: usize = self.nodes[top].node;
            if !was_read {
                self.nodes[top].read = true;
                let ghost entered = self.nodes@[top as int];
                assert(self.nodes@ =~= below.push(entered));
                proof {
                    lemma_stack_push(below, entered, tree);
                    assert(entered.pending(tree) =~= tree.objects[node as int]);
                }
                if self.tree.has_children(node) {
                    proof {
                        tree.lemma_cell_count_bounds();
                    }
                    let mut i: usize = 0;
                    let ghost base = self.nodes@;
                    proof {
                        assert(tree.quadrants_traversal(node as int, 0) + stack_pending(base, tree)
                            =~= stack_pending(base, tree));
                    }
                    while i < 4
                        invariant
                            i <= 4,
                            self.tree@ == tree,
                            tree.well_formed(),
                            tree.has_children(node as int),
                            tree.cells.len() <= 1431655765,
                            forall|j: int|
                                0 <= j < self.nodes@.len() ==> (#[trigger] self.nodes@[j]).fits(tree),
                            stack_pending(self.nodes@, tree) == tree.quadrants_traversal(
                                node as int,
                                i as nat,
                            ) + stack_pending(base, tree),
                            stack_weight(self.nodes@, tree) == 2 * tree.quadrants_size(
                                node as int,
                                i as nat,
                            ) + stack_weight(base, tree),
                        decreases 4 - i,
                    {
                        let frame = QuadtreeIterNode { current: 0, read: false, node: 4 * node + 1 + i };
                        proof {
                            lemma_stack_push(self.nodes@, frame, tree);
                            assert(frame.pending(tree) == tree.traversal(child(node as int, i as int)));
                            assert(frame.pending(tree) + (tree.quadrants_traversal(
                                node as int,
                                i as nat,
                            ) + stack_pending(base, tree)) =~= tree.quadrants_traversal(
                                node as int,
                                (i + 1) as nat,
                            ) + stack_pending(base, tree));
                        }
                        self.nodes.push(frame);
                        i += 1;
                    }
                    proof {
                        tree.lemma_quadrants_traversal(node as int);
                        assert(tree.quadrants_traversal(node as int, 4) + stack_pending(base, tree)
                            =~= tree.traversal(node as int) + stack_pending(below, tree));
                    }
                }
            } else {
                let objects_len: usize = self.tree.nodes[node].objects.len();
                let current: usize = self.nodes[top].current;
                assert(tree.objects[node as int] == self.tree.nodes@[node as int].held());
                if current < objects_len {
                    self.nodes[top].current += 1;
                    let ghost advanced = self.nodes@[top as int];
                    assert(self.nodes@ =~= below.push(advanced));
                    proof {
                        lemma_stack_push(below, advanced, tree);
                        assert(advanced.pending(tree) =~= frame.pending(tree).skip(1));
                        assert(old(self).remaining().skip(1) =~= advanced.pending(tree)
                            + stack_pending(below, tree));
                    }
                    return Some(self.tree.nodes[node].objects[current]);
                } else {
                    // The cell is exhausted
                    self.nodes.pop();
                    assert(self.nodes@ =~= below);
                    assert(frame.pending(tree) =~= Seq::<ObjectRef>::empty());
                }
            }
        }
    }
}

} // verus!
