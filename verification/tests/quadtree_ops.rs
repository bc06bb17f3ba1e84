use quadtree::collision::partitioning::Quadtree;
use quadtree::collision::partitioning::MAX_DEPTH;
use quadtree::collision::partitioning::NOT_FOUND;
use quadtree::collision::primitives::Circle;
use quadtree::collision::primitives::Collidable;
use quadtree::common::objects::wrap_to_ref;
use quadtree::common::objects::GameObject;
use quadtree::common::objects::ObjectPool;
use quadtree::common::objects::ObjectRef;
use quadtree::types::Vector2;

/// A round object that remembers who ran into it.
struct Ball {
    position: Vector2,
    radius: u32,
    met: Vec<ObjectRef>,
}

impl Ball {
    fn at(x: i32, y: i32, radius: u32) -> Ball {
        Ball { position: Vector2::new(x, y), radius, met: Vec::new() }
    }
}

impl GameObject for Ball {
    fn bounding_circle(&self) -> Circle {
        Circle { center: self.position, radius: self.radius }
    }

    fn get_position(&self) -> Vector2 {
        self.position
    }

    fn on_collision(&mut self, other: ObjectRef) {
        self.met.push(other);
    }
}

fn circle(x: i32, y: i32, radius: u32) -> Circle {
    Circle { center: Vector2::new(x, y), radius }
}

fn handle(index: usize) -> ObjectRef {
    ObjectRef { index }
}

fn collect(tree: &Quadtree) -> Vec<ObjectRef> {
    let mut walk = tree.iter();
    let mut out = Vec::new();
    while let Some(object) = walk.next() {
        out.push(object);
    }
    out
}

fn collect_local(tree: &Quadtree, query: Circle) -> Vec<ObjectRef> {
    let mut walk = tree.local_iter(query);
    let mut out = Vec::new();
    while let Some(object) = walk.next() {
        out.push(object);
    }
    out
}

fn sorted(mut handles: Vec<ObjectRef>) -> Vec<usize> {
    let mut indices: Vec<usize> = handles.drain(..).map(|h| h.index).collect();
    indices.sort();
    indices
}

#[test]
fn depth_counts_subdivisions() {
    assert_eq!(Quadtree::new(Vector2::zero(), 400, 0).cell_count(), 1);
    assert_eq!(Quadtree::new(Vector2::zero(), 400, 1).cell_count(), 5);
    assert_eq!(Quadtree::new(Vector2::zero(), 400, 2).cell_count(), 21);
    assert_eq!(Quadtree::new(Vector2::zero(), 400, 4).cell_count(), 341);
    assert!(4 <= MAX_DEPTH);
}

#[test]
fn new_tree_is_empty() {
    let tree = Quadtree::new(Vector2::new(5, 5), 100, 3);
    assert_eq!(collect(&tree), vec![]);
    assert_eq!(tree.ancestor_count(), 0);
    assert!(tree.pending_within(0));
    assert!(tree.held_within(0));
}

#[test]
fn end_to_end_scenario() {
    let mut pool: ObjectPool<Ball> = ObjectPool::new();
    let mut tree = Quadtree::new(Vector2::new(0, 0), 400, 4);
    let a = wrap_to_ref(&mut pool, Ball::at(200, 200, 50));
    let b = wrap_to_ref(&mut pool, Ball::at(230, 200, 50));
    tree.add(&pool, a);
    tree.add(&pool, b);
    tree.test_collisions(&mut pool);
    assert_eq!(pool.get(a).met, vec![b]);
    assert_eq!(pool.get(b).met, vec![a]);

    let c = wrap_to_ref(&mut pool, Ball::at(-200, -200, 10));
    tree.add(&pool, c);
    tree.test_collisions(&mut pool);
    assert_eq!(pool.get(a).met, vec![b, b]);
    assert_eq!(pool.get(b).met, vec![a, a]);
    assert_eq!(pool.get(c).met, vec![]);
    assert_eq!(tree.ancestor_count(), 0);
}

#[test]
fn ancestor_stack_is_empty_after_every_sweep() {
    let mut pool: ObjectPool<Ball> = ObjectPool::new();
    let mut tree = Quadtree::new(Vector2::new(0, 0), 400, 3);
    for i in 0..10 {
        let h = wrap_to_ref(&mut pool, Ball::at(37 * i - 150, 90 - 23 * i, 30));
        tree.add(&pool, h);
    }
    for _ in 0..3 {
        tree.test_collisions(&mut pool);
        assert_eq!(tree.ancestor_count(), 0);
    }
}

#[test]
fn wrap_to_ref_gives_distinct_handles_in_order() {
    let mut pool: ObjectPool<Ball> = ObjectPool::new();
    assert_eq!(pool.len(), 0);
    let a = wrap_to_ref(&mut pool, Ball::at(1, 2, 3));
    let b = wrap_to_ref(&mut pool, Ball::at(4, 5, 6));
    assert_eq!(a, handle(0));
    assert_eq!(b, handle(1));
    assert_eq!(pool.len(), 2);
    assert!(pool.contains(a) && pool.contains(b));
    assert!(!pool.contains(handle(2)));
    assert_eq!(pool.get(a).get_position(), Vector2::new(1, 2));
    assert_eq!(pool.get(b).bounding_circle(), circle(4, 5, 6));
    pool.get_mut(a).position = Vector2::new(9, 9);
    assert_eq!(pool.get(a).get_position(), Vector2::new(9, 9));
    assert_eq!(pool.get(b).get_position(), Vector2::new(4, 5));
    assert_eq!(pool.bounding_circles(), vec![circle(9, 9, 3), circle(4, 5, 6)]);
}

#[test]
fn add_then_remove_gives_the_object_back() {
    let mut tree = Quadtree::new(Vector2::new(0, 0), 400, 4);
    tree.add_bounded(handle(0), circle(-100, 100, 10));
    tree.add_bounded(handle(1), circle(5, 5, 10));
    let before = collect(&tree);

    let bounds = circle(200, 200, 50);
    tree.add_bounded(handle(2), bounds);
    assert_eq!(sorted(collect(&tree)), vec![0, 1, 2]);
    assert_eq!(tree.remove_bounded(handle(2), bounds), Ok(handle(2)));
    assert_eq!(collect(&tree), before);
}

#[test]
fn add_then_remove_through_the_pool() {
    let mut pool: ObjectPool<Ball> = ObjectPool::new();
    let mut tree = Quadtree::new(Vector2::new(0, 0), 400, 4);
    let a = wrap_to_ref(&mut pool, Ball::at(200, 200, 50));
    tree.add(&pool, a);
    let position = pool.get(a).get_position();
    assert_eq!(tree.remove(&pool, a, position), Ok(a));
    assert_eq!(collect(&tree), vec![]);
}

#[test]
fn remove_looks_only_where_the_old_position_leads() {
    let mut tree = Quadtree::new(Vector2::new(0, 0), 400, 4);
    tree.add_bounded(handle(0), circle(200, 200, 50));
    // The object is in the tree, but not where this position leads.
    assert_eq!(tree.remove_bounded(handle(0), circle(-200, -200, 50)), Err(NOT_FOUND));
    assert_eq!(
        tree.remove_bounded(handle(0), circle(-200, -200, 50)),
        Err("Object does not exist in this quadtree")
    );
    assert_eq!(collect(&tree), vec![handle(0)]);
    // Another object with the same circle is not the same object.
    assert_eq!(tree.remove_bounded(handle(1), circle(200, 200, 50)), Err(NOT_FOUND));
    assert_eq!(tree.remove_bounded(handle(0), circle(200, 200, 50)), Ok(handle(0)));
    assert_eq!(tree.remove_bounded(handle(0), circle(200, 200, 50)), Err(NOT_FOUND));
}

#[test]
fn remove_through_the_pool_fails_on_a_stale_position() {
    let mut pool: ObjectPool<Ball> = ObjectPool::new();
    let mut tree = Quadtree::new(Vector2::new(0, 0), 400, 4);
    let a = wrap_to_ref(&mut pool, Ball::at(200, 200, 50));
    tree.add(&pool, a);
    assert_eq!(tree.remove(&pool, a, Vector2::new(-300, 300)), Err(NOT_FOUND));
    assert_eq!(collect(&tree), vec![a]);
}

#[test]
fn remove_takes_the_first_of_equal_handles() {
    let mut tree = Quadtree::new(Vector2::new(0, 0), 400, 0);
    tree.add_bounded(handle(7), circle(1, 1, 1));
    tree.add_bounded(handle(8), circle(1, 1, 1));
    tree.add_bounded(handle(7), circle(1, 1, 1));
    assert_eq!(collect(&tree), vec![handle(7), handle(8), handle(7)]);
    assert_eq!(tree.remove_bounded(handle(7), circle(1, 1, 1)), Ok(handle(7)));
    assert_eq!(collect(&tree), vec![handle(8), handle(7)]);
}

#[test]
fn iteration_yields_every_object_once() {
    let mut tree = Quadtree::new(Vector2::new(0, 0), 400, 4);
    let circles = vec![
        circle(0, 0, 10),        // straddles both lines of the root
        circle(200, 5, 10),      // straddles the x axis
        circle(200, 200, 50),    // straddles the lines of its quadrant
        circle(310, 310, 5),     // deep in the tree
        circle(-310, 310, 5),
        circle(-310, -310, 5),
        circle(310, -310, 5),
        circle(1000, 1000, 1),   // outside the space
        circle(-30, -30, 1),
        circle(-31, -30, 1),
    ];
    for (i, c) in circles.iter().enumerate() {
        tree.add_bounded(handle(i), *c);
    }
    let seen = collect(&tree);
    assert_eq!(seen.len(), circles.len());
    assert_eq!(sorted(seen), (0..circles.len()).collect::<Vec<usize>>());
}

#[test]
fn iteration_yields_quadrants_before_the_cell_itself() {
    let mut tree = Quadtree::new(Vector2::new(0, 0), 400, 1);
    tree.add_bounded(handle(0), circle(0, 0, 10));       // root
    tree.add_bounded(handle(1), circle(-200, -200, 10)); // quadrant 0
    tree.add_bounded(handle(2), circle(200, -200, 10));  // quadrant 1
    tree.add_bounded(handle(3), circle(-200, 200, 10));  // quadrant 2
    tree.add_bounded(handle(4), circle(200, 200, 10));   // quadrant 3
    tree.add_bounded(handle(5), circle(0, 300, 10));     // root again
    assert_eq!(
        collect(&tree),
        vec![handle(4), handle(3), handle(2), handle(1), handle(0), handle(5)]
    );
}

#[test]
fn iteration_restarts_from_the_beginning() {
    let mut tree = Quadtree::new(Vector2::new(0, 0), 400, 2);
    tree.add_bounded(handle(0), circle(100, 100, 10));
    tree.add_bounded(handle(1), circle(-100, 100, 10));
    let mut first = tree.iter();
    assert!(first.next().is_some());
    let second = collect(&tree);
    assert_eq!(second.len(), 2);
    assert!(first.next().is_some());
    assert_eq!(first.next(), None);
    assert_eq!(first.next(), None);
}

#[test]
fn undivided_tree_holds_everything_at_the_root() {
    let mut tree = Quadtree::new(Vector2::new(0, 0), 400, 0);
    tree.add_bounded(handle(0), circle(300, 300, 1));
    tree.add_bounded(handle(1), circle(-300, -300, 1));
    assert_eq!(
        collect_local(&tree, circle(300, 300, 1)),
        vec![handle(0), handle(1)]
    );
}

#[test]
fn local_iteration_starts_where_the_query_rests() {
    let mut tree = Quadtree::new(Vector2::new(0, 0), 400, 4);
    tree.add_bounded(handle(0), circle(300, 300, 5));
    tree.add_bounded(handle(1), circle(310, 305, 5));
    tree.add_bounded(handle(2), circle(-300, -300, 5));
    tree.add_bounded(handle(3), circle(200, 200, 20)); // at the quadrant's own cell
    // A query that straddles the root sees everything.
    assert_eq!(sorted(collect_local(&tree, circle(0, 0, 50))), vec![0, 1, 2, 3]);
    // A query that rests at the quadrant of greater x and y sees what is there.
    assert_eq!(sorted(collect_local(&tree, circle(200, 200, 50))), vec![0, 1, 3]);
    // A query that rests deeper sees less.
    assert_eq!(sorted(collect_local(&tree, circle(300, 300, 20))), vec![0, 1]);
}

#[test]
fn local_iteration_finds_what_overlaps_below_the_entry_cell() {
    let mut tree = Quadtree::new(Vector2::new(0, 0), 400, 4);
    let query = circle(300, 300, 40);
    let circles = vec![
        circle(300, 300, 5),
        circle(330, 280, 10),
        circle(270, 335, 8),
        circle(340, 340, 1),
        circle(-340, 340, 1),
        circle(100, 100, 10),
    ];
    for (i, c) in circles.iter().enumerate() {
        tree.add_bounded(handle(i), *c);
    }
    let seen = sorted(collect_local(&tree, query));
    assert_eq!(seen, vec![0, 1, 2, 3]);
}

#[test]
fn local_iteration_misses_what_is_held_above_the_entry_cell() {
    let mut tree = Quadtree::new(Vector2::new(0, 0), 400, 4);
    // A large object that straddles the root's lines is held at the root.
    let large = circle(0, 0, 300);
    tree.add_bounded(handle(0), large);
    tree.add_bounded(handle(1), circle(150, 150, 5));
    // The query overlaps it, but rests in a quadrant.
    let query = circle(150, 150, 20);
    assert!(query.collides(&large));
    assert_eq!(collect_local(&tree, query), vec![handle(1)]);
}

#[test]
fn scheduled_updates_wait_for_the_flush() {
    let mut tree = Quadtree::new(Vector2::new(0, 0), 400, 1);
    tree.add_bounded(handle(0), circle(-200, -200, 10));
    tree.add_bounded(handle(1), circle(200, 200, 10));
    let order = collect(&tree);
    assert_eq!(order, vec![handle(1), handle(0)]);
    tree.schedule_update(handle(0), Vector2::new(-200, -200));
    assert_eq!(collect(&tree), order);
    assert!(tree.pending_within(1));
    assert!(!tree.pending_within(0));

    // the object has moved to the quadrant of handle 1
    let circles = vec![circle(200, 210, 10), circle(200, 200, 10)];
    assert_eq!(tree.relocate_pending(&circles), Ok(()));
    assert_eq!(collect(&tree), vec![handle(1), handle(0)]);
    assert_eq!(
        collect_local(&tree, circle(200, 200, 10)),
        vec![handle(1), handle(0)]
    );
    assert!(tree.pending_within(0));
}

#[test]
fn relocation_is_remove_then_add() {
    let old = circle(-200, -200, 10);
    let new = circle(210, -190, 10);
    let build = || {
        let mut tree = Quadtree::new(Vector2::new(0, 0), 400, 3);
        tree.add_bounded(handle(0), old);
        tree.add_bounded(handle(1), circle(200, -200, 10));
        tree.add_bounded(handle(2), circle(0, 0, 10));
        tree
    };
    let circles = vec![new, circle(200, -200, 10), circle(0, 0, 10)];

    let mut scheduled = build();
    scheduled.schedule_update(handle(0), old.center);
    assert_eq!(scheduled.relocate_pending(&circles), Ok(()));

    let mut direct = build();
    assert_eq!(direct.remove_bounded(handle(0), old), Ok(handle(0)));
    direct.add_bounded(handle(0), new);

    assert_eq!(collect(&scheduled), collect(&direct));
    for query in [circle(200, -200, 10), circle(-200, -200, 10), circle(0, 0, 1)] {
        assert_eq!(collect_local(&scheduled, query), collect_local(&direct, query));
    }
}

#[test]
fn update_positions_through_the_pool() {
    let mut pool: ObjectPool<Ball> = ObjectPool::new();
    let mut tree = Quadtree::new(Vector2::new(0, 0), 400, 2);
    let a = wrap_to_ref(&mut pool, Ball::at(-200, -200, 10));
    tree.add(&pool, a);
    let old_position = pool.get(a).get_position();
    pool.get_mut(a).position = Vector2::new(300, 300);
    tree.schedule_update(a, old_position);
    assert!(tree.pending_within(pool.len()));
    assert_eq!(tree.update_positions(&pool), Ok(()));
    assert_eq!(collect_local(&tree, circle(300, 300, 10)), vec![a]);
    assert_eq!(collect_local(&tree, circle(-200, -200, 10)), vec![]);
    // nothing is scheduled any more
    assert_eq!(tree.update_positions(&pool), Ok(()));
    assert_eq!(collect(&tree), vec![a]);
}

#[test]
fn update_positions_stops_at_the_first_failure() {
    let mut tree = Quadtree::new(Vector2::new(0, 0), 400, 1);
    tree.add_bounded(handle(0), circle(-200, -200, 10));
    tree.add_bounded(handle(1), circle(-200, 200, 10));
    tree.add_bounded(handle(2), circle(200, -200, 10));
    // all three have moved to the quadrant of greater x and y
    let circles = vec![circle(200, 200, 10), circle(210, 200, 10), circle(220, 200, 10)];
    tree.schedule_update(handle(0), Vector2::new(-200, -200));
    tree.schedule_update(handle(1), Vector2::new(0, 0)); // a wrong old position
    tree.schedule_update(handle(2), Vector2::new(200, -200));
    assert_eq!(tree.relocate_pending(&circles), Err(NOT_FOUND));
    // the first was relocated, the second and the third were not
    assert_eq!(collect_local(&tree, circle(200, 200, 10)), vec![handle(0)]);
    assert_eq!(collect_local(&tree, circle(-200, 200, 10)), vec![handle(1)]);
    assert_eq!(collect_local(&tree, circle(200, -200, 10)), vec![handle(2)]);
    // and the schedule is empty
    assert_eq!(tree.relocate_pending(&circles), Ok(()));
    assert_eq!(collect_local(&tree, circle(200, -200, 10)), vec![handle(2)]);
}

#[test]
fn relocating_twice_uses_each_old_position_in_turn() {
    let mut tree = Quadtree::new(Vector2::new(0, 0), 400, 1);
    tree.add_bounded(handle(0), circle(-200, -200, 10));
    let circles = vec![circle(200, 200, 10)];
    tree.schedule_update(handle(0), Vector2::new(-200, -200));
    // by the second relocation the object rests where the first one put it
    tree.schedule_update(handle(0), Vector2::new(200, 200));
    assert_eq!(tree.relocate_pending(&circles), Ok(()));
    assert_eq!(collect(&tree), vec![handle(0)]);
    assert_eq!(collect_local(&tree, circle(200, 200, 10)), vec![handle(0)]);
}

#[test]
fn colliding_pairs_in_one_cell() {
    let mut tree = Quadtree::new(Vector2::new(0, 0), 400, 0);
    let circles = vec![
        circle(0, 0, 10),
        circle(15, 0, 10),
        circle(30, 0, 20),
        circle(200, 200, 1),
    ];
    for (i, c) in circles.iter().enumerate() {
        tree.add_bounded(handle(i), *c);
    }
    assert!(tree.held_within(4));
    assert!(!tree.held_within(3));
    // each later object is tested against the earlier ones, in order
    assert_eq!(
        tree.colliding_pairs(&circles),
        vec![(handle(0), handle(1)), (handle(0), handle(2)), (handle(1), handle(2))]
    );
}

#[test]
fn colliding_pairs_across_levels() {
    let mut tree = Quadtree::new(Vector2::new(0, 0), 400, 4);
    let circles = vec![
        circle(0, 0, 120),      // held at the root
        circle(80, 80, 5),      // deep in the quadrant of greater x and y
        circle(-100, -100, 5),  // deep in the opposite quadrant, out of reach
        circle(350, 350, 5),    // far from everything
    ];
    for (i, c) in circles.iter().enumerate() {
        tree.add_bounded(handle(i), *c);
    }
    // The object at the root is tested when the sweep visits the deep cell:
    // the object of the visited cell comes first in the pair.
    assert_eq!(tree.colliding_pairs(&circles), vec![(handle(1), handle(0))]);
}

#[test]
fn no_object_collides_with_itself() {
    let mut pool: ObjectPool<Ball> = ObjectPool::new();
    let mut tree = Quadtree::new(Vector2::new(0, 0), 400, 2);
    let a = wrap_to_ref(&mut pool, Ball::at(10, 10, 100));
    tree.add(&pool, a);
    tree.test_collisions(&mut pool);
    assert_eq!(pool.get(a).met, vec![]);
}

#[test]
fn every_overlapping_pair_is_reported_once() {
    let circles = vec![
        circle(0, 0, 60),
        circle(50, 50, 20),
        circle(-50, -50, 20),
        circle(55, 45, 3),
        circle(300, 300, 10),
        circle(310, 300, 10),
        circle(-300, 300, 10),
        circle(5, 200, 30),
        circle(-5, 230, 10),
        circle(120, 120, 70),
    ];
    let mut pool: ObjectPool<Ball> = ObjectPool::new();
    let mut tree = Quadtree::new(Vector2::new(0, 0), 400, 4);
    for c in circles.iter() {
        let h = wrap_to_ref(&mut pool, Ball::at(c.center.x, c.center.y, c.radius));
        tree.add(&pool, h);
    }
    tree.test_collisions(&mut pool);
    for i in 0..circles.len() {
        let mut expected: Vec<usize> = Vec::new();
        for j in 0..circles.len() {
            if i != j && circles[i].collides(&circles[j]) {
                expected.push(j);
            }
        }
        let met = sorted(pool.get(handle(i)).met.clone());
        assert_eq!(met, expected, "object {}", i);
    }
}

#[test]
fn a_handle_held_twice_meets_itself() {
    // Each object belongs at one place of the tree. A handle that was added
    // twice stands at two places, and these are tested against each other
    // like any two places.
    let mut tree = Quadtree::new(Vector2::new(0, 0), 400, 0);
    let circles = vec![circle(10, 10, 5)];
    tree.add_bounded(handle(0), circles[0]);
    tree.add_bounded(handle(0), circles[0]);
    assert_eq!(tree.colliding_pairs(&circles), vec![(handle(0), handle(0))]);
}

#[test]
fn objects_in_sibling_quadrants_are_not_tested() {
    let mut tree = Quadtree::new(Vector2::new(0, 0), 400, 1);
    // Both lie clear of the dividing lines, on different sides: their
    // circles cannot overlap, and the sweep does not even try.
    let circles = vec![circle(-20, 50, 10), circle(20, 50, 10)];
    tree.add_bounded(handle(0), circles[0]);
    tree.add_bounded(handle(1), circles[1]);
    assert_eq!(tree.colliding_pairs(&circles), vec![]);
    // Moved up to the line, each touches it and so straddles it: both are
    // held at the root, where they are tested. Their centers are 20 apart
    // and their radii add up to 20: they touch, which counts as a collision.
    let closer = vec![circle(-10, 50, 10), circle(10, 50, 10)];
    let mut tree = Quadtree::new(Vector2::new(0, 0), 400, 1);
    tree.add_bounded(handle(0), closer[0]);
    tree.add_bounded(handle(1), closer[1]);
    assert_eq!(tree.colliding_pairs(&closer), vec![(handle(0), handle(1))]);
}

#[test]
fn a_circle_that_touches_a_dividing_line_straddles_it() {
    let mut tree = Quadtree::new(Vector2::new(0, 0), 400, 1);
    // at distance 10 from the line x = 0, with radius 10: held at the root
    tree.add_bounded(handle(0), circle(10, 200, 10));
    // at distance 11: held in the quadrant
    tree.add_bounded(handle(1), circle(11, 200, 10));
    // the line y = 0 is tested only for circles clear of the line x = 0
    tree.add_bounded(handle(2), circle(200, -10, 10));
    tree.add_bounded(handle(3), circle(200, 11, 10));
    // a point at the very center straddles both lines
    tree.add_bounded(handle(4), circle(0, 0, 0));
    let in_quadrant = collect_local(&tree, circle(200, 200, 10));
    assert_eq!(in_quadrant, vec![handle(1), handle(3)]);
    assert_eq!(
        collect(&tree),
        vec![handle(1), handle(3), handle(0), handle(2), handle(4)]
    );
}

#[test]
fn quadrants_are_numbered_by_side() {
    // bit 0: the side of greater x; bit 1: the side of greater y
    let mut tree = Quadtree::new(Vector2::new(100, -100), 400, 1);
    tree.add_bounded(handle(0), circle(0, -200, 10));   // quadrant 0
    tree.add_bounded(handle(1), circle(200, -200, 10)); // quadrant 1
    tree.add_bounded(handle(2), circle(0, 0, 10));      // quadrant 2
    tree.add_bounded(handle(3), circle(200, 0, 10));    // quadrant 3
    // the walk yields the last quadrant first
    assert_eq!(collect(&tree), vec![handle(3), handle(2), handle(1), handle(0)]);
}

#[test]
fn deeper_cells_halve_the_half_width() {
    // With half-width 400 the quadrants of the root are centered at
    // (+-200, +-200), and theirs at (+-100, +-100) and (+-300, +-300) from it.
    let mut tree = Quadtree::new(Vector2::new(0, 0), 400, 2);
    tree.add_bounded(handle(0), circle(300, 300, 10)); // a cell of the second level
    tree.add_bounded(handle(1), circle(200, 300, 10)); // straddles x = 200: first level
    tree.add_bounded(handle(2), circle(100, 100, 10)); // a cell of the second level
    assert_eq!(collect_local(&tree, circle(310, 310, 5)), vec![handle(0)]);
    assert_eq!(collect_local(&tree, circle(110, 110, 5)), vec![handle(2)]);
    assert_eq!(
        collect_local(&tree, circle(200, 200, 5)),
        vec![handle(0), handle(2), handle(1)]
    );
}

/// A small generator of numbers that look scattered, the same on every run.
fn scattered(state: &mut u64, below: u32) -> u32 {
    *state = state.wrapping_mul(6364136223846793005).wrapping_add(1442695040888963407);
    ((*state >> 33) % below as u64) as u32
}

#[test]
fn the_sweep_agrees_with_testing_every_pair() {
    let mut state: u64 = 17;
    for depth in 0..5 {
        let mut circles: Vec<Circle> = Vec::new();
        for _ in 0..150 {
            let x = scattered(&mut state, 900) as i32 - 450;
            let y = scattered(&mut state, 900) as i32 - 450;
            let radius = scattered(&mut state, 60);
            circles.push(circle(x, y, radius));
        }
        let mut tree = Quadtree::new(Vector2::new(0, 0), 400, depth);
        for (i, c) in circles.iter().enumerate() {
            tree.add_bounded(handle(i), *c);
        }
        let mut found: Vec<(usize, usize)> = tree
            .colliding_pairs(&circles)
            .iter()
            .map(|(a, b)| (a.index.min(b.index), a.index.max(b.index)))
            .collect();
        found.sort();
        let mut expected: Vec<(usize, usize)> = Vec::new();
        for i in 0..circles.len() {
            for j in (i + 1)..circles.len() {
                if circles[i].collides(&circles[j]) {
                    expected.push((i, j));
                }
            }
        }
        assert_eq!(found, expected, "depth {}", depth);
        assert_eq!(tree.ancestor_count(), 0);
    }
}

#[test]
fn walks_and_relocations_keep_every_object() {
    let mut state: u64 = 99;
    let mut circles: Vec<Circle> = Vec::new();
    let mut tree = Quadtree::new(Vector2::new(0, 0), 400, 3);
    for i in 0..100 {
        let x = scattered(&mut state, 800) as i32 - 400;
        let y = scattered(&mut state, 800) as i32 - 400;
        let radius = scattered(&mut state, 40);
        circles.push(circle(x, y, radius));
        tree.add_bounded(handle(i), circles[i]);
    }
    // every object moves, and is scheduled with the position it had
    for i in 0..100 {
        let old_position = circles[i].center;
        circles[i].center = Vector2::new(
            scattered(&mut state, 800) as i32 - 400,
            scattered(&mut state, 800) as i32 - 400,
        );
        tree.schedule_update(handle(i), old_position);
    }
    assert_eq!(tree.relocate_pending(&circles), Ok(()));
    assert_eq!(sorted(collect(&tree)), (0..100).collect::<Vec<usize>>());
    // and each is found again where it now belongs
    for i in 0..100 {
        assert_eq!(tree.remove_bounded(handle(i), circles[i]), Ok(handle(i)));
    }
    assert_eq!(collect(&tree), vec![]);
}

#[test]
fn odd_half_widths_are_halved_exactly() {
    // Half-width 5: the quadrant of greater x and y is centered at
    // (2.5, 2.5) and is 2.5 wide; its own quadrants are centered at 1.25 and
    // 3.75 along each axis.
    let mut tree = Quadtree::new(Vector2::new(0, 0), 5, 2);
    tree.add_bounded(handle(0), circle(2, 2, 0)); // left of and below (2.5, 2.5)
    tree.add_bounded(handle(1), circle(3, 3, 0)); // right of and above it
    tree.add_bounded(handle(2), circle(3, 2, 0)); // right of and below it
    tree.add_bounded(handle(3), circle(2, 2, 1)); // reaches across both lines
    tree.add_bounded(handle(4), circle(3, 3, 1)); // and so does this one
    assert_eq!(collect_local(&tree, circle(2, 2, 0)), vec![handle(0)]);
    assert_eq!(collect_local(&tree, circle(3, 3, 0)), vec![handle(1)]);
    assert_eq!(collect_local(&tree, circle(3, 2, 0)), vec![handle(2)]);
    assert_eq!(
        collect_local(&tree, circle(2, 2, 1)),
        vec![handle(1), handle(2), handle(0), handle(3), handle(4)]
    );
    assert_eq!(sorted(collect(&tree)), vec![0, 1, 2, 3, 4]);
}

#[test]
fn a_space_one_step_wide_is_divided_in_half_steps() {
    // Half-width 1, depth 1: the quadrants are centered at half a step from
    // the center of the space.
    let mut tree = Quadtree::new(Vector2::new(10, 10), 1, 1);
    tree.add_bounded(handle(0), circle(10, 10, 0)); // on both lines
    tree.add_bounded(handle(1), circle(11, 11, 0));
    tree.add_bounded(handle(2), circle(9, 11, 0));
    tree.add_bounded(handle(3), circle(11, 10, 0)); // on the line y = 10
    assert_eq!(collect_local(&tree, circle(11, 11, 0)), vec![handle(1)]);
    assert_eq!(collect_local(&tree, circle(9, 11, 0)), vec![handle(2)]);
    assert_eq!(
        collect(&tree),
        vec![handle(1), handle(2), handle(0), handle(3)]
    );
}

#[test]
fn the_deepest_tree_of_a_wide_space() {
    // The greatest half-width, at the border of the grid, six levels deep.
    let mut tree = Quadtree::new(Vector2::new(i32::MAX, i32::MIN), u32::MAX, 5);
    assert_eq!(tree.cell_count(), 1365);
    let far = circle(i32::MIN, i32::MAX, 7);
    let near = circle(i32::MAX, i32::MIN, 0);
    tree.add_bounded(handle(0), far);
    tree.add_bounded(handle(1), near);
    assert_eq!(collect_local(&tree, far), vec![handle(0)]);
    // the far corner lies in a quadrant, and quadrants are walked first
    assert_eq!(collect_local(&tree, near), vec![handle(0), handle(1)]);
    assert_eq!(tree.remove_bounded(handle(0), far), Ok(handle(0)));
    assert_eq!(tree.remove_bounded(handle(1), near), Ok(handle(1)));
}

#[test]
fn an_object_the_tree_does_not_hold_is_not_reported() {
    let mut tree = Quadtree::new(Vector2::new(0, 0), 400, 2);
    // three circles on one spot, of which the tree holds two
    let circles = vec![circle(50, 50, 10), circle(50, 50, 10), circle(50, 50, 10)];
    tree.add_bounded(handle(0), circles[0]);
    tree.add_bounded(handle(2), circles[2]);
    assert_eq!(tree.colliding_pairs(&circles), vec![(handle(0), handle(2))]);
}
