use quadtree::collision::primitives::sqdist_vector2_aabb;
use quadtree::collision::primitives::Circle;
use quadtree::collision::primitives::Collidable;
use quadtree::collision::primitives::Delimitable;
use quadtree::collision::primitives::AABB;
use quadtree::types::Vector2;

fn circle(x: i32, y: i32, radius: u32) -> Circle {
    Circle { center: Vector2::new(x, y), radius }
}

fn aabb(x: i32, y: i32, hw: u32, hh: u32) -> AABB {
    AABB { center: Vector2::new(x, y), halfws: [hw, hh] }
}

#[test]
fn vector_constructors() {
    assert_eq!(Vector2::new(3, -4), Vector2 { x: 3, y: -4 });
    assert_eq!(Vector2::zero(), Vector2 { x: 0, y: 0 });
    assert_eq!(Vector2::one(), Vector2 { x: 1, y: 1 });
}

#[test]
fn vector_dot_product() {
    assert_eq!(Vector2::new(3, -4).dot(Vector2::new(2, 5)), -14);
    assert_eq!(Vector2::new(3, 4).dot(Vector2::new(3, 4)), 25);
}

#[test]
fn vector_dot_product_at_the_limits() {
    let low = Vector2::new(i32::MIN, i32::MIN);
    assert_eq!(low.dot(low), 2 * (1i128 << 62));
}

#[test]
fn vector_sum_and_difference() {
    assert_eq!(Vector2::new(3, -4) + Vector2::new(10, 20), Vector2::new(13, 16));
    assert_eq!(Vector2::new(3, -4) - Vector2::new(10, 20), Vector2::new(-7, -24));
}

#[test]
fn circles_overlap_by_center_distance() {
    // distance 30, radii add up to 100
    assert!(circle(200, 200, 50).collides(&circle(230, 200, 50)));
    // a 3-4-5 triangle: distance exactly 5
    assert!(circle(0, 0, 2).collides(&circle(3, 4, 3)));
    assert!(!circle(0, 0, 2).collides(&circle(3, 4, 2)));
}

#[test]
fn circles_that_touch_collide() {
    assert!(circle(0, 0, 10).collides(&circle(20, 0, 10)));
    assert!(!circle(0, 0, 10).collides(&circle(21, 0, 10)));
}

#[test]
fn circle_overlap_is_symmetric() {
    let a = circle(-7, 12, 4);
    let b = circle(1, 9, 5);
    let c = circle(100, 100, 1);
    assert_eq!(a.collides(&b), b.collides(&a));
    assert_eq!(a.collides(&c), c.collides(&a));
}

#[test]
fn circles_at_the_limits_of_the_grid() {
    let a = circle(i32::MIN, i32::MIN, u32::MAX);
    let b = circle(i32::MAX, i32::MAX, u32::MAX);
    assert!(a.collides(&b));
    let c = circle(i32::MIN, i32::MIN, 0);
    let d = circle(i32::MAX, i32::MAX, 0);
    assert!(!c.collides(&d));
}

#[test]
fn box_corners() {
    let b = aabb(10, 20, 3, 4);
    assert!(b.is_representable());
    assert_eq!(b.min(), Vector2::new(7, 16));
    assert_eq!(b.max(), Vector2::new(13, 24));
}

#[test]
fn box_corners_off_the_grid() {
    assert!(!aabb(i32::MAX, 0, 1, 0).is_representable());
    assert!(!aabb(0, i32::MIN, 0, 1).is_representable());
    assert!(aabb(i32::MAX, i32::MIN, 0, 0).is_representable());
}

#[test]
fn squared_distance_to_a_box() {
    let b = aabb(0, 0, 10, 5);
    // inside
    assert_eq!(sqdist_vector2_aabb(&Vector2::new(3, -2), &b), 0);
    // on the border
    assert_eq!(sqdist_vector2_aabb(&Vector2::new(10, 5), &b), 0);
    // right of it
    assert_eq!(sqdist_vector2_aabb(&Vector2::new(14, 0), &b), 16);
    // below and left of it
    assert_eq!(sqdist_vector2_aabb(&Vector2::new(-13, -9), &b), 9 + 16);
}

#[test]
fn circle_against_box() {
    let b = aabb(0, 0, 10, 5);
    assert!(circle(14, 0, 4).collides(&b));
    assert!(!circle(14, 0, 3).collides(&b));
    // diagonal: the nearest point is the corner (10, 5), at distance 5
    assert!(circle(13, 9, 5).collides(&b));
    assert!(!circle(13, 9, 4).collides(&b));
    // a circle centered in the box always collides
    assert!(circle(1, 1, 0).collides(&b));
}

#[test]
fn box_against_circle_is_the_same_test() {
    let b = aabb(0, 0, 10, 5);
    assert!(b.collides(&circle(14, 0, 4)));
    assert!(!b.collides(&circle(14, 0, 3)));
}

#[test]
fn box_against_box() {
    let a = aabb(0, 0, 10, 5);
    assert!(a.collides(&aabb(15, 0, 5, 5)));
    assert!(!a.collides(&aabb(16, 0, 5, 5)));
    assert!(a.collides(&aabb(0, -8, 1, 3)));
    assert!(!a.collides(&aabb(0, -9, 1, 3)));
    // apart on one axis is enough
    assert!(!a.collides(&aabb(0, 100, 50, 1)));
    // the box to the left is found too
    assert!(a.collides(&aabb(-15, 0, 5, 5)));
    assert!(!a.collides(&aabb(-16, 0, 5, 5)));
}

#[test]
fn bounding_circles_of_the_shapes() {
    let c = circle(4, 5, 6);
    assert_eq!(c.bounding_circle(), c);
    // the half-sizes add up to the radius
    assert_eq!(aabb(1, 2, 30, 40).bounding_circle(), circle(1, 2, 70));
    assert_eq!(aabb(1, 2, 40, 30).bounding_circle(), circle(1, 2, 70));
    assert_eq!(aabb(-7, 9, 0, 0).bounding_circle(), circle(-7, 9, 0));
}

#[test]
fn bounding_circle_of_a_box_reaches_its_corners() {
    let b = aabb(10, -20, 3, 4);
    let around = b.bounding_circle();
    assert_eq!(around.radius, 7);
    for corner in [b.min(), b.max(), Vector2::new(7, -16), Vector2::new(13, -24)] {
        let d = corner - b.center;
        assert!(d.dot(d) <= (around.radius as i128) * (around.radius as i128));
    }
    // the larger half-size alone would not reach them: 16 < 9 + 16
    let d = b.max() - b.center;
    assert_eq!(d.dot(d), 25);
}

#[test]
fn bounding_circle_of_a_box_too_large_for_a_radius() {
    assert_eq!(
        aabb(0, 0, u32::MAX, 1).bounding_circle(),
        circle(0, 0, u32::MAX)
    );
    assert_eq!(
        aabb(0, 0, u32::MAX - 1, 1).bounding_circle(),
        circle(0, 0, u32::MAX)
    );
    assert_eq!(
        aabb(0, 0, 0x8000_0000, 0x8000_0000).bounding_circle(),
        circle(0, 0, u32::MAX)
    );
    assert_eq!(
        aabb(0, 0, 0x7fff_ffff, 0x7fff_ffff).bounding_circle(),
        circle(0, 0, 0xffff_fffe)
    );
}
