//! Game objects as the partitioning structure sees them.

use crate::collision::primitives::Circle;
use crate::types::Vector2;
use vstd::prelude::*;

verus! {

/// A handle to an object of an `ObjectPool`: the place the object has there.
/// Two handles stand for the same object exactly when they are equal.
#[derive(Clone, Copy, Debug, PartialEq, Eq, Hash, Structural)]
pub struct ObjectRef {
    pub index: usize,
}

/// Common trait of a game object component.
pub trait GameComponent {

}

/// What the partitioning structure asks of an object.
pub trait GameObject {
    /// The bounding circle of this object, used for partitioning and for
    /// the collision test.
    fn bounding_circle(&self) -> Circle;

    /// The current position of this object.
    fn get_position(&self) -> Vector2;

    /// Called once for each other object whose bounding circle overlaps this
    /// object's, with the handle of that other object.
    fn on_collision(&mut self, other: ObjectRef);
}

/// The owner of the objects. Handles index into it and stay valid for good:
/// a pool only grows.
pub struct ObjectPool<T> {
    objects: Vec<T>,
}

impl<T> View for ObjectPool<T> {
    type V = Seq<T>;

    closed spec fn view(&self) -> Seq<T> {
        self.objects@
    }
}

impl<T> ObjectPool<T> {
    /// Whether `handle` stands for an object of this pool.
    pub open spec fn holds(&self, handle: ObjectRef) -> bool {
        handle.index < self@.len()
    }

    /// The object that `handle` stands for.
    pub open spec fn object(&self, handle: ObjectRef) -> T
        recommends
            self.holds(handle),
    {
        self@[handle.index as int]
    }

    /// An empty pool.
    pub fn new() -> (pool: ObjectPool<T>)
        ensures
            pool@ == Seq::<T>::empty(),
    {
        ObjectPool { objects: Vec::new() }
    }

    /// The number of objects in the pool.
    pub fn len(&self) -> (n: usize)
        ensures
            n == self@.len(),
    {
        self.objects.len()
    }

    /// Tells whether `handle` stands for an object of this pool.
    pub fn contains(&self, handle: ObjectRef) -> (found: bool)
        ensures
            found == self.holds(handle),
    {
        handle.index < self.objects.len()
    }

    /// The object that `handle` stands for.
    pub fn get(&self, handle: ObjectRef) -> (object: &T)
        requires
            self.holds(handle),
        ensures
            *object == self.object(handle),
    {
        &self.objects[handle.index]
    }

    /// The object that `handle` stands for, to be changed in place. No other
    /// object of the pool changes.
    pub fn get_mut(&mut self, handle: ObjectRef) -> (object: &mut T)
        requires
            old(self).holds(handle),
        ensures
            *object == old(self).object(handle),
            final(self)@ == old(self)@.update(handle.index as int, *final(object)),
    {
        &mut self.objects[handle.index]
    }
}

/// Moves `object` into `pool` and returns the handle that stands for it from
/// then on. The handles given out before keep their objects.
pub fn wrap_to_ref<T>(pool: &mut ObjectPool<T>, object: T) -> (handle: ObjectRef)
    ensures
        final(pool)@ == old(pool)@.push(object),
        handle.index == old(pool)@.len(),
{
    let index: usize = pool.objects.len();
    pool.objects.push(object);
    ObjectRef { index }
}

impl<T: GameObject> ObjectPool<T> {
    /// Asks every object of the pool for its bounding circle: the circle of
    /// the object `h` is at `h.index`. Which circles come back is up to the
    /// objects.
    pub fn bounding_circles(&self) -> (circles: Vec<Circle>)
        ensures
            circles@.len() == self@.len(),
    {
        let mut circles: Vec<Circle> = Vec::new();
        let mut i: usize = 0;
        while i < self.objects.len()
            invariant
                i <= self.objects@.len(),
                circles@.len() == i,
            decreases self.objects@.len() - i,
        {
            circles.push(self.objects[i].bounding_circle());
            i += 1;
        }
        circles
    }
}

} // verus!
