//! A world of rigid bodies, as far as a scene needs one: bodies that have a
//! position and a velocity and move on in a straight line.

use vstd::prelude::*;
use vstd::wrapping::i64_specs::{signed_crop, wrapping_mul};
use crate::math::{lemma_wrapping_sum, Vec3};
use crate::pool::{lemma_upcoming_after_same, upcoming_after, Handle, Pool};

verus! {

/// A body of the physics world.
#[derive(Clone, Copy, PartialEq, Eq, Structural, Hash, Debug)]
pub struct RigidBody {
    pub position: Vec3,
    pub velocity: Vec3,
}

impl RigidBody {
    /// A body at rest at `position`.
    pub fn new(position: Vec3) -> (b: RigidBody)
        ensures
            b == (RigidBody { position, velocity: Vec3::zero() }),
    {
        RigidBody { position, velocity: Vec3::zero() }
    }

    /// The body after the time `dt`: further on by `dt` times its velocity,
    /// each coordinate brought into the range of `i64` by wrapping around.
    pub open spec fn moved(self, dt: i64) -> RigidBody {
        RigidBody {
            position: Vec3 {
                x: signed_crop(self.position.x + self.velocity.x * dt),
                y: signed_crop(self.position.y + self.velocity.y * dt),
                z: signed_crop(self.position.z + self.velocity.z * dt),
            },
            velocity: self.velocity,
        }
    }

    pub fn get_position(&self) -> (p: Vec3)
        ensures
            p == self.position,
    {
        self.position
    }

    pub fn set_position(&mut self, position: Vec3)
        ensures
            *final(self) == (RigidBody { position, ..*old(self) }),
    {
        self.position = position;
    }

    pub fn set_velocity(&mut self, velocity: Vec3)
        ensures
            *final(self) == (RigidBody { velocity, ..*old(self) }),
    {
        self.velocity = velocity;
    }

    /// Moves the body on by the time `dt`.
    pub fn integrate(&mut self, dt: i64)
        ensures
            *final(self) == old(self).moved(dt),
    {
        proof {
            lemma_wrapping_sum(
                self.position.x,
                self.position.x as int,
                wrapping_mul(self.velocity.x, dt),
                self.velocity.x * dt,
            );
            lemma_wrapping_sum(
                self.position.y,
                self.position.y as int,
                wrapping_mul(self.velocity.y, dt),
                self.velocity.y * dt,
            );
            lemma_wrapping_sum(
                self.position.z,
                self.position.z as int,
                wrapping_mul(self.velocity.z, dt),
                self.velocity.z * dt,
            );
        }
        self.position = Vec3 {
            x: self.position.x.wrapping_add(self.velocity.x.wrapping_mul(dt)),
            y: self.position.y.wrapping_add(self.velocity.y.wrapping_mul(dt)),
            z: self.position.z.wrapping_add(self.velocity.z.wrapping_mul(dt)),
        };
    }
}

/// The physics world. Its view is the map from the handles of the bodies
/// that are alive to the bodies.
pub struct Physics {
    bodies: Pool<RigidBody>,
}

impl View for Physics {
    type V = Map<Handle, RigidBody>;

    closed spec fn view(&self) -> Map<Handle, RigidBody> {
        self.bodies@
    }
}

impl Default for Physics {
    fn default() -> (p: Physics)
        ensures
            p.wf(),
            p@ == Map::<Handle, RigidBody>::empty(),
            forall|k: nat| p.upcoming(k) == Handle::first(k),
    {
        Physics { bodies: Pool::new() }
    }
}

impl Physics {
    /// The invariant of the arena that holds the bodies.
    pub closed spec fn wf(&self) -> bool {
        self.bodies.wf()
    }

    /// The handle that the next body gets.
    pub closed spec fn next_handle(&self) -> Handle {
        self.bodies.next_handle()
    }

    /// The handle that the body added after the next `k` bodies gets, if no
    /// body is removed before.
    pub closed spec fn upcoming(&self, k: nat) -> Handle {
        self.bodies.upcoming(k)
    }

    /// The next handle is the first of the handles to come.
    pub proof fn lemma_next_handle(&self)
        ensures
            self.next_handle() == self.upcoming(0),
    {
        self.bodies.lemma_next_handle();
    }

    pub fn new() -> (p: Physics)
        ensures
            p.wf(),
            p@ == Map::<Handle, RigidBody>::empty(),
            forall|k: nat| p.upcoming(k) == Handle::first(k),
    {
        Physics { bodies: Pool::new() }
    }

    /// Adds a body and returns its handle, which was not alive before.
    pub fn add_body(&mut self, body: RigidBody) -> (h: Handle)
        requires
            old(self).wf(),
        ensures
            final(self).wf(),
            h == old(self).next_handle(),
            h != Handle::none(),
            !old(self)@.contains_key(h),
            final(self)@ == old(self)@.insert(h, body),
            forall|k: nat| final(self).upcoming(k) == old(self).upcoming(k + 1),
    {
        self.bodies.spawn(body)
    }

    /// Removes the body under `h`.
    pub fn remove_body(&mut self, h: Handle)
        requires
            old(self).wf(),
            old(self)@.contains_key(h),
        ensures
            final(self).wf(),
            final(self)@ == old(self)@.remove(h),
            forall|k: nat|
                final(self).upcoming(k) == upcoming_after(
                    seq![h],
                    |j: nat| old(self).upcoming(j),
                    k,
                ),
    {
        self.bodies.free(h);
        proof {
            assert forall|k: nat|
                self.upcoming(k) == upcoming_after(seq![h], |j: nat| old(self).upcoming(j), k) by {
                lemma_upcoming_after_same(
                    seq![h],
                    |j: nat| old(self).bodies.upcoming(j),
                    |j: nat| old(self).upcoming(j),
                    k,
                );
            }
        }
    }

    /// Whether a body is alive under `h`.
    pub fn is_valid_body_handle(&self, h: Handle) -> (b: bool)
        ensures
            b == self@.contains_key(h),
    {
        self.bodies.is_valid_handle(h)
    }

    pub fn borrow_body(&self, h: Handle) -> (body: &RigidBody)
        requires
            self@.contains_key(h),
        ensures
            *body == self@[h],
    {
        self.bodies.borrow(h)
    }

    pub fn borrow_body_mut(&mut self, h: Handle) -> (body: &mut RigidBody)
        requires
            old(self)@.contains_key(h),
        ensures
            *body == old(self)@[h],
            final(self)@ == old(self)@.insert(h, *final(body)),
            old(self).wf() ==> final(self).wf(),
            old(self).wf() ==> forall|k: nat| final(self).upcoming(k) == old(self).upcoming(k),
    {
        self.bodies.borrow_mut(h)
    }

    /// The bodies after the time `dt`.
    pub open spec fn stepped(bodies: Map<Handle, RigidBody>, dt: i64) -> Map<Handle, RigidBody> {
        Map::new(|h: Handle| bodies.contains_key(h), |h: Handle| bodies[h].moved(dt))
    }

    /// Moves every body on by the time `dt`.
    pub fn step(&mut self, dt: i64)
        requires
            old(self).wf(),
        ensures
            final(self).wf(),
            final(self)@ == Self::stepped(old(self)@, dt),
            forall|k: nat| final(self).upcoming(k) == old(self).upcoming(k),
    {
        let capacity = self.bodies.get_capacity();
        let mut i: usize = 0;
        while i < capacity
            invariant
                self.wf(),
                i <= capacity,
                capacity == self.bodies.capacity(),
                capacity == old(self).bodies.capacity(),
                forall|k: int|
                    0 <= k < capacity ==> self.bodies.handle_at(k) == old(self).bodies.handle_at(k),
                forall|h: Handle| self@.contains_key(h) == old(self)@.contains_key(h),
                forall|k: nat| self.upcoming(k) == old(self).upcoming(k),
                forall|h: Handle|
                    self@.contains_key(h) ==> #[trigger] self@[h] == (if h.slot() < i {
                        old(self)@[h].moved(dt)
                    } else {
                        old(self)@[h]
                    }),
            decreases capacity - i,
        {
            let ghost prev = self@;
            let h = self.bodies.handle_from_index(i);
            proof {
                self.bodies.lemma_slot(i as int);
                if self@.contains_key(Handle::none()) {
                    self.bodies.lemma_alive(Handle::none());
                }
            }
            if h.is_some() {
                self.bodies.borrow_mut(h).integrate(dt);
            }
            proof {
                assert forall|x: Handle| self@.contains_key(x) implies #[trigger] self@[x]
                    == (if x.slot()
                    < i + 1 {
                    old(self)@[x].moved(dt)
                } else {
                    old(self)@[x]
                }) by {
                    old(self).bodies.lemma_alive(x);
                    assert(prev[x] == (if x.slot() < i {
                        old(self)@[x].moved(dt)
                    } else {
                        old(self)@[x]
                    }));
                }
            }
            i += 1;
        }
        proof {
            assert forall|x: Handle| self@.contains_key(x) implies self@[x] == old(self)@[x].moved(
                dt,
            ) by {
                old(self).bodies.lemma_alive(x);
            }
            assert(self@ =~= Self::stepped(old(self)@, dt));
        }
    }
}

} // verus!
