//! The kinds of node: each is the shared record with what the kind adds.

use vstd::prelude::*;
use crate::base::{clone_handles, Base, BaseView};
use crate::math::Vec2;
use crate::pool::Handle;

verus! {

/// A surface as contracts see it.
pub ghost struct SurfaceView {
    pub data: u64,
    pub bones: Seq<Handle>,
}

/// One render surface of a mesh: the number of the geometry it shows, and
/// the nodes whose movement deforms it.
pub struct Surface {
    data: u64,
    bones: Vec<Handle>,
}

impl View for Surface {
    type V = SurfaceView;

    closed spec fn view(&self) -> SurfaceView {
        SurfaceView { data: self.data, bones: self.bones@ }
    }
}

impl Clone for Surface {
    fn clone(&self) -> (s: Surface)
        ensures
            s@ == self@,
    {
        Surface { data: self.data, bones: clone_handles(&self.bones) }
    }
}

impl Surface {
    /// A surface for the geometry `data`, with no bones.
    pub fn new(data: u64) -> (s: Surface)
        ensures
            s@ == (SurfaceView { data, bones: Seq::empty() }),
    {
        Surface { data, bones: Vec::new() }
    }

    pub fn data(&self) -> (d: u64)
        ensures
            d == self@.data,
    {
        self.data
    }

    pub fn bones(&self) -> (b: &Vec<Handle>)
        ensures
            b@ == self@.bones,
    {
        &self.bones
    }

    pub fn add_bone(&mut self, bone: Handle)
        ensures
            final(self)@ == (SurfaceView { bones: old(self)@.bones.push(bone), ..old(self)@ }),
    {
        self.bones.push(bone);
    }

    pub fn set_bones(&mut self, bones: Vec<Handle>)
        ensures
            final(self)@ == (SurfaceView { bones: bones@, ..old(self)@ }),
    {
        self.bones = bones;
    }
}

/// The views of a list of surfaces.
pub open spec fn surface_views(surfaces: Seq<Surface>) -> Seq<SurfaceView> {
    Seq::new(surfaces.len(), |i: int| surfaces[i]@)
}

/// A copy of a list of surfaces.
pub(crate) fn clone_surfaces(surfaces: &Vec<Surface>) -> (r: Vec<Surface>)
    ensures
        surface_views(r@) == surface_views(surfaces@),
{
    let mut r: Vec<Surface> = Vec::new();
    let mut i: usize = 0;
    while i < surfaces.len()
        invariant
            i <= surfaces.len(),
            r.len() == i,
            forall|j: int| 0 <= j < i ==> r@[j]@ == surfaces@[j]@,
        decreases surfaces.len() - i,
    {
        r.push(surfaces[i].clone());
        i += 1;
    }
    assert(surface_views(r@) =~= surface_views(surfaces@));
    r
}

/// A node that is drawn: the shared record and its surfaces.
pub struct Mesh {
    base: Base,
    surfaces: Vec<Surface>,
}

impl Mesh {
    pub closed spec fn base_view(&self) -> BaseView {
        self.base@
    }

    pub closed spec fn surfaces_view(&self) -> Seq<SurfaceView> {
        surface_views(self.surfaces@)
    }

    pub fn new(base: Base) -> (m: Mesh)
        ensures
            m.base_view() == base@,
            m.surfaces_view() == Seq::<SurfaceView>::empty(),
    {
        let m = Mesh { base, surfaces: Vec::new() };
        assert(m.surfaces_view() =~= Seq::<SurfaceView>::empty());
        m
    }

    pub fn base(&self) -> (b: &Base)
        ensures
            b@ == self.base_view(),
    {
        &self.base
    }

    pub fn base_mut(&mut self) -> (b: &mut Base)
        ensures
            b@ == old(self).base_view(),
            final(self).base_view() == final(b)@,
            final(self).surfaces_view() == old(self).surfaces_view(),
    {
        &mut self.base
    }

    pub fn surfaces(&self) -> (s: &Vec<Surface>)
        ensures
            surface_views(s@) == self.surfaces_view(),
    {
        &self.surfaces
    }

    pub fn add_surface(&mut self, surface: Surface)
        ensures
            final(self).base_view() == old(self).base_view(),
            final(self).surfaces_view() == old(self).surfaces_view().push(surface@),
    {
        self.surfaces.push(surface);
        assert(self.surfaces_view() =~= old(self).surfaces_view().push(surface@));
    }

    pub fn clear_surfaces(&mut self)
        ensures
            final(self).base_view() == old(self).base_view(),
            final(self).surfaces_view() == Seq::<SurfaceView>::empty(),
    {
        self.surfaces.clear();
        assert(self.surfaces_view() =~= Seq::<SurfaceView>::empty());
    }

    /// Replaces all surfaces at once.
    pub fn set_surfaces(&mut self, surfaces: Vec<Surface>)
        ensures
            final(self).base_view() == old(self).base_view(),
            final(self).surfaces_view() == surface_views(surfaces@),
    {
        self.surfaces = surfaces;
    }
}

/// A point of view. It remembers the size of the frame that its projection
/// was last fitted to.
pub struct Camera {
    base: Base,
    frame_size: Vec2,
}

impl Camera {
    pub closed spec fn base_view(&self) -> BaseView {
        self.base@
    }

    pub closed spec fn spec_frame_size(&self) -> Vec2 {
        self.frame_size
    }

    pub fn new(base: Base) -> (c: Camera)
        ensures
            c.base_view() == base@,
            c.frame_size() == (Vec2 { x: 0, y: 0 }),
    {
        Camera { base, frame_size: Vec2 { x: 0, y: 0 } }
    }

    pub fn base(&self) -> (b: &Base)
        ensures
            b@ == self.base_view(),
    {
        &self.base
    }

    pub fn base_mut(&mut self) -> (b: &mut Base)
        ensures
            b@ == old(self).base_view(),
            final(self).base_view() == final(b)@,
            final(self).frame_size() == old(self).frame_size(),
    {
        &mut self.base
    }

    #[verifier::when_used_as_spec(spec_frame_size)]
    pub fn frame_size(&self) -> (s: Vec2)
        ensures
            s == self.frame_size(),
    {
        self.frame_size
    }

    /// Fits the projection to a frame of the given size.
    pub fn calculate_matrices(&mut self, frame_size: Vec2)
        ensures
            final(self).base_view() == old(self).base_view(),
            final(self).frame_size() == frame_size,
    {
        self.frame_size = frame_size;
    }
}

/// A source of light.
pub struct Light {
    base: Base,
}

impl Light {
    pub closed spec fn base_view(&self) -> BaseView {
        self.base@
    }

    pub fn new(base: Base) -> (l: Light)
        ensures
            l.base_view() == base@,
    {
        Light { base }
    }

    pub fn base(&self) -> (b: &Base)
        ensures
            b@ == self.base_view(),
    {
        &self.base
    }

    pub fn base_mut(&mut self) -> (b: &mut Base)
        ensures
            b@ == old(self).base_view(),
            final(self).base_view() == final(b)@,
    {
        &mut self.base
    }
}

/// Adds `dt` to `t`, stopping at the ends of the range of `i64`.
pub open spec fn advance(t: i64, dt: i64) -> i64 {
    if t + dt > i64::MAX {
        i64::MAX
    } else if t + dt < i64::MIN {
        i64::MIN
    } else {
        (t + dt) as i64
    }
}

/// Takes `dt` from `t`, stopping at the ends of the range of `i64`.
pub open spec fn elapse(t: i64, dt: i64) -> i64 {
    if t - dt > i64::MAX {
        i64::MAX
    } else if t - dt < i64::MIN {
        i64::MIN
    } else {
        (t - dt) as i64
    }
}

pub fn advance_time(t: i64, dt: i64) -> (r: i64)
    ensures
        r == advance(t, dt),
{
    if dt >= 0 {
        if t > i64::MAX - dt {
            i64::MAX
        } else {
            t + dt
        }
    } else {
        if t < i64::MIN - dt {
            i64::MIN
        } else {
            t + dt
        }
    }
}

pub fn elapse_time(t: i64, dt: i64) -> (r: i64)
    ensures
        r == elapse(t, dt),
{
    if dt >= 0 {
        if t < i64::MIN + dt {
            i64::MIN
        } else {
            t - dt
        }
    } else {
        if t > i64::MAX + dt {
            i64::MAX
        } else {
            t - dt
        }
    }
}

/// An emitter of particles. It keeps the time that it has run.
pub struct ParticleSystem {
    base: Base,
    elapsed: i64,
}

impl ParticleSystem {
    pub closed spec fn base_view(&self) -> BaseView {
        self.base@
    }

    pub closed spec fn spec_elapsed(&self) -> i64 {
        self.elapsed
    }

    pub fn new(base: Base) -> (p: ParticleSystem)
        ensures
            p.base_view() == base@,
            p.elapsed() == 0,
    {
        ParticleSystem { base, elapsed: 0 }
    }

    pub fn base(&self) -> (b: &Base)
        ensures
            b@ == self.base_view(),
    {
        &self.base
    }

    pub fn base_mut(&mut self) -> (b: &mut Base)
        ensures
            b@ == old(self).base_view(),
            final(self).base_view() == final(b)@,
            final(self).elapsed() == old(self).elapsed(),
    {
        &mut self.base
    }

    #[verifier::when_used_as_spec(spec_elapsed)]
    pub fn elapsed(&self) -> (t: i64)
        ensures
            t == self.elapsed(),
    {
        self.elapsed
    }

    /// Lets the emitter run for `dt` more.
    pub fn update(&mut self, dt: i64)
        ensures
            final(self).base_view() == old(self).base_view(),
            final(self).elapsed() == advance(old(self).elapsed(), dt),
    {
        self.elapsed = advance_time(self.elapsed, dt);
    }
}

/// A flat image that faces the viewer.
pub struct Sprite {
    base: Base,
}

impl Sprite {
    pub closed spec fn base_view(&self) -> BaseView {
        self.base@
    }

    pub fn new(base: Base) -> (s: Sprite)
        ensures
            s.base_view() == base@,
    {
        Sprite { base }
    }

    pub fn base(&self) -> (b: &Base)
        ensures
            b@ == self.base_view(),
    {
        &self.base
    }

    pub fn base_mut(&mut self) -> (b: &mut Base)
        ensures
            b@ == old(self).base_view(),
            final(self).base_view() == final(b)@,
    {
        &mut self.base
    }
}

/// What a node has beside the shared record, as contracts see it.
pub ghost enum Kind {
    Base,
    Mesh { surfaces: Seq<SurfaceView> },
    Camera { frame_size: Vec2 },
    Light,
    ParticleSystem { elapsed: i64 },
    Sprite,
}

/// A node as contracts see it.
pub ghost struct NodeView {
    pub base: BaseView,
    pub kind: Kind,
}

/// The node after time `dt` has passed and the frame has the size
/// `frame_size`: its remaining lifetime, if it has one, is shorter by `dt`;
/// a camera is fitted to the frame; a particle system has run for `dt` more.
pub open spec fn ticked(node: NodeView, frame_size: Vec2, dt: i64) -> NodeView {
    NodeView {
        base: BaseView {
            lifetime: match node.base.lifetime {
                Some(left) => Some(elapse(left, dt)),
                None => None,
            },
            ..node.base
        },
        kind: match node.kind {
            Kind::Camera { frame_size: _ } => Kind::Camera { frame_size },
            Kind::ParticleSystem { elapsed } => Kind::ParticleSystem {
                elapsed: advance(elapsed, dt),
            },
            other => other,
        },
    }
}

/// A node of the scene.
pub enum Node {
    Base(Base),
    Mesh(Mesh),
    Camera(Camera),
    Light(Light),
    ParticleSystem(ParticleSystem),
    Sprite(Sprite),
}

impl View for Node {
    type V = NodeView;

    open spec fn view(&self) -> NodeView {
        match self {
            Node::Base(b) => NodeView { base: b@, kind: Kind::Base },
            Node::Mesh(m) => NodeView {
                base: m.base_view(),
                kind: Kind::Mesh { surfaces: m.surfaces_view() },
            },
            Node::Camera(c) => NodeView {
                base: c.base_view(),
                kind: Kind::Camera { frame_size: c.frame_size() },
            },
            Node::Light(l) => NodeView { base: l.base_view(), kind: Kind::Light },
            Node::ParticleSystem(p) => NodeView {
                base: p.base_view(),
                kind: Kind::ParticleSystem { elapsed: p.elapsed() },
            },
            Node::Sprite(s) => NodeView { base: s.base_view(), kind: Kind::Sprite },
        }
    }
}

impl Clone for Mesh {
    fn clone(&self) -> (m: Mesh)
        ensures
            m.base_view() == self.base_view(),
            m.surfaces_view() == self.surfaces_view(),
    {
        Mesh { base: self.base.clone(), surfaces: clone_surfaces(&self.surfaces) }
    }
}

impl Clone for Camera {
    fn clone(&self) -> (c: Camera)
        ensures
            c.base_view() == self.base_view(),
            c.frame_size() == self.frame_size(),
    {
        Camera { base: self.base.clone(), frame_size: self.frame_size }
    }
}

impl Clone for Light {
    fn clone(&self) -> (l: Light)
        ensures
            l.base_view() == self.base_view(),
    {
        Light { base: self.base.clone() }
    }
}

impl Clone for ParticleSystem {
    fn clone(&self) -> (p: ParticleSystem)
        ensures
            p.base_view() == self.base_view(),
            p.elapsed() == self.elapsed(),
    {
        ParticleSystem { base: self.base.clone(), elapsed: self.elapsed }
    }
}

impl Clone for Sprite {
    fn clone(&self) -> (s: Sprite)
        ensures
            s.base_view() == self.base_view(),
    {
        Sprite { base: self.base.clone() }
    }
}

impl Clone for Node {
    fn clone(&self) -> (n: Node)
        ensures
            n@ == self@,
    {
        match self {
            Node::Base(b) => Node::Base(b.clone()),
            Node::Mesh(m) => Node::Mesh(m.clone()),
            Node::Camera(c) => Node::Camera(c.clone()),
            Node::Light(l) => Node::Light(l.clone()),
            Node::ParticleSystem(p) => Node::ParticleSystem(p.clone()),
            Node::Sprite(s) => Node::Sprite(s.clone()),
        }
    }
}

impl Node {
    /// The shared record of the node.
    pub fn base(&self) -> (b: &Base)
        ensures
            b@ == self@.base,
    {
        match self {
            Node::Base(b) => b,
            Node::Mesh(m) => m.base(),
            Node::Camera(c) => c.base(),
            Node::Light(l) => l.base(),
            Node::ParticleSystem(p) => p.base(),
            Node::Sprite(s) => s.base(),
        }
    }

    /// The shared record of the node, for change. Nothing else of the node
    /// changes with it.
    pub fn base_mut(&mut self) -> (b: &mut Base)
        ensures
            b@ == old(self)@.base,
            final(self)@ == (NodeView { base: final(b)@, ..old(self)@ }),
    {
        match self {
            Node::Base(b) => b,
            Node::Mesh(m) => m.base_mut(),
            Node::Camera(c) => c.base_mut(),
            Node::Light(l) => l.base_mut(),
            Node::ParticleSystem(p) => p.base_mut(),
            Node::Sprite(s) => s.base_mut(),
        }
    }

    /// The surfaces of the node, if it is a mesh.
    pub fn surfaces(&self) -> (r: Option<&Vec<Surface>>)
        ensures
            r is Some <==> self@.kind is Mesh,
            r is Some ==> surface_views(r->0@) == self@.kind->surfaces,
    {
        match self {
            Node::Mesh(m) => Some(m.surfaces()),
            _ => None,
        }
    }

    /// Replaces the surfaces of the node, if it is a mesh, and does nothing
    /// if it is not.
    pub fn set_surfaces(&mut self, surfaces: Vec<Surface>)
        ensures
            final(self)@ == (if old(self)@.kind is Mesh {
                NodeView { kind: Kind::Mesh { surfaces: surface_views(surfaces@) }, ..old(self)@ }
            } else {
                old(self)@
            }),
    {
        match self {
            Node::Mesh(m) => {
                m.set_surfaces(surfaces);
            },
            _ => {},
        }
    }

    /// Lets time `dt` pass for the node, in a frame of the size `frame_size`.
    pub fn tick(&mut self, frame_size: Vec2, dt: i64)
        ensures
            final(self)@ == ticked(old(self)@, frame_size, dt),
    {
        match self.base().lifetime() {
            Some(left) => {
                self.base_mut().set_lifetime(elapse_time(left, dt));
            },
            None => {},
        }
        match self {
            Node::Camera(camera) => {
                camera.calculate_matrices(frame_size);
            },
            Node::ParticleSystem(particles) => {
                particles.update(dt);
            },
            _ => {},
        }
    }

    /// Whether the lifetime of the node has run out.
    pub fn is_expired(&self) -> (b: bool)
        ensures
            b == (self@.base.lifetime matches Some(left) && left <= 0),
    {
        match self.base().lifetime() {
            Some(left) => left <= 0,
            None => false,
        }
    }
}

} // verus!
