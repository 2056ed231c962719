//! What every node of a scene shares.

use vstd::prelude::*;
use std::sync::Arc;
use crate::graph::Graph;
use crate::math::Mat4;
use crate::pool::Handle;
use crate::transform::Transform;

verus! {

/// The common record of a node, as contracts see it.
pub ghost struct BaseView {
    pub name: Seq<char>,
    pub local_transform: Transform,
    pub visibility: bool,
    pub global_visibility: bool,
    pub parent: Handle,
    pub children: Seq<Handle>,
    pub global_transform: Mat4,
    pub inv_bind_pose_transform: Mat4,
    pub resource: Option<Graph>,
    pub original: Handle,
    pub is_resource_instance: bool,
    pub lifetime: Option<i64>,
}

impl BaseView {
    /// The record of a node that was just made: no name, in place, visible,
    /// linked to nothing, from no model, and to live on.
    pub open spec fn fresh() -> BaseView {
        BaseView {
            name: Seq::empty(),
            local_transform: Transform::identity(),
            visibility: true,
            global_visibility: true,
            parent: Handle::none(),
            children: Seq::empty(),
            global_transform: Mat4::identity(),
            inv_bind_pose_transform: Mat4::identity(),
            resource: None,
            original: Handle::none(),
            is_resource_instance: false,
            lifetime: None,
        }
    }

    /// The same record with other links into the hierarchy.
    pub open spec fn with_links(self, parent: Handle, children: Seq<Handle>) -> BaseView {
        BaseView { parent, children, ..self }
    }
}

/// The common record of a node: its place in the hierarchy, its transform
/// and visibility, how long it has to live, and the model it came from.
///
/// The links into the hierarchy and the values that the graph derives can be
/// read here; only the graph writes them.
pub struct Base {
    name: String,
    local_transform: Transform,
    visibility: bool,
    global_visibility: bool,
    parent: Handle,
    children: Vec<Handle>,
    global_transform: Mat4,
    inv_bind_pose_transform: Mat4,
    resource: Option<Arc<Graph>>,
    original: Handle,
    is_resource_instance: bool,
    lifetime: Option<i64>,
}

/// `Arc::clone`: the pointer that it returns points to the value that the
/// given pointer points to.
#[verifier::external_body]
fn share(model: &Arc<Graph>) -> (r: Arc<Graph>)
    ensures
        *r == **model,
{
    Arc::clone(model)
}

/// A copy of a list of handles.
pub(crate) fn clone_handles(handles: &Vec<Handle>) -> (r: Vec<Handle>)
    ensures
        r@ == handles@,
{
    let mut r: Vec<Handle> = Vec::new();
    let mut i: usize = 0;
    while i < handles.len()
        invariant
            i <= handles.len(),
            r@ == handles@.subrange(0, i as int),
        decreases handles.len() - i,
    {
        r.push(handles[i]);
        i += 1;
        assert(r@ =~= handles@.subrange(0, i as int));
    }
    assert(handles@.subrange(0, i as int) =~= handles@);
    r
}

impl View for Base {
    type V = BaseView;

    closed spec fn view(&self) -> BaseView {
        BaseView {
            name: self.name@,
            local_transform: self.local_transform,
            visibility: self.visibility,
            global_visibility: self.global_visibility,
            parent: self.parent,
            children: self.children@,
            global_transform: self.global_transform,
            inv_bind_pose_transform: self.inv_bind_pose_transform,
            resource: match self.resource {
                Some(model) => Some(*model),
                None => None,
            },
            original: self.original,
            is_resource_instance: self.is_resource_instance,
            lifetime: self.lifetime,
        }
    }
}

impl Default for Base {
    fn default() -> (b: Base)
        ensures
            b@ == BaseView::fresh(),
    {
        Base {
            name: String::new(),
            local_transform: Transform::identity(),
            visibility: true,
            global_visibility: true,
            parent: Handle::none(),
            children: Vec::new(),
            global_transform: Mat4::identity(),
            inv_bind_pose_transform: Mat4::identity(),
            resource: None,
            original: Handle::none(),
            is_resource_instance: false,
            lifetime: None,
        }
    }
}

impl Clone for Base {
    fn clone(&self) -> (b: Base)
        ensures
            b@ == self@,
    {
        Base {
            name: self.name.clone(),
            local_transform: self.local_transform,
            visibility: self.visibility,
            global_visibility: self.global_visibility,
            parent: self.parent,
            children: clone_handles(&self.children),
            global_transform: self.global_transform,
            inv_bind_pose_transform: self.inv_bind_pose_transform,
            resource: match &self.resource {
                Some(model) => Some(share(model)),
                None => None,
            },
            original: self.original,
            is_resource_instance: self.is_resource_instance,
            lifetime: self.lifetime,
        }
    }
}

impl Base {
    pub fn name(&self) -> (s: &str)
        ensures
            s@ == self@.name,
    {
        self.name.as_str()
    }

    pub fn set_name(&mut self, name: &str)
        ensures
            final(self)@ == (BaseView { name: name@, ..old(self)@ }),
    {
        self.name = name.to_owned();
    }

    /// Whether the two nodes have the same name.
    pub fn same_name(&self, other: &Base) -> (b: bool)
        ensures
            b == (self@.name == other@.name),
    {
        self.name == other.name
    }

    /// Whether the node has exactly this name.
    pub fn has_name(&self, name: &String) -> (b: bool)
        ensures
            b == (self@.name == name@),
    {
        self.name == *name
    }

    pub fn local_transform(&self) -> (t: Transform)
        ensures
            t == self@.local_transform,
    {
        self.local_transform
    }

    pub fn set_local_transform(&mut self, transform: Transform)
        ensures
            final(self)@ == (BaseView { local_transform: transform, ..old(self)@ }),
    {
        self.local_transform = transform;
    }

    /// Moves the node to `position` in the frame of its parent.
    pub fn set_position(&mut self, position: crate::math::Vec3)
        ensures
            final(self)@ == (BaseView {
                local_transform: old(self)@.local_transform.with_position(position),
                ..old(self)@
            }),
    {
        self.local_transform.set_position(position);
    }

    pub fn visibility(&self) -> (b: bool)
        ensures
            b == self@.visibility,
    {
        self.visibility
    }

    pub fn set_visibility(&mut self, visibility: bool)
        ensures
            final(self)@ == (BaseView { visibility, ..old(self)@ }),
    {
        self.visibility = visibility;
    }

    /// Whether the node and all its ancestors were visible when the graph
    /// last propagated transforms.
    pub fn global_visibility(&self) -> (b: bool)
        ensures
            b == self@.global_visibility,
    {
        self.global_visibility
    }

    /// The transform from the frame of the node to that of the scene, as the
    /// graph last computed it.
    pub fn global_transform(&self) -> (m: Mat4)
        ensures
            m == self@.global_transform,
    {
        self.global_transform
    }

    pub fn parent(&self) -> (h: Handle)
        ensures
            h == self@.parent,
    {
        self.parent
    }

    pub fn children(&self) -> (c: &Vec<Handle>)
        ensures
            c@ == self@.children,
    {
        &self.children
    }

    pub fn inv_bind_pose_transform(&self) -> (m: Mat4)
        ensures
            m == self@.inv_bind_pose_transform,
    {
        self.inv_bind_pose_transform
    }

    pub fn set_inv_bind_pose_transform(&mut self, transform: Mat4)
        ensures
            final(self)@ == (BaseView { inv_bind_pose_transform: transform, ..old(self)@ }),
    {
        self.inv_bind_pose_transform = transform;
    }

    /// The model that the node was made from, if any.
    pub fn resource(&self) -> (r: Option<&Arc<Graph>>)
        ensures
            r is Some <==> self@.resource is Some,
            r is Some ==> **r->0 == self@.resource->0,
    {
        self.resource.as_ref()
    }

    pub fn set_resource(&mut self, resource: Option<Arc<Graph>>)
        ensures
            final(self)@ == (BaseView {
                resource: match resource {
                    Some(model) => Some(*model),
                    None => None,
                },
                ..old(self)@
            }),
    {
        self.resource = resource;
    }

    /// The node of the model that this node stands for.
    pub fn original_handle(&self) -> (h: Handle)
        ensures
            h == self@.original,
    {
        self.original
    }

    /// Whether the node is the root of a hierarchy made from a model.
    pub fn is_resource_instance(&self) -> (b: bool)
        ensures
            b == self@.is_resource_instance,
    {
        self.is_resource_instance
    }

    pub fn set_is_resource_instance(&mut self, is_resource_instance: bool)
        ensures
            final(self)@ == (BaseView { is_resource_instance, ..old(self)@ }),
    {
        self.is_resource_instance = is_resource_instance;
    }

    /// The time that the node has left, or `None` if it is to stay.
    pub fn lifetime(&self) -> (l: Option<i64>)
        ensures
            l == self@.lifetime,
    {
        self.lifetime
    }

    pub fn set_lifetime(&mut self, lifetime: i64)
        ensures
            final(self)@ == (BaseView { lifetime: Some(lifetime), ..old(self)@ }),
    {
        self.lifetime = Some(lifetime);
    }

    pub(crate) fn set_parent(&mut self, parent: Handle)
        ensures
            final(self)@ == (BaseView { parent, ..old(self)@ }),
    {
        self.parent = parent;
    }

    pub(crate) fn set_children(&mut self, children: Vec<Handle>)
        ensures
            final(self)@ == (BaseView { children: children@, ..old(self)@ }),
    {
        self.children = children;
    }

    pub(crate) fn push_child(&mut self, child: Handle)
        ensures
            final(self)@ == (BaseView { children: old(self)@.children.push(child), ..old(self)@ }),
    {
        self.children.push(child);
    }

    /// Takes `child` out of the children, where it first stands.
    pub(crate) fn remove_child(&mut self, child: Handle)
        ensures
            final(self)@ == (BaseView {
                children: old(self)@.children.remove_value(child),
                ..old(self)@
            }),
    {
        let mut i: usize = 0;
        while i < self.children.len()
            invariant
                i <= self.children.len(),
                *self == *old(self),
                forall|j: int| 0 <= j < i ==> self.children@[j] != child,
            decreases self.children.len() - i,
        {
            if self.children[i] == child {
                proof {
                    self.children@.index_of_first_ensures(child);
                }
                self.children.remove(i);
                return ;
            }
            i += 1;
        }
        proof {
            self.children@.index_of_first_ensures(child);
        }
    }

    /// Names the node of the model that this node stands for, and takes the
    /// binding transform of that node.
    pub(crate) fn set_origin(&mut self, original: Handle, inv_bind_pose_transform: Mat4)
        ensures
            final(self)@ == (BaseView { original, inv_bind_pose_transform, ..old(self)@ }),
    {
        self.original = original;
        self.inv_bind_pose_transform = inv_bind_pose_transform;
    }

    pub(crate) fn set_original(&mut self, original: Handle)
        ensures
            final(self)@ == (BaseView { original, ..old(self)@ }),
    {
        self.original = original;
    }

    pub(crate) fn set_global(&mut self, transform: Mat4, visibility: bool)
        ensures
            final(self)@ == (BaseView {
                global_transform: transform,
                global_visibility: visibility,
                ..old(self)@
            }),
    {
        self.global_transform = transform;
        self.global_visibility = visibility;
    }
}

} // verus!
