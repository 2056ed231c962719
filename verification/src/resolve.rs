//! Bringing the nodes of a graph back in line with the models they were made
//! from.
//!
//! A stored graph keeps its shape and the names of its nodes, not what the
//! nodes took from their models. Resolving finds, for each node that names a
//! model, the node of the model with the same name, and takes from it the
//! binding transform and, for a mesh, the surfaces, whose bones it maps
//! to the nodes of this graph that stand for them.

use vstd::prelude::*;
use crate::base::BaseView;
use crate::copy::remap_surfaces;
use crate::graph::{Graph, GraphView, Query};
use crate::node::{surface_views, Kind, NodeView, Surface};
use crate::pool::Handle;

verus! {

impl GraphView {
    /// The graph with the global transform and visibility of every node
    /// brought up to date.
    pub open spec fn propagated(self) -> GraphView {
        GraphView {
            tree: self.tree,
            payloads: Map::new(
                |h: Handle| self.payloads.contains_key(h),
                |h: Handle|
                    NodeView {
                        base: BaseView {
                            global_transform: self.global_transform(h),
                            global_visibility: self.global_visibility(h),
                            ..self.payloads[h].base
                        },
                        ..self.payloads[h]
                    },
            ),
        }
    }

    /// The node linked to its model: if the node names a model and the model
    /// has a node of the same name, the first such node in the order of the
    /// slots of the model is its original, and it has the binding transform
    /// of that node. Otherwise the node is as it was.
    pub open spec fn linked_node(node: NodeView) -> NodeView {
        match node.base.resource {
            Some(model) => {
                let original = model.spec_first_named(node.base.name);
                if original != Handle::none() {
                    NodeView {
                        base: BaseView {
                            original,
                            inv_bind_pose_transform: model.node(
                                original,
                            ).base.inv_bind_pose_transform,
                            ..node.base
                        },
                        ..node
                    }
                } else {
                    node
                }
            },
            None => node,
        }
    }

    /// The graph with every node linked to its model.
    pub open spec fn linked(self) -> GraphView {
        GraphView {
            tree: self.tree,
            payloads: Map::new(
                |h: Handle| self.payloads.contains_key(h),
                |h: Handle| Self::linked_node(self.payloads[h]),
            ),
        }
    }

    /// The mapping of bones for the model instance under `root`: a node
    /// of the model goes to the node under `root` that stands for it, or to
    /// `Handle::none()` if none does.
    pub open spec fn copies_under(self, root: Handle) -> Map<Handle, Handle> {
        Map::total(|bone: Handle| self.find(root, Query::CopyOf(bone)))
    }

    /// The node `h` with its surfaces taken from its model: if the node is a
    /// mesh that names a model, and a search of the model from its root for
    /// the name of the node finds a mesh, the node has the surfaces of that
    /// mesh, with the bones mapped for the model instance that `h`
    /// belongs to. Otherwise the node is as it was.
    pub open spec fn resynced_node(self, h: Handle, node: NodeView) -> NodeView {
        match (node.kind, node.base.resource) {
            (Kind::Mesh { surfaces }, Some(model)) => {
                let source = model@.find(model.get_root(), Query::Named(node.base.name));
                if source != Handle::none() && model.node(source).kind is Mesh {
                    NodeView {
                        kind: Kind::Mesh {
                            surfaces: remap_surfaces(
                                model.node(source).kind->surfaces,
                                self.copies_under(self.model_root(h)),
                            ),
                        },
                        ..node
                    }
                } else {
                    node
                }
            },
            _ => node,
        }
    }

    /// The graph with the surfaces of every mesh taken from its model.
    pub open spec fn resynced(self) -> GraphView {
        GraphView {
            tree: self.tree,
            payloads: Map::new(
                |h: Handle| self.payloads.contains_key(h),
                |h: Handle| self.resynced_node(h, self.payloads[h]),
            ),
        }
    }

    /// The graph resolved: transforms brought up to date, then every node
    /// linked to its model, then the surfaces of every mesh taken from its
    /// model.
    pub open spec fn resolved(self) -> GraphView {
        self.propagated().linked().resynced()
    }

    /// Two graphs whose nodes answer a query alike give the same first match.
    pub proof fn lemma_first_match_same(self, other: GraphView, order: Seq<Handle>, query: Query)
        requires
            forall|i: int|
                0 <= i < order.len() ==> self.answers(#[trigger] order[i], query) == other.answers(
                    order[i],
                    query,
                ),
        ensures
            self.first_match(order, query) == other.first_match(order, query),
        decreases order.len(),
    {
        if order.len() > 0 {
            let rest = order.drop_first();
            assert forall|i: int| 0 <= i < rest.len() implies self.answers(
                #[trigger] rest[i],
                query,
            ) == other.answers(rest[i], query) by {
                assert(rest[i] == order[i + 1]);
            }
            self.lemma_first_match_same(other, rest, query);
            assert(self.answers(order[0], query) == other.answers(order[0], query));
        }
    }

    /// The two graphs have the same shape, and their nodes the same names,
    /// originals and marks.
    pub open spec fn same_skeleton(self, other: GraphView) -> bool {
        &&& self.tree == other.tree
        &&& forall|x: Handle| #[trigger]
            self.tree.contains(x) ==> self.payloads[x].base.name == other.payloads[x].base.name
                && self.payloads[x].base.original == other.payloads[x].base.original
                && self.payloads[x].base.is_resource_instance
                == other.payloads[x].base.is_resource_instance
    }

    /// A search depends on the shape of the graph and on the names and
    /// originals of its nodes alone.
    pub proof fn lemma_find_same(self, other: GraphView, from: Handle, query: Query)
        requires
            self.tree.wf(),
            self.tree.contains(from),
            self.same_skeleton(other),
        ensures
            self.find(from, query) == other.find(from, query),
    {
        let order = self.tree.dfs_order(from, true);
        self.tree.lemma_dfs_order(from, true);
        assert forall|i: int| 0 <= i < order.len() implies self.answers(
            #[trigger] order[i],
            query,
        ) == other.answers(order[i], query) by {
            let x = order[i];
            assert(order.contains(x));
            assert(self.tree.in_subtree(x, from));
        }
        self.lemma_first_match_same(other, order, query);
    }

    /// The root of a model instance is a node, and it depends on the shape of
    /// the graph and on the marks of its nodes alone.
    pub proof fn lemma_model_root_same(self, other: GraphView, h: Handle, k: nat)
        requires
            self.tree.wf(),
            self.tree.contains(h),
            self.same_skeleton(other),
        ensures
            self.model_root_within(h, k) == other.model_root_within(h, k),
            self.tree.contains(self.model_root_within(h, k)),
        decreases k,
    {
        if k > 0 {
            self.tree.lemma_parent(h);
            self.tree.lemma_root();
            if self.tree.parent(h) != Handle::none() {
                self.lemma_model_root_same(other, self.tree.parent(h), (k - 1) as nat);
            }
        }
    }

    /// Two graphs of the same shape whose nodes have the same names,
    /// originals and marks translate bones alike.
    pub proof fn lemma_copies_same(self, other: GraphView, h: Handle)
        requires
            self.tree.wf(),
            self.tree.contains(h),
            self.same_skeleton(other),
        ensures
            self.model_root(h) == other.model_root(h),
            self.tree.contains(self.model_root(h)),
            self.copies_under(self.model_root(h)) == other.copies_under(other.model_root(h)),
    {
        self.lemma_model_root_same(other, h, self.tree.depth(h));
        let root = self.model_root(h);
        assert forall|bone: Handle|
            self.find(root, Query::CopyOf(bone)) == other.find(root, Query::CopyOf(bone)) by {
            self.lemma_find_same(other, root, Query::CopyOf(bone));
        }
        assert(self.copies_under(root) =~= other.copies_under(root));
    }

    /// Resolving a graph that was just resolved changes nothing.
    pub proof fn lemma_resolved_twice(self)
        requires
            self.tree.wf(),
            self.payloads.dom() == self.tree.links.dom(),
        ensures
            self.resolved().resolved() == self.resolved(),
    {
        let a = self.propagated();
        let b = a.linked();
        let c = b.resynced();
        let a2 = c.propagated();
        let b2 = a2.linked();
        let c2 = b2.resynced();
        assert forall|x: Handle| #[trigger]
            self.tree.contains(x) implies c.payloads[x].base.local_transform
            == self.payloads[x].base.local_transform && c.payloads[x].base.visibility
            == self.payloads[x].base.visibility by {
            assert(self.payloads.contains_key(x));
        }
        assert forall|h: Handle| c.payloads.contains_key(h) implies a2.payloads[h]
            == c.payloads[h] by {
            assert(self.tree.contains(h));
            self.lemma_chain_depends(c, h, self.tree.depth(h));
        }
        assert(a2.payloads =~= c.payloads);
        assert(a2 == c);
        assert(b2.payloads =~= c.payloads);
        assert(b2 == c);
        assert(b.same_skeleton(c)) by {
            assert forall|x: Handle| #[trigger] b.tree.contains(x) implies b.payloads[x].base.name
                == c.payloads[x].base.name && b.payloads[x].base.original
                == c.payloads[x].base.original && b.payloads[x].base.is_resource_instance
                == c.payloads[x].base.is_resource_instance by {
                assert(self.payloads.contains_key(x));
            }
        }
        assert forall|h: Handle| c.payloads.contains_key(h) implies c2.payloads[h]
            == c.payloads[h] by {
            assert(b.tree.contains(h));
            b.lemma_copies_same(c, h);
        }
        assert(c2.payloads =~= c.payloads);
    }
}

impl Graph {
    /// Every model that a node of the graph names is a graph in order.
    pub open spec fn models_wf(&self) -> bool {
        forall|h: Handle|
            self.contains(h) ==> match (#[trigger] self.nodes()[h])@.base.resource {
                Some(model) => model.wf(),
                None => true,
            }
    }

    /// The surfaces with each bone replaced by the node under `root` that
    /// stands for it.
    fn remap_by_search(&self, root: Handle, surfaces: &Vec<Surface>) -> (r: Vec<Surface>)
        requires
            self.wf(),
            self.contains(root),
        ensures
            surface_views(r@) == remap_surfaces(surface_views(surfaces@), self@.copies_under(root)),
    {
        let ghost map = self@.copies_under(root);
        let mut r: Vec<Surface> = Vec::new();
        let mut i: usize = 0;
        while i < surfaces.len()
            invariant
                self.wf(),
                self.contains(root),
                i <= surfaces.len(),
                r.len() == i,
                map == self@.copies_under(root),
                forall|k: int|
                    0 <= k < i ==> r@[k]@ == crate::copy::remap_surface(surfaces@[k]@, map),
            decreases surfaces.len() - i,
        {
            let surface = &surfaces[i];
            let bones = surface.bones();
            let mut new_bones: Vec<Handle> = Vec::new();
            let mut k: usize = 0;
            while k < bones.len()
                invariant
                    self.wf(),
                    self.contains(root),
                    k <= bones.len(),
                    new_bones.len() == k,
                    map == self@.copies_under(root),
                    forall|q: int|
                        0 <= q < k ==> new_bones@[q] == crate::copy::remap_bone(map, bones@[q]),
                decreases bones.len() - k,
            {
                new_bones.push(self.find_copy_of(root, bones[k]));
                k += 1;
            }
            let mut copy = Surface::new(surface.data());
            copy.set_bones(new_bones);
            assert(copy@.bones =~= crate::copy::remap_surface(surface@, map).bones);
            r.push(copy);
            i += 1;
        }
        assert(surface_views(r@) =~= remap_surfaces(surface_views(surfaces@), map));
        r
    }

    /// Links the node under `h` to its model.
    fn link_node(&mut self, h: Handle)
        requires
            old(self).wf(),
            old(self).models_wf(),
            old(self).contains(h),
        ensures
            final(self).wf(),
            final(self).models_wf(),
            final(self)@.tree == old(self)@.tree,
            final(self)@.payloads == old(self)@.payloads.insert(
                h,
                GraphView::linked_node(old(self)@.payloads[h]),
            ),
            final(self).get_root() == old(self).get_root(),
            final(self).capacity() == old(self).capacity(),
            forall|x: Handle| final(self).contains(x) == old(self).contains(x),
            forall|i: int|
                0 <= i < old(self).capacity() ==> final(self).handle_at(i) == old(self).handle_at(
                    i,
                ),
            forall|k: nat| final(self).upcoming(k) == old(self).upcoming(k),
    {
        let base = self.get(h).base();
        let found = match base.resource() {
            Some(model) => {
                let original = model.first_named(base);
                if original.is_some() {
                    Some((original, model.get(original).base().inv_bind_pose_transform()))
                } else {
                    None
                }
            },
            None => None,
        };
        match found {
            Some((original, transform)) => {
                self.get_mut(h).base_mut().set_origin(original, transform);
                proof {
                    old(self).lemma_changed_node(&*self, h);
                }
            },
            None => {
                assert(self@.payloads =~= old(self)@.payloads.insert(h, old(self)@.payloads[h]));
            },
        }
    }

    /// Takes the surfaces of the node under `h` from its model.
    fn resync_node(&mut self, h: Handle)
        requires
            old(self).wf(),
            old(self).models_wf(),
            old(self).contains(h),
        ensures
            final(self).wf(),
            final(self).models_wf(),
            final(self)@.tree == old(self)@.tree,
            final(self)@.payloads == old(self)@.payloads.insert(
                h,
                old(self)@.resynced_node(h, old(self)@.payloads[h]),
            ),
            final(self).get_root() == old(self).get_root(),
            final(self).capacity() == old(self).capacity(),
            forall|x: Handle| final(self).contains(x) == old(self).contains(x),
            forall|i: int|
                0 <= i < old(self).capacity() ==> final(self).handle_at(i) == old(self).handle_at(
                    i,
                ),
            forall|k: nat| final(self).upcoming(k) == old(self).upcoming(k),
    {
        let node = self.get(h);
        let found = match (node.surfaces(), node.base().resource()) {
            (Some(_), Some(model)) => {
                let root = self.find_model_root(h);
                let source = model.find_by_name_from_root(node.base().name());
                proof {
                    model@.tree.lemma_root();
                    model@.lemma_find(model.get_root(), Query::Named(node@.base.name));
                }
                if source.is_some() {
                    match model.get(source).surfaces() {
                        Some(surfaces) => Some(self.remap_by_search(root, surfaces)),
                        None => None,
                    }
                } else {
                    None
                }
            },
            _ => None,
        };
        match found {
            Some(surfaces) => {
                self.get_mut(h).set_surfaces(surfaces);
                proof {
                    old(self).lemma_changed_node(&*self, h);
                }
            },
            None => {
                assert(self@.payloads =~= old(self)@.payloads.insert(h, old(self)@.payloads[h]));
            },
        }
    }

    /// Links every node to its model.
    fn link_models(&mut self)
        requires
            old(self).wf(),
            old(self).models_wf(),
        ensures
            final(self).wf(),
            final(self).models_wf(),
            final(self)@ == old(self)@.linked(),
            final(self).get_root() == old(self).get_root(),
            final(self).capacity() == old(self).capacity(),
            forall|x: Handle| final(self).contains(x) == old(self).contains(x),
            forall|i: int|
                0 <= i < old(self).capacity() ==> final(self).handle_at(i) == old(self).handle_at(i),
            forall|k: nat| final(self).upcoming(k) == old(self).upcoming(k),
    {
        let ghost a = self@;
        let capacity = self.get_capacity();
        let mut i: usize = 0;
        while i < capacity
            invariant
                self.wf(),
                self.models_wf(),
                i <= capacity,
                capacity == self.capacity(),
                capacity == old(self).capacity(),
                a == old(self)@,
                self.get_root() == old(self).get_root(),
                self@.tree == a.tree,
                forall|x: Handle| self.contains(x) == old(self).contains(x),
                forall|k: int|
                    0 <= k < capacity ==> self.handle_at(k) == old(self).handle_at(k),
                forall|k: nat| self.upcoming(k) == old(self).upcoming(k),
                forall|x: Handle|
                    self.contains(x) ==> #[trigger] self@.payloads[x] == (if x.slot() < i {
                        GraphView::linked_node(a.payloads[x])
                    } else {
                        a.payloads[x]
                    }),
            decreases capacity - i,
        {
            let ghost prev = *self;
            let h = self.handle_from_index(i);
            proof {
                self.lemma_slot(i as int);
                self.lemma_none();
            }
            if h.is_some() {
                self.link_node(h);
            }
            proof {
                assert forall|x: Handle| self.contains(x) implies #[trigger] self@.payloads[x]
                    == (if x.slot()
                    < i + 1 {
                    GraphView::linked_node(a.payloads[x])
                } else {
                    a.payloads[x]
                }) by {
                    prev.lemma_alive(x);
                    assert(prev@.payloads[x] == (if x.slot() < i {
                        GraphView::linked_node(a.payloads[x])
                    } else {
                        a.payloads[x]
                    }));
                }
            }
            i += 1;
        }
        proof {
            assert forall|x: Handle| self.contains(x) implies self@.payloads[x]
                == GraphView::linked_node(a.payloads[x]) by {
                self.lemma_alive(x);
            }
            assert(self@.payloads =~= a.linked().payloads);
        }
    }

    /// Takes the surfaces of every mesh from its model.
    fn resync_surfaces(&mut self)
        requires
            old(self).wf(),
            old(self).models_wf(),
        ensures
            final(self).wf(),
            final(self).models_wf(),
            final(self)@ == old(self)@.resynced(),
            final(self).get_root() == old(self).get_root(),
            final(self).capacity() == old(self).capacity(),
            forall|x: Handle| final(self).contains(x) == old(self).contains(x),
            forall|i: int|
                0 <= i < old(self).capacity() ==> final(self).handle_at(i) == old(self).handle_at(i),
            forall|k: nat| final(self).upcoming(k) == old(self).upcoming(k),
    {
        let ghost b = self@;
        let capacity = self.get_capacity();
        let mut i: usize = 0;
        while i < capacity
            invariant
                self.wf(),
                self.models_wf(),
                i <= capacity,
                capacity == self.capacity(),
                capacity == old(self).capacity(),
                b == old(self)@,
                b.tree.wf(),
                self.get_root() == old(self).get_root(),
                self@.tree == b.tree,
                forall|x: Handle| self.contains(x) == old(self).contains(x),
                forall|k: int|
                    0 <= k < capacity ==> self.handle_at(k) == old(self).handle_at(k),
                forall|k: nat| self.upcoming(k) == old(self).upcoming(k),
                forall|x: Handle|
                    self.contains(x) ==> #[trigger] self@.payloads[x] == (if x.slot() < i {
                        b.resynced_node(x, b.payloads[x])
                    } else {
                        b.payloads[x]
                    }),
            decreases capacity - i,
        {
            let ghost prev = *self;
            let h = self.handle_from_index(i);
            proof {
                self.lemma_slot(i as int);
                self.lemma_none();
            }
            if h.is_some() {
                proof {
                    assert(prev@.same_skeleton(b)) by {
                        assert forall|x: Handle| #[trigger] prev@.tree.contains(x)
                            implies prev@.payloads[x].base.name
                            == b.payloads[x].base.name && prev@.payloads[x].base.original
                            == b.payloads[x].base.original
                            && prev@.payloads[x].base.is_resource_instance
                            == b.payloads[x].base.is_resource_instance by {
                            assert(prev.contains(x));
                            assert(prev@.payloads[x] == (if x.slot() < i {
                                b.resynced_node(x, b.payloads[x])
                            } else {
                                b.payloads[x]
                            }));
                        }
                    }
                    prev@.lemma_copies_same(b, h);
                    prev.lemma_alive(h);
                    assert(prev@.payloads[h] == b.payloads[h]);
                }
                self.resync_node(h);
            }
            proof {
                assert forall|x: Handle| self.contains(x) implies #[trigger] self@.payloads[x]
                    == (if x.slot()
                    < i + 1 {
                    b.resynced_node(x, b.payloads[x])
                } else {
                    b.payloads[x]
                }) by {
                    prev.lemma_alive(x);
                    assert(prev@.payloads[x] == (if x.slot() < i {
                        b.resynced_node(x, b.payloads[x])
                    } else {
                        b.payloads[x]
                    }));
                }
            }
            i += 1;
        }
        proof {
            assert forall|x: Handle| self.contains(x) implies self@.payloads[x] == b.resynced_node(
                x,
                b.payloads[x],
            ) by {
                self.lemma_alive(x);
            }
            assert(self@.payloads =~= b.resynced().payloads);
        }
    }

    /// Brings the graph back in line with the models that its nodes name:
    /// first the transforms are brought up to date, then every node is linked
    /// to its model, then the surfaces of every mesh are taken from its
    /// model. A node for which the model has no counterpart stays as it is.
    pub fn resolve(&mut self)
        requires
            old(self).wf(),
            old(self).models_wf(),
        ensures
            final(self).wf(),
            final(self).models_wf(),
            final(self)@ == old(self)@.resolved(),
            final(self).get_root() == old(self).get_root(),
            final(self).capacity() == old(self).capacity(),
            forall|x: Handle| final(self).contains(x) == old(self).contains(x),
            forall|i: int|
                0 <= i < old(self).capacity() ==> final(self).handle_at(i) == old(self).handle_at(i),
            forall|k: nat| final(self).upcoming(k) == old(self).upcoming(k),
    {
        self.update_transforms();
        proof {
            assert(self@.payloads =~= old(self)@.propagated().payloads);
            assert(self.models_wf());
        }
        self.link_models();
        self.resync_surfaces();
    }
}

} // verus!
