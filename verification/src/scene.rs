//! A scene: a graph, the animations and the physics world that move its
//! nodes, and the binding of nodes to bodies.

use vstd::prelude::*;
use crate::animation::{AnimationContainer, AnimationView};
use crate::base::BaseView;
use crate::graph::{Graph, GraphView};
use crate::math::{Vec2, Vec3};
use crate::node::NodeView;
use crate::physics::{Physics, RigidBody};
use crate::pool::{
    lemma_upcoming_after, lemma_upcoming_after_same, upcoming_after, Handle, Pool,
};

verus! {

/// One binding: a node of the graph and the body that moves it.
#[derive(Clone, Copy, PartialEq, Eq, Structural, Hash, Debug)]
pub struct Binding {
    pub node: Handle,
    pub body: Handle,
}

/// The binding of nodes to rigid bodies: each node has at most one body.
/// Its view is the map from the bound nodes to their bodies.
pub struct PhysicsBinder {
    bindings: Vec<Binding>,
}

impl View for PhysicsBinder {
    type V = Map<Handle, Handle>;

    closed spec fn view(&self) -> Map<Handle, Handle> {
        Map::new(
            |node: Handle| self.index_of(node) is Some,
            |node: Handle| self.bindings[self.index_of(node)->0].body,
        )
    }
}

impl Default for PhysicsBinder {
    fn default() -> (b: PhysicsBinder)
        ensures
            b.wf(),
            b@ == Map::<Handle, Handle>::empty(),
    {
        let b = PhysicsBinder { bindings: Vec::new() };
        assert(b@ =~= Map::<Handle, Handle>::empty());
        b
    }
}

impl PhysicsBinder {
    /// Where the binding of `node` stands, if it has one.
    spec fn index_of(&self, node: Handle) -> Option<int> {
        if exists|i: int| 0 <= i < self.bindings.len() && self.bindings[i].node == node {
            Some(choose|i: int| 0 <= i < self.bindings.len() && self.bindings[i].node == node)
        } else {
            None
        }
    }

    /// The invariant of the binder: no node is bound twice.
    pub closed spec fn wf(&self) -> bool {
        forall|i: int, j: int|
            0 <= i < j < self.bindings.len() ==> self.bindings[i].node != self.bindings[j].node
    }

    proof fn lemma_index(&self, i: int)
        requires
            self.wf(),
            0 <= i < self.bindings.len(),
        ensures
            self.index_of(self.bindings[i].node) == Some(i),
            self@.contains_key(self.bindings[i].node),
            self@[self.bindings[i].node] == self.bindings[i].body,
    {
        let node = self.bindings[i].node;
        let k = choose|k: int| 0 <= k < self.bindings.len() && self.bindings[k].node == node;
        assert(k == i);
    }

    proof fn lemma_bound(&self, node: Handle)
        requires
            self@.contains_key(node),
        ensures
            self.index_of(node) is Some,
            0 <= self.index_of(node)->0 < self.bindings.len(),
            self.bindings[self.index_of(node)->0].node == node,
            self@[node] == self.bindings[self.index_of(node)->0].body,
    {
    }

    fn position(&self, node: Handle) -> (r: Option<usize>)
        ensures
            (match r {
                Some(i) => i < self.bindings.len() && self.bindings[i as int].node == node,
                None => forall|k: int| 0 <= k < self.bindings.len()
                    ==> self.bindings[k].node != node,
            }),
    {
        let mut i: usize = 0;
        while i < self.bindings.len()
            invariant
                i <= self.bindings.len(),
                forall|k: int| 0 <= k < i ==> self.bindings[k].node != node,
            decreases self.bindings.len() - i,
        {
            if self.bindings[i].node == node {
                return Some(i);
            }
            i += 1;
        }
        None
    }

    /// The body that `node` is bound to, if it is bound.
    pub fn body_of(&self, node: Handle) -> (r: Option<Handle>)
        requires
            self.wf(),
        ensures
            r == if self@.contains_key(node) {
                Some(self@[node])
            } else {
                None::<Handle>
            },
    {
        match self.position(node) {
            Some(i) => {
                proof {
                    self.lemma_index(i as int);
                }
                Some(self.bindings[i].body)
            },
            None => None,
        }
    }

    /// The number of bindings.
    pub fn len(&self) -> (n: usize)
        requires
            self.wf(),
        ensures
            n == self@.dom().len(),
            self@.dom().finite(),
    {
        proof {
            self.lemma_len(self.bindings.len() as int);
            assert(self.nodes_below(self.bindings.len() as int) =~= self@.dom()) by {
                assert forall|n: Handle| self@.contains_key(n) implies self.nodes_below(
                    self.bindings.len() as int,
                ).contains(n) by {
                    self.lemma_bound(n);
                }
                assert forall|n: Handle|
                    self.nodes_below(self.bindings.len() as int).contains(
                        n,
                    ) implies self@.contains_key(n) by {
                    let i = choose|i: int| 0 <= i < self.bindings.len()
                        && self.bindings[i].node == n;
                    self.lemma_index(i);
                }
            }
        }
        self.bindings.len()
    }

    /// The nodes bound by the first `k` bindings.
    spec fn nodes_below(&self, k: int) -> Set<Handle> {
        Set::new(|n: Handle| exists|i: int| 0 <= i < k && self.bindings[i].node == n)
    }

    proof fn lemma_len(&self, k: int)
        requires
            self.wf(),
            0 <= k <= self.bindings.len(),
        ensures
            self.nodes_below(k).finite(),
            self.nodes_below(k).len() == k,
        decreases k,
    {
        if k == 0 {
            assert(self.nodes_below(0) =~= Set::<Handle>::empty());
        } else {
            self.lemma_len(k - 1);
            let n = self.bindings[k - 1].node;
            assert(self.nodes_below(k) =~= self.nodes_below(k - 1).insert(n));
            assert(!self.nodes_below(k - 1).contains(n));
        }
    }

    /// Binds `node` to `body` and returns the body that it was bound to
    /// before, if it was bound.
    pub fn bind(&mut self, node: Handle, body: Handle) -> (r: Option<Handle>)
        requires
            old(self).wf(),
        ensures
            final(self).wf(),
            final(self)@ == old(self)@.insert(node, body),
            r == if old(self)@.contains_key(node) {
                Some(old(self)@[node])
            } else {
                None::<Handle>
            },
    {
        match self.position(node) {
            Some(i) => {
                let before = self.bindings[i].body;
                proof {
                    self.lemma_index(i as int);
                }
                self.bindings[i] = Binding { node, body };
                proof {
                    assert forall|n: Handle| #[trigger]
                        self@.contains_key(n) <==> old(self)@.insert(node, body).contains_key(
                            n,
                        ) by {
                        if old(self)@.contains_key(n) {
                            old(self).lemma_bound(n);
                            let k = old(self).index_of(n)->0;
                            assert(self.bindings[k].node == n);
                        }
                        if self@.contains_key(n) {
                            self.lemma_bound(n);
                            let k = self.index_of(n)->0;
                            assert(old(self).bindings[k].node == n);
                        }
                    }
                    assert forall|n: Handle| self@.contains_key(n) implies self@[n]
                        == old(self)@.insert(node, body)[n] by {
                        self.lemma_bound(n);
                        let k = self.index_of(n)->0;
                        if k != i {
                            old(self).lemma_index(k);
                        }
                    }
                    assert(self@ =~= old(self)@.insert(node, body));
                }
                Some(before)
            },
            None => {
                self.bindings.push(Binding { node, body });
                proof {
                    let last = old(self).bindings.len() as int;
                    assert(self.bindings[last].node == node);
                    self.lemma_index(last);
                    assert forall|n: Handle| #[trigger]
                        self@.contains_key(n) <==> old(self)@.insert(node, body).contains_key(
                            n,
                        ) by {
                        if old(self)@.contains_key(n) {
                            old(self).lemma_bound(n);
                            let k = old(self).index_of(n)->0;
                            assert(self.bindings[k].node == n);
                        }
                        if self@.contains_key(n) && n != node {
                            self.lemma_bound(n);
                            let k = self.index_of(n)->0;
                            assert(old(self).bindings[k].node == n);
                        }
                    }
                    assert forall|n: Handle| self@.contains_key(n) implies self@[n]
                        == old(self)@.insert(node, body)[n] by {
                        self.lemma_bound(n);
                        let k = self.index_of(n)->0;
                        if k != last {
                            old(self).lemma_index(k);
                        }
                    }
                    assert(self@ =~= old(self)@.insert(node, body));
                }
                None
            },
        }
    }

    /// Takes the binding of `node` away and returns the body that it was
    /// bound to, if it was bound.
    pub fn unbind(&mut self, node: Handle) -> (r: Option<Handle>)
        requires
            old(self).wf(),
        ensures
            final(self).wf(),
            final(self)@ == old(self)@.remove(node),
            r == if old(self)@.contains_key(node) {
                Some(old(self)@[node])
            } else {
                None::<Handle>
            },
    {
        match self.position(node) {
            Some(i) => {
                proof {
                    self.lemma_index(i as int);
                }
                let binding = self.bindings.remove(i);
                proof {
                    old(self).lemma_removed(self, i as int);
                    assert(self@ =~= old(self)@.remove(node));
                }
                Some(binding.body)
            },
            None => {
                assert(self@ =~= old(self)@.remove(node));
                None
            },
        }
    }

    /// The binder `after` is `self` without the binding at `i`.
    proof fn lemma_removed(&self, after: &PhysicsBinder, i: int)
        requires
            self.wf(),
            0 <= i < self.bindings.len(),
            after.bindings@ == self.bindings@.remove(i),
        ensures
            after.wf(),
            forall|n: Handle|
                after@.contains_key(n) <==> self@.contains_key(n) && n != self.bindings[i].node,
            forall|n: Handle| after@.contains_key(n) ==> after@[n] == self@[n],
    {
        assert forall|a: int, b: int| 0 <= a < b < after.bindings.len()
            implies after.bindings[a].node
            != after.bindings[b].node by {
            let a0 = if a < i { a } else { a + 1 };
            let b0 = if b < i { b } else { b + 1 };
            assert(after.bindings[a] == self.bindings[a0]);
            assert(after.bindings[b] == self.bindings[b0]);
        }
        assert forall|n: Handle|
            after@.contains_key(n) <==> self@.contains_key(n) && n != self.bindings[i].node by {
            if after@.contains_key(n) {
                after.lemma_bound(n);
                let k = after.index_of(n)->0;
                let k0 = if k < i { k } else { k + 1 };
                assert(after.bindings[k] == self.bindings[k0]);
                self.lemma_index(k0);
            }
            if self@.contains_key(n) && n != self.bindings[i].node {
                self.lemma_bound(n);
                let k0 = self.index_of(n)->0;
                let k = if k0 < i { k0 } else { k0 - 1 };
                assert(after.bindings[k] == self.bindings[k0]);
                after.lemma_index(k);
            }
        }
        assert forall|n: Handle| after@.contains_key(n) implies after@[n] == self@[n] by {
            after.lemma_bound(n);
            let k = after.index_of(n)->0;
            let k0 = if k < i { k } else { k + 1 };
            assert(after.bindings[k] == self.bindings[k0]);
            self.lemma_index(k0);
        }
    }

    /// The bindings whose node is alive in the graph and whose body is alive
    /// in the physics world.
    pub open spec fn valid_in(
        bindings: Map<Handle, Handle>,
        graph: GraphView,
        bodies: Map<Handle, RigidBody>,
    ) -> Map<Handle, Handle> {
        Map::new(
            |n: Handle|
                bindings.contains_key(n) && graph.tree.contains(n) && bodies.contains_key(
                    bindings[n],
                ),
            |n: Handle| bindings[n],
        )
    }

    /// Drops every binding whose node or body is no longer alive.
    pub fn retain_valid(&mut self, graph: &Graph, physics: &Physics)
        requires
            old(self).wf(),
        ensures
            final(self).wf(),
            final(self)@ == Self::valid_in(old(self)@, graph@, physics@),
    {
        let ghost valid = Self::valid_in(self@, graph@, physics@);
        let mut i: usize = 0;
        while i < self.bindings.len()
            invariant
                self.wf(),
                i <= self.bindings.len(),
                valid == Self::valid_in(old(self)@, graph@, physics@),
                Self::valid_in(self@, graph@, physics@) == valid,
                forall|k: int|
                    0 <= k < i ==> graph.contains(#[trigger] self.bindings[k].node)
                        && physics@.contains_key(self.bindings[k].body),
            decreases self.bindings.len() - i,
        {
            let binding = self.bindings[i];
            if graph.is_valid_handle(binding.node) && physics.is_valid_body_handle(binding.body) {
                i += 1;
            } else {
                let ghost prev = *self;
                proof {
                    self.lemma_index(i as int);
                }
                self.bindings.remove(i);
                proof {
                    prev.lemma_removed(self, i as int);
                    assert(Self::valid_in(self@, graph@, physics@) =~= Self::valid_in(
                        prev@,
                        graph@,
                        physics@,
                    ));
                }
            }
        }
        proof {
            assert forall|n: Handle| self@.contains_key(n) implies graph.contains(n)
                && physics@.contains_key(self@[n]) by {
                self.lemma_bound(n);
            }
            assert(self@ =~= Self::valid_in(self@, graph@, physics@));
        }
    }

    /// The node with its local position at `position`.
    pub open spec fn placed(node: NodeView, position: Vec3) -> NodeView {
        NodeView {
            base: BaseView {
                local_transform: node.base.local_transform.with_position(position),
                ..node.base
            },
            ..node
        }
    }

    /// The graph with every bound node at the position of its body.
    pub open spec fn synced(
        graph: GraphView,
        bindings: Map<Handle, Handle>,
        bodies: Map<Handle, RigidBody>,
    ) -> GraphView {
        GraphView {
            tree: graph.tree,
            payloads: Map::new(
                |n: Handle| graph.payloads.contains_key(n),
                |n: Handle|
                    if bindings.contains_key(n) {
                        Self::placed(graph.payloads[n], bodies[bindings[n]].position)
                    } else {
                        graph.payloads[n]
                    },
            ),
        }
    }

    /// Puts every bound node at the position of its body.
    pub fn sync(&self, graph: &mut Graph, physics: &Physics)
        requires
            self.wf(),
            old(graph).wf(),
            forall|n: Handle|
                self@.contains_key(n) ==> old(graph).contains(n) && physics@.contains_key(self@[n]),
        ensures
            final(graph).wf(),
            final(graph)@ == Self::synced(old(graph)@, self@, physics@),
            final(graph).get_root() == old(graph).get_root(),
            final(graph).slots() == old(graph).slots(),
            forall|x: Handle| final(graph).contains(x) == old(graph).contains(x),
            old(graph).models_wf() ==> final(graph).models_wf(),
            forall|k: nat| final(graph).upcoming(k) == old(graph).upcoming(k),
    {
        let ghost before = graph@;
        let mut i: usize = 0;
        while i < self.bindings.len()
            invariant
                self.wf(),
                graph.wf(),
                i <= self.bindings.len(),
                before == old(graph)@,
                graph@.tree == before.tree,
                graph.get_root() == old(graph).get_root(),
                graph.capacity() == old(graph).capacity(),
                forall|k: int|
                    0 <= k < graph.capacity() ==> graph.handle_at(k) == old(graph).handle_at(k),
                forall|x: Handle| graph.contains(x) == old(graph).contains(x),
                forall|k: nat| graph.upcoming(k) == old(graph).upcoming(k),
                old(graph).models_wf() ==> graph.models_wf(),
                forall|n: Handle|
                    self@.contains_key(n) ==> old(graph).contains(n) && physics@.contains_key(
                        self@[n],
                    ),
                forall|n: Handle|
                    graph.contains(n) ==> #[trigger] graph@.payloads[n] == (if self@.contains_key(n)
                        && self.index_of(n)->0 < i {
                        Self::placed(before.payloads[n], physics@[self@[n]].position)
                    } else {
                        before.payloads[n]
                    }),
            decreases self.bindings.len() - i,
        {
            let binding = self.bindings[i];
            let ghost prev = *graph;
            proof {
                self.lemma_index(i as int);
            }
            let position = physics.borrow_body(binding.body).get_position();
            graph.get_mut(binding.node).base_mut().set_position(position);
            proof {
                prev.lemma_changed_node(&*graph, binding.node);
                assert forall|n: Handle| graph.contains(n)
                    implies #[trigger] graph@.payloads[n] == (if self@.contains_key(
                    n,
                ) && self.index_of(n)->0 < i + 1 {
                    Self::placed(before.payloads[n], physics@[self@[n]].position)
                } else {
                    before.payloads[n]
                }) by {
                    if n != binding.node {
                        assert(graph@.payloads[n] == prev@.payloads[n]);
                        if self@.contains_key(n) {
                            self.lemma_bound(n);
                        }
                    }
                }
            }
            i += 1;
        }
        proof {
            assert forall|n: Handle| graph.contains(n) implies graph@.payloads[n] == Self::synced(
                before,
                self@,
                physics@,
            ).payloads[n] by {
                if self@.contains_key(n) {
                    self.lemma_bound(n);
                }
            }
            assert(graph@.payloads =~= Self::synced(before, self@, physics@).payloads);
            assert(graph.slots() =~= old(graph).slots());
        }
    }
}

/// A part of a scene as it is stored.
#[derive(Clone, Copy, PartialEq, Eq, Structural, Hash, Debug)]
pub enum Region {
    PhysicsBinder,
    Graph,
    Animations,
    Physics,
}

impl Region {
    /// The name under which the part is stored.
    pub open spec fn spec_name(self) -> Seq<char> {
        match self {
            Region::PhysicsBinder => "PhysicsBinder"@,
            Region::Graph => "Graph"@,
            Region::Animations => "Animations"@,
            Region::Physics => "Physics"@,
        }
    }

    /// The name under which the part is stored.
    pub fn name(self) -> (s: &'static str)
        ensures
            s@ == self.spec_name(),
    {
        match self {
            Region::PhysicsBinder => "PhysicsBinder",
            Region::Graph => "Graph",
            Region::Animations => "Animations",
            Region::Physics => "Physics",
        }
    }
}

/// A scene.
pub struct Scene {
    /// The nodes of the scene.
    pub graph: Graph,
    /// The animations of the scene. Their tracks drive nodes of the graph.
    pub animations: AnimationContainer,
    /// The physics world of the scene.
    pub physics: Physics,
    /// The binding of nodes of the graph to bodies of the physics world. A
    /// body moves the node that it is bound to.
    pub physics_binder: PhysicsBinder,
}

impl Default for Scene {
    /// A scene whose graph has no node yet, not even a root.
    fn default() -> (s: Scene)
        ensures
            s.graph.arena_wf(),
            forall|h: Handle| !s.graph.contains(h),
            s.animations.wf(),
            s.animations@ == Map::<Handle, AnimationView>::empty(),
            s.physics.wf(),
            s.physics@ == Map::<Handle, RigidBody>::empty(),
            s.physics_binder.wf(),
            s.physics_binder@ == Map::<Handle, Handle>::empty(),
    {
        Scene {
            graph: Graph::default(),
            animations: AnimationContainer::default(),
            physics: Physics::default(),
            physics_binder: PhysicsBinder::default(),
        }
    }
}

impl Scene {
    /// The invariant of the scene: the invariants of its parts.
    pub open spec fn wf(&self) -> bool {
        &&& self.graph.wf()
        &&& self.animations.wf()
        &&& self.physics.wf()
        &&& self.physics_binder.wf()
    }

    /// Every binding is of a node that is alive to a body that is alive.
    pub open spec fn bindings_valid(&self) -> bool {
        forall|n: Handle| #[trigger]
            self.physics_binder@.contains_key(n) ==> self.graph.contains(n)
                && self.physics@.contains_key(self.physics_binder@[n])
    }

    /// The animations without those that have a track that drives one of
    /// `nodes`.
    pub open spec fn without_targeting(
        animations: Map<Handle, AnimationView>,
        nodes: Set<Handle>,
    ) -> Map<Handle, AnimationView> {
        Map::new(
            |a: Handle| animations.contains_key(a) && !animations[a].targets_any(nodes),
            |a: Handle| animations[a],
        )
    }

    /// The parts of a scene in the order in which they are stored and
    /// loaded: the binder, the graph, the animations, the physics world.
    pub fn regions() -> (r: [Region; 4])
        ensures
            r@ == seq![Region::PhysicsBinder, Region::Graph, Region::Animations, Region::Physics],
    {
        let r = [Region::PhysicsBinder, Region::Graph, Region::Animations, Region::Physics];
        assert(r@ =~= seq![
            Region::PhysicsBinder,
            Region::Graph,
            Region::Animations,
            Region::Physics,
        ]);
        r
    }

    /// The handles of the animations that are removed when the animations
    /// that drive the nodes of `order` are removed, node by node, in the
    /// order in which they are removed: for each node in turn, the animations
    /// that are still there and drive it, in the order of `slots`.
    pub open spec fn freed_animations(
        animations: Map<Handle, AnimationView>,
        slots: Seq<Handle>,
        order: Seq<Handle>,
    ) -> Seq<Handle>
        decreases order.len(),
    {
        if order.len() == 0 {
            Seq::empty()
        } else {
            AnimationContainer::targeting(animations, slots, order[0]) + Self::freed_animations(
                AnimationContainer::without_targeting(animations, order[0]),
                slots,
                order.drop_first(),
            )
        }
    }

    /// The graph after the bodies `bodies` have moved the nodes that are
    /// bound to them: of the bindings `bindings`, those count whose node is
    /// in the graph and whose body is among `bodies`.
    pub open spec fn moved_graph(
        graph: GraphView,
        bindings: Map<Handle, Handle>,
        bodies: Map<Handle, RigidBody>,
    ) -> GraphView {
        PhysicsBinder::synced(graph, PhysicsBinder::valid_in(bindings, graph, bodies), bodies)
    }

    /// A scene whose graph has a root and nothing else, with no animations,
    /// bodies or bindings. The root is a plain node named `__ROOT__` in the
    /// first slot of the graph's arena; the arenas of the animations and of
    /// the bodies have no slots yet.
    pub fn new() -> (s: Scene)
        ensures
            s.wf(),
            s.bindings_valid(),
            s.graph.models_wf(),
            s.graph.contains(s.graph.get_root()),
            forall|h: Handle| s.graph.contains(h) ==> h == s.graph.get_root(),
            s.graph.node(s.graph.get_root()) == (NodeView {
                base: BaseView { name: "__ROOT__"@, ..BaseView::fresh() },
                kind: crate::node::Kind::Base,
            }),
            s.graph.capacity() == 1,
            s.graph.get_root() == s.graph.handle_at(0),
            s.graph.get_root().slot() == 0,
            s.graph.get_root().age() == 1,
            forall|k: nat| s.graph.upcoming(k) == Handle::first(k + 1),
            s.animations@ == Map::<Handle, AnimationView>::empty(),
            s.animations.capacity() == 0,
            forall|k: nat| s.animations.upcoming(k) == Handle::first(k),
            s.physics@ == Map::<Handle, RigidBody>::empty(),
            forall|k: nat| s.physics.upcoming(k) == Handle::first(k),
            s.physics_binder@ == Map::<Handle, Handle>::empty(),
    {
        Scene {
            graph: Graph::new(),
            animations: AnimationContainer::default(),
            physics: Physics::default(),
            physics_binder: PhysicsBinder::default(),
        }
    }

    /// Lets the physics world run for the time `dt`, drops the bindings whose
    /// node or body is gone, and puts every node that is still bound at the
    /// position of its body.
    pub fn update_physics(&mut self, dt: i64)
        requires
            old(self).wf(),
        ensures
            final(self).wf(),
            final(self).bindings_valid(),
            final(self).physics@ == Physics::stepped(old(self).physics@, dt),
            final(self).physics_binder@ == PhysicsBinder::valid_in(
                old(self).physics_binder@,
                old(self).graph@,
                final(self).physics@,
            ),
            final(self).graph@ == PhysicsBinder::synced(
                old(self).graph@,
                final(self).physics_binder@,
                final(self).physics@,
            ),
            final(self).animations@ == old(self).animations@,
            final(self).graph.get_root() == old(self).graph.get_root(),
            final(self).graph.slots() == old(self).graph.slots(),
            forall|x: Handle| final(self).graph.contains(x) == old(self).graph.contains(x),
            forall|k: nat| final(self).graph.upcoming(k) == old(self).graph.upcoming(k),
            old(self).graph.models_wf() ==> final(self).graph.models_wf(),
    {
        self.physics.step(dt);
        self.physics_binder.retain_valid(&self.graph, &self.physics);
        self.physics_binder.sync(&mut self.graph, &self.physics);
    }

    /// Removes the node under `h` and all that lies under it, and with them
    /// every animation that has a track that drives one of the removed nodes
    /// and every binding of a removed node. A binding whose body is gone is
    /// dropped as well, so that afterwards every binding is of a node that is
    /// alive to a body that is alive.
    pub fn remove_node(&mut self, h: Handle)
        requires
            old(self).wf(),
            old(self).graph.contains(h),
        ensures
            final(self).graph@.tree == old(self).graph@.tree.without_subtree(h),
            final(self).graph@.payloads == old(self).graph@.payloads.remove_keys(
                old(self).graph@.tree.subtree(h),
            ),
            forall|x: Handle|
                final(self).graph.contains(x) <==> old(self).graph.contains(x)
                    && !old(self).graph@.tree.in_subtree(x, h),
            final(self).animations@ == Self::without_targeting(
                old(self).animations@,
                old(self).graph@.tree.subtree(h),
            ),
            final(self).physics@ == old(self).physics@,
            final(self).physics_binder@ == PhysicsBinder::valid_in(
                old(self).physics_binder@,
                final(self).graph@,
                final(self).physics@,
            ),
            final(self).bindings_valid(),
            forall|n: Handle|
                final(self).physics_binder@.contains_key(n) <==> old(self).physics_binder@.contains_key(n) && old(self).graph.contains(n) && !old(self).graph@.tree.in_subtree(n, h) && old(self).physics@.contains_key(
                    old(self).physics_binder@[n],
                ),
            final(self).graph.get_root() == old(self).graph.get_root(),
            final(self).graph.arena_wf(),
            final(self).animations.wf(),
            final(self).physics.wf(),
            final(self).physics_binder.wf(),
            h != old(self).graph.get_root() ==> final(self).wf(),
            forall|x: Handle|
                old(self).graph@.tree.in_subtree(x, h) ==> final(self).graph.is_stale(x),
            forall|x: Handle| old(self).graph.is_stale(x) ==> final(self).graph.is_stale(x),
            forall|k: nat|
                final(self).graph.upcoming(k) == upcoming_after(
                    old(self).graph@.tree.dfs_order(h, false),
                    |j: nat| old(self).graph.upcoming(j),
                    k,
                ),
            forall|k: nat|
                final(self).animations.upcoming(k) == upcoming_after(
                    Self::freed_animations(
                        old(self).animations@,
                        old(self).animations.slots(),
                        old(self).graph@.tree.dfs_order(h, false),
                    ),
                    |j: nat| old(self).animations.upcoming(j),
                    k,
                ),
    {
        let ghost t = self.graph@.tree;
        let ghost order = t.dfs_order(h, false);
        let ghost before = self.animations@;
        let ghost slots = self.animations.slots();
        let ghost first = |j: nat| old(self).animations.upcoming(j);
        let ghost mut freed = Seq::<Handle>::empty();
        proof {
            assert(order.skip(0) =~= order);
            assert(freed + Self::freed_animations(before, slots, order) =~= Self::freed_animations(
                before,
                slots,
                order,
            ));
        }
        let mut it = self.graph.traverse_handle_iter(h);
        loop
            invariant
                it.wf(),
                *it.graph() == old(self).graph,
                self.graph == old(self).graph,
                self.physics == old(self).physics,
                self.physics_binder == old(self).physics_binder,
                it.start() == h,
                order == it.order(),
                order == t.dfs_order(h, false),
                it.steps() <= order.len(),
                self.animations.wf(),
                before == old(self).animations@,
                forall|a: Handle|
                    self.animations@.contains_key(a) <==> before.contains_key(a) && forall|i: int|
                        0 <= i < it.steps() ==> !before[a].targets(#[trigger] order[i]),
                forall|a: Handle| self.animations@.contains_key(a) ==> self.animations@[a]
                    == before[a],
                slots == old(self).animations.slots(),
                self.animations.slots() == slots,
                first == |j: nat| old(self).animations.upcoming(j),
                freed + Self::freed_animations(
                    self.animations@,
                    slots,
                    order.skip(it.steps() as int),
                ) == Self::freed_animations(before, slots, order),
                forall|j: nat| self.animations.upcoming(j) == upcoming_after(freed, first, j),
            ensures
                it.steps() == order.len(),
            decreases order.len() - it.steps(),
        {
            let ghost k = it.steps();
            let ghost prev = self.animations;
            match it.next() {
                Some(descendant) => {
                    self.animations.remove_targeting(descendant);
                    proof {
                        assert(descendant == order[k as int]);
                        let gone = AnimationContainer::targeting(prev@, slots, descendant);
                        assert(order.skip(k as int)[0] == descendant);
                        assert(order.skip(k as int).drop_first() =~= order.skip(k as int + 1));
                        assert((freed + gone) + Self::freed_animations(
                            self.animations@,
                            slots,
                            order.skip(k as int + 1),
                        ) =~= freed + (gone + Self::freed_animations(
                            self.animations@,
                            slots,
                            order.skip(k as int + 1),
                        )));
                        assert forall|i: nat|
                            #[trigger] prev.upcoming(i) == upcoming_after(freed, first, i) by {}
                        assert forall|j: nat|
                            self.animations.upcoming(j) == upcoming_after(
                                freed + gone,
                                first,
                                j,
                            ) by {
                            lemma_upcoming_after(freed, gone, first, j);
                            lemma_upcoming_after_same(
                                gone,
                                |i: nat| prev.upcoming(i),
                                |i: nat| upcoming_after(freed, first, i),
                                j,
                            );
                        }
                        freed = freed + gone;
                        assert forall|a: Handle|
                            self.animations@.contains_key(a) <==> before.contains_key(a)
                                && forall|i: int|
                                0 <= i < k + 1 ==> !before[a].targets(#[trigger] order[i]) by {
                            if before.contains_key(a) && (forall|i: int|
                                0 <= i < k ==> !before[a].targets(#[trigger] order[i])) {
                                if !before[a].targets(descendant) {
                                    assert forall|i: int| 0 <= i < k + 1 implies !before[a].targets(
                                        #[trigger] order[i],
                                    ) by {
                                        if i == k {
                                        }
                                    }
                                }
                            }
                        }
                    }
                },
                None => {
                    break ;
                },
            }
        }
        proof {
            assert(order.skip(order.len() as int) =~= Seq::<Handle>::empty());
            assert(freed + Seq::<Handle>::empty() =~= freed);
            t.lemma_dfs_order(h, false);
            let nodes = t.subtree(h);
            assert forall|a: Handle| before.contains_key(a) implies (before[a].targets_any(nodes)
                <==> exists|i: int| 0 <= i < order.len()
                    && before[a].targets(#[trigger] order[i])) by {
                if before[a].targets_any(nodes) {
                    let j = choose|j: int|
                        0 <= j < before[a].tracks.len() && nodes.contains(
                            #[trigger] before[a].tracks[j].node,
                        );
                    let x = before[a].tracks[j].node;
                    assert(t.in_subtree(x, h));
                    assert(order.contains(x));
                    let i = choose|i: int| 0 <= i < order.len() && order[i] == x;
                    assert(before[a].targets(order[i]));
                }
                if exists|i: int| 0 <= i < order.len() && before[a].targets(#[trigger] order[i]) {
                    let i = choose|i: int|
                        0 <= i < order.len() && before[a].targets(#[trigger] order[i]);
                    let j = choose|j: int|
                        0 <= j < before[a].tracks.len() && #[trigger] before[a].tracks[j].node
                            == order[i];
                    assert(order.contains(order[i]));
                    assert(t.in_subtree(order[i], h));
                    assert(nodes.contains(before[a].tracks[j].node));
                }
            }
            assert forall|a: Handle|
                self.animations@.contains_key(a) <==> before.contains_key(a)
                    && !before[a].targets_any(nodes) by {
                if before.contains_key(a) {
                    if self.animations@.contains_key(a) {
                        if exists|i: int|
                            0 <= i < order.len() && before[a].targets(#[trigger] order[i]) {
                            let i = choose|i: int|
                                0 <= i < order.len() && before[a].targets(#[trigger] order[i]);
                            assert(!before[a].targets(order[i]));
                        }
                    } else {
                        assert(!(forall|i: int|
                            0 <= i < it.steps() ==> !before[a].targets(#[trigger] order[i])));
                    }
                }
            }
            assert(self.animations@ =~= Self::without_targeting(before, nodes));
        }
        self.graph.remove_node(h);
        self.physics_binder.retain_valid(&self.graph, &self.physics);
    }

    /// Brings the graph back in line with the models that its nodes name,
    /// and then fits the tracks of the animations to the graph.
    pub fn resolve(&mut self)
        requires
            old(self).wf(),
            old(self).graph.models_wf(),
        ensures
            final(self).wf(),
            final(self).graph.models_wf(),
            final(self).graph@ == old(self).graph@.resolved(),
            final(self).animations@ == AnimationContainer::retargeted(
                old(self).animations@,
                final(self).graph@,
            ),
            final(self).physics@ == old(self).physics@,
            final(self).physics_binder@ == old(self).physics_binder@,
            final(self).graph.get_root() == old(self).graph.get_root(),
            forall|x: Handle| final(self).graph.contains(x) == old(self).graph.contains(x),
            forall|k: nat| final(self).graph.upcoming(k) == old(self).graph.upcoming(k),
            old(self).bindings_valid() ==> final(self).bindings_valid(),
    {
        self.graph.resolve();
        self.animations.resolve(&self.graph);
    }

    /// One step of the scene, of the time `dt`, in a frame of the size
    /// `frame_size`: first the physics world moves the nodes that are bound
    /// to bodies, then the animations play on, then the graph brings its
    /// transforms up to date, moves its nodes on and removes those whose
    /// lifetime has run out, and with them their bindings. Afterwards every
    /// binding is of a node that is alive to a body that is alive.
    pub fn update(&mut self, frame_size: Vec2, dt: i64)
        requires
            old(self).wf(),
        ensures
            final(self).physics@ == Physics::stepped(old(self).physics@, dt),
            final(self).physics_binder@ == PhysicsBinder::valid_in(
                old(self).physics_binder@,
                final(self).graph@,
                final(self).physics@,
            ),
            final(self).bindings_valid(),
            final(self).animations@ == AnimationContainer::advanced(old(self).animations@, dt),
            final(self).graph@ == Self::moved_graph(
                old(self).graph@,
                old(self).physics_binder@,
                final(self).physics@,
            ).propagated().ticked(frame_size, dt).swept(old(self).graph.slots()),
            final(self).graph.get_root() == old(self).graph.get_root(),
            final(self).graph.arena_wf(),
            final(self).animations.wf(),
            final(self).physics.wf(),
            final(self).physics_binder.wf(),
            final(self).graph.contains(final(self).graph.get_root()) ==> final(self).wf(),
            forall|x: Handle| final(self).graph.contains(x) ==> old(self).graph.contains(x),
            forall|x: Handle|
                #[trigger] final(self).graph.contains(x) <==> old(self).graph.contains(x)
                    && !Self::moved_graph(
                    old(self).graph@,
                    old(self).physics_binder@,
                    final(self).physics@,
                ).propagated().ticked(frame_size, dt).doomed(x),
            forall|k: nat|
                final(self).graph.upcoming(k) == upcoming_after(
                    Self::moved_graph(
                        old(self).graph@,
                        old(self).physics_binder@,
                        final(self).physics@,
                    ).propagated().ticked(frame_size, dt).swept_freed(old(self).graph.slots()),
                    |j: nat| old(self).graph.upcoming(j),
                    k,
                ),
    {
        self.update_physics(dt);
        self.animations.update_animations(dt);
        let ghost mid = self.graph;
        let ghost bound = self.physics_binder@;
        self.graph.update_nodes(frame_size, dt);
        self.physics_binder.retain_valid(&self.graph, &self.physics);
        proof {
            assert(self.physics_binder@ =~= PhysicsBinder::valid_in(
                old(self).physics_binder@,
                self.graph@,
                self.physics@,
            ));
            let freed = mid@.propagated().ticked(frame_size, dt).swept_freed(mid.slots());
            assert forall|k: nat|
                self.graph.upcoming(k) == upcoming_after(
                    freed,
                    |j: nat| old(self).graph.upcoming(j),
                    k,
                ) by {
                lemma_upcoming_after_same(
                    freed,
                    |j: nat| mid.upcoming(j),
                    |j: nat| old(self).graph.upcoming(j),
                    k,
                );
            }
        }
    }
}

/// The scenes of an engine, held in an arena. Its view is the map from the
/// handles of the scenes that are alive to the scenes.
pub struct SceneContainer {
    pool: Pool<Scene>,
}

impl View for SceneContainer {
    type V = Map<Handle, Scene>;

    closed spec fn view(&self) -> Map<Handle, Scene> {
        self.pool@
    }
}

impl Default for SceneContainer {
    fn default() -> (c: SceneContainer)
        ensures
            c.wf(),
            c@ == Map::<Handle, Scene>::empty(),
            forall|k: nat| c.upcoming(k) == Handle::first(k),
    {
        SceneContainer { pool: Pool::new() }
    }
}

impl SceneContainer {
    /// The invariant of the arena that holds the scenes.
    pub closed spec fn wf(&self) -> bool {
        self.pool.wf()
    }

    /// The handle that the next scene gets.
    pub closed spec fn next_handle(&self) -> Handle {
        self.pool.next_handle()
    }

    /// The handle that the scene added after the next `k` scenes gets, if no
    /// scene is removed before.
    pub closed spec fn upcoming(&self, k: nat) -> Handle {
        self.pool.upcoming(k)
    }

    /// The next handle is the first of the handles to come.
    pub proof fn lemma_next_handle(&self)
        ensures
            self.next_handle() == self.upcoming(0),
    {
        self.pool.lemma_next_handle();
    }

    /// The handles of the scenes that are alive, in the order of the slots
    /// of the arena.
    pub closed spec fn handles(&self) -> Seq<Handle> {
        self.pool.handles()
    }

    /// The list of the handles holds the handle of each scene once, and
    /// nothing else.
    pub proof fn lemma_handles(&self)
        ensures
            forall|h: Handle| self.handles().contains(h) <==> self@.contains_key(h),
            self.handles().no_duplicates(),
    {
        self.pool.lemma_handles(self.pool.capacity());
        assert forall|h: Handle| self@.contains_key(h) implies self.handles().contains(h) by {
            self.pool.lemma_alive(h);
        }
    }

    pub fn new() -> (c: SceneContainer)
        ensures
            c.wf(),
            c@ == Map::<Handle, Scene>::empty(),
            forall|k: nat| c.upcoming(k) == Handle::first(k),
    {
        SceneContainer { pool: Pool::new() }
    }

    /// The scenes in the order of the slots of the arena.
    pub fn iter(&self) -> (r: Vec<&Scene>)
        ensures
            r.len() == self.handles().len(),
            forall|k: int|
                #![trigger r[k]]
                #![trigger self.handles()[k]]
                0 <= k < r.len() ==> self@.contains_key(self.handles()[k]) && *r[k]
                    == self@[self.handles()[k]],
    {
        self.pool.iter()
    }

    /// The number of slots of the arena that holds the scenes.
    pub closed spec fn capacity(&self) -> nat {
        self.pool.capacity()
    }

    /// The handle of the scene in slot `i` of the arena, if there is one.
    pub closed spec fn handle_at(&self, i: int) -> Handle {
        self.pool.handle_at(i)
    }

    pub fn get_capacity(&self) -> (n: usize)
        ensures
            n == self.capacity(),
    {
        self.pool.get_capacity()
    }

    /// The scene in slot `i` of the arena, for change, if the slot holds one:
    /// with `i` going up from 0 to the capacity, the scenes in the order of
    /// the slots.
    pub fn iter_mut(&mut self, i: usize) -> (r: Option<&mut Scene>)
        ensures
            r is Some <==> i < old(self).capacity() && old(self)@.contains_key(
                old(self).handle_at(i as int),
            ),
            (match r {
                Some(scene) => {
                    &&& *scene == old(self)@[old(self).handle_at(i as int)]
                    &&& final(self)@ == old(self)@.insert(
                        old(self).handle_at(i as int),
                        *final(scene),
                    )
                },
                None => final(self)@ == old(self)@,
            }),
            old(self).wf() ==> final(self).wf(),
            old(self).wf() ==> forall|k: nat| final(self).upcoming(k) == old(self).upcoming(k),
            final(self).capacity() == old(self).capacity(),
            forall|k: int|
                0 <= k < old(self).capacity() ==> final(self).handle_at(k) == old(self).handle_at(
                    k,
                ),
    {
        match self.pool.at_mut(i) {
            Some((_, scene)) => Some(scene),
            None => None,
        }
    }

    /// Adds a scene and returns its handle, which was not alive before.
    pub fn add(&mut self, scene: Scene) -> (h: Handle)
        requires
            old(self).wf(),
        ensures
            final(self).wf(),
            h == old(self).next_handle(),
            h != Handle::none(),
            !old(self)@.contains_key(h),
            final(self)@ == old(self)@.insert(h, scene),
            forall|k: nat| final(self).upcoming(k) == old(self).upcoming(k + 1),
    {
        self.pool.spawn(scene)
    }

    /// Removes every scene. Handles given out before may come to life again
    /// for scenes added later.
    pub fn clear(&mut self)
        ensures
            final(self).wf(),
            final(self)@ == Map::<Handle, Scene>::empty(),
            forall|k: nat| final(self).upcoming(k) == Handle::first(k),
    {
        self.pool.clear()
    }

    /// Removes the scene under `h`.
    pub fn remove(&mut self, h: Handle)
        requires
            old(self).wf(),
            old(self)@.contains_key(h),
        ensures
            final(self).wf(),
            final(self)@ == old(self)@.remove(h),
            forall|k: nat|
                final(self).upcoming(k) == upcoming_after(
                    seq![h],
                    |j: nat| old(self).upcoming(j),
                    k,
                ),
    {
        self.pool.free(h);
        proof {
            assert forall|k: nat|
                self.upcoming(k) == upcoming_after(seq![h], |j: nat| old(self).upcoming(j), k) by {
                lemma_upcoming_after_same(
                    seq![h],
                    |j: nat| old(self).pool.upcoming(j),
                    |j: nat| old(self).upcoming(j),
                    k,
                );
            }
        }
    }

    /// The scene under `h`.
    pub fn get(&self, h: Handle) -> (scene: &Scene)
        requires
            self@.contains_key(h),
        ensures
            *scene == self@[h],
    {
        self.pool.borrow(h)
    }

    /// The scene under `h`, for change.
    pub fn get_mut(&mut self, h: Handle) -> (scene: &mut Scene)
        requires
            old(self)@.contains_key(h),
        ensures
            *scene == old(self)@[h],
            final(self)@ == old(self)@.insert(h, *final(scene)),
            old(self).wf() ==> final(self).wf(),
            old(self).wf() ==> forall|k: nat| final(self).upcoming(k) == old(self).upcoming(k),
    {
        self.pool.borrow_mut(h)
    }

    /// Whether a scene is alive under `h`.
    pub fn is_valid_handle(&self, h: Handle) -> (b: bool)
        ensures
            b == self@.contains_key(h),
    {
        self.pool.is_valid_handle(h)
    }
}

} // verus!
