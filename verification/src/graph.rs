//! The scene graph: the nodes of a scene, held in an arena and linked into
//! one tree.

use vstd::prelude::*;
use crate::base::{Base, BaseView};
use crate::math::{Mat4, Vec3};
use crate::node::{Node, NodeView};
use crate::pool::{lemma_upcoming_after, lemma_upcoming_after_same, upcoming_after, BorrowError, Handle, Pool};
use crate::tree::{Links, Tree};

verus! {

/// A graph as contracts see it: the shape of its hierarchy, and what each
/// node carries.
pub ghost struct GraphView {
    pub tree: Tree,
    pub payloads: Map<Handle, NodeView>,
}

/// A node's view without its links into the hierarchy: what the node carries.
pub open spec fn payload(node: NodeView) -> NodeView {
    NodeView { base: node.base.with_links(Handle::none(), Seq::empty()), ..node }
}

impl GraphView {
    /// The product of the local transforms of `h` and of its `k` nearest
    /// ancestors, the outermost on the left.
    pub open spec fn chain_transform(self, h: Handle, k: nat) -> Mat4
        decreases k,
    {
        let before = if k == 0 {
            Mat4::identity()
        } else {
            self.chain_transform(self.tree.parent(h), (k - 1) as nat)
        };
        before.mul(self.payloads[h].base.local_transform.matrix())
    }

    /// Whether `h` and its `k` nearest ancestors are all visible.
    pub open spec fn chain_visibility(self, h: Handle, k: nat) -> bool
        decreases k,
    {
        let before = if k == 0 {
            true
        } else {
            self.chain_visibility(self.tree.parent(h), (k - 1) as nat)
        };
        before && self.payloads[h].base.visibility
    }

    /// The transform from the frame of `h` to that of the scene: the product
    /// of the local transforms from the root down to `h`, the root's on the
    /// left.
    pub open spec fn global_transform(self, h: Handle) -> Mat4 {
        self.chain_transform(h, self.tree.depth(h))
    }

    /// Whether `h` and all its ancestors are visible.
    pub open spec fn global_visibility(self, h: Handle) -> bool {
        self.chain_visibility(h, self.tree.depth(h))
    }

    /// Every node holds the global transform and visibility that its own and
    /// its ancestors' local values give.
    pub open spec fn transforms_current(self) -> bool {
        forall|h: Handle| #[trigger]
            self.tree.contains(h) ==> self.payloads[h].base.global_transform
                == self.global_transform(h) && self.payloads[h].base.global_visibility
                == self.global_visibility(h)
    }

    /// The global values depend on the hierarchy and on the local transforms
    /// and visibilities alone.
    pub proof fn lemma_chain_depends(self, other: GraphView, h: Handle, k: nat)
        requires
            self.tree.wf(),
            self.tree.contains(h),
            k <= self.tree.depth(h),
            other.tree == self.tree,
            forall|x: Handle| #[trigger]
                self.tree.contains(x) ==> other.payloads[x].base.local_transform
                    == self.payloads[x].base.local_transform && other.payloads[x].base.visibility
                    == self.payloads[x].base.visibility,
        ensures
            other.chain_transform(h, k) == self.chain_transform(h, k),
            other.chain_visibility(h, k) == self.chain_visibility(h, k),
        decreases k,
    {
        if k > 0 {
            self.tree.lemma_depth(h);
            self.tree.lemma_parent(h);
            self.lemma_chain_depends(other, self.tree.parent(h), (k - 1) as nat);
        }
    }

    /// The global transform of a node is that of its parent times its own
    /// local transform; the root's is its local transform.
    pub proof fn lemma_global_step(self, h: Handle)
        requires
            self.tree.wf(),
            self.tree.contains(h),
        ensures
            self.global_transform(h) == (if h == self.tree.root {
                Mat4::identity()
            } else {
                self.global_transform(self.tree.parent(h))
            }).mul(self.payloads[h].base.local_transform.matrix()),
            self.global_visibility(h) == ((if h == self.tree.root {
                true
            } else {
                self.global_visibility(self.tree.parent(h))
            }) && self.payloads[h].base.visibility),
    {
        self.tree.lemma_depth(h);
    }
}

/// What a search looks for: a node with a given name, or the node that stands
/// for a given node of a model.
pub ghost enum Query {
    Named(Seq<char>),
    CopyOf(Handle),
}

impl GraphView {
    /// The node `h` is what `query` looks for.
    pub open spec fn answers(self, h: Handle, query: Query) -> bool {
        match query {
            Query::Named(name) => self.payloads[h].base.name == name,
            Query::CopyOf(original) => self.payloads[h].base.original == original,
        }
    }

    /// The first node of `order` that is what `query` looks for, or
    /// `Handle::none()` if none is.
    pub open spec fn first_match(self, order: Seq<Handle>, query: Query) -> Handle
        decreases order.len(),
    {
        if order.len() == 0 {
            Handle::none()
        } else if self.answers(order[0], query) {
            order[0]
        } else {
            self.first_match(order.drop_first(), query)
        }
    }

    /// The result of a search under `from`: of the nodes that are what `query`
    /// looks for, the one that a depth-first traversal from `from` reaches
    /// first, when it takes the children of each node in their order.
    pub open spec fn find(self, from: Handle, query: Query) -> Handle {
        self.first_match(self.tree.dfs_order(from, true), query)
    }

    /// The first match of a sequence is one of its members and is what the
    /// query looks for, and no member before it is; there is none only if no
    /// member is.
    pub proof fn lemma_first_match(self, order: Seq<Handle>, query: Query)
        requires
            !order.contains(Handle::none()),
        ensures
            self.first_match(order, query) == Handle::none() <==> forall|i: int|
                0 <= i < order.len() ==> !self.answers(order[i], query),
            self.first_match(order, query) != Handle::none() ==> exists|i: int|
                0 <= i < order.len() && order[i] == self.first_match(order, query) && self.answers(
                    order[i],
                    query,
                ) && forall|j: int| 0 <= j < i ==> !self.answers(order[j], query),
        decreases order.len(),
    {
        if order.len() > 0 {
            assert(order[0] != Handle::none());
            let rest = order.drop_first();
            assert forall|i: int| 0 <= i < rest.len() implies rest[i] != Handle::none() by {
                assert(rest[i] == order[i + 1]);
            }
            self.lemma_first_match(rest, query);
            if self.answers(order[0], query) {
                assert(forall|j: int| 0 <= j < 0 ==> !self.answers(order[j], query));
            } else {
                if self.first_match(order, query) != Handle::none() {
                    let i = choose|i: int|
                        0 <= i < rest.len() && rest[i] == self.first_match(rest, query)
                            && self.answers(rest[i], query) && forall|j: int|
                            0 <= j < i ==> !self.answers(rest[j], query);
                    assert(order[i + 1] == rest[i]);
                    assert forall|j: int| 0 <= j < i + 1 implies !self.answers(order[j], query) by {
                        if j > 0 {
                            assert(order[j] == rest[j - 1]);
                        }
                    }
                } else {
                    assert forall|i: int| 0 <= i < order.len() implies !self.answers(
                        order[i],
                        query,
                    ) by {
                        if i > 0 {
                            assert(order[i] == rest[i - 1]);
                        }
                    }
                }
            }
        }
    }

    /// A search finds a node exactly when a node under its start is what it
    /// looks for, and what it finds is such a node.
    pub proof fn lemma_find(self, from: Handle, query: Query)
        requires
            self.tree.wf(),
            self.tree.contains(from),
        ensures
            self.find(from, query) == Handle::none() <==> forall|x: Handle|
                self.tree.in_subtree(x, from) ==> !self.answers(x, query),
            self.find(from, query) != Handle::none() ==> self.tree.in_subtree(
                self.find(from, query),
                from,
            ) && self.answers(self.find(from, query), query),
    {
        let order = self.tree.dfs_order(from, true);
        self.tree.lemma_dfs_order(from, true);
        self.tree.lemma_root();
        if order.contains(Handle::none()) {
            assert(self.tree.in_subtree(Handle::none(), from));
        }
        self.lemma_first_match(order, query);
        if self.find(from, query) == Handle::none() {
            assert forall|x: Handle| self.tree.in_subtree(x, from) implies !self.answers(
                x,
                query,
            ) by {
                assert(order.contains(x));
            }
        } else {
            let i = choose|i: int|
                0 <= i < order.len() && order[i] == self.first_match(order, query) && self.answers(
                    order[i],
                    query,
                ) && forall|j: int| 0 <= j < i ==> !self.answers(order[j], query);
            assert(order.contains(order[i]));
        }
    }

    /// The node reached from `h` by going up until a node has no parent or
    /// is marked as the root of an instance of a model, in at most `k` steps.
    pub open spec fn model_root_within(self, h: Handle, k: nat) -> Handle
        decreases k,
    {
        if k == 0 || self.tree.parent(h) == Handle::none()
            || self.payloads[h].base.is_resource_instance {
            h
        } else {
            self.model_root_within(self.tree.parent(h), (k - 1) as nat)
        }
    }

    /// The root of the model instance that `h` belongs to: the nearest of `h`
    /// and its ancestors that is marked as such a root, or the root of the
    /// graph.
    pub open spec fn model_root(self, h: Handle) -> Handle {
        self.model_root_within(h, self.tree.depth(h))
    }
}

/// A tree of nodes held in an arena. One node, the root, is there from the
/// start; every other node has a parent.
pub struct Graph {
    root: Handle,
    pool: Pool<Node>,
    stack: Vec<Handle>,
}

/// The view of the graph with the given root and nodes.
pub open spec fn view_of(root: Handle, nodes: Map<Handle, Node>) -> GraphView {
    GraphView {
        tree: Tree {
            root,
            links: Map::new(
                |h: Handle| nodes.contains_key(h),
                |h: Handle|
                    Links { parent: nodes[h]@.base.parent, children: nodes[h]@.base.children },
            ),
        },
        payloads: Map::new(|h: Handle| nodes.contains_key(h), |h: Handle| payload(nodes[h]@)),
    }
}

impl View for Graph {
    type V = GraphView;

    open spec fn view(&self) -> GraphView {
        view_of(self.get_root(), self.nodes())
    }
}

/// Puts `items` on `stack`: first to last, or last to first if `reversed`.
pub(crate) fn push_all(stack: &mut Vec<Handle>, items: &Vec<Handle>, reversed: bool)
    ensures
        final(stack)@ == old(stack)@ + (if reversed {
            items@.reverse()
        } else {
            items@
        }),
{
    let n = items.len();
    let mut i: usize = 0;
    while i < n
        invariant
            n == items.len(),
            i <= n,
            stack@.len() == old(stack)@.len() + i,
            forall|j: int| 0 <= j < old(stack)@.len() ==> stack@[j] == old(stack)@[j],
            forall|j: int|
                old(stack)@.len() <= j < old(stack)@.len() + i ==> #[trigger] stack@[j]
                    == (if reversed {
                    items@[n - 1 - (j - old(stack)@.len())]
                } else {
                    items@[j - old(stack)@.len()]
                }),
        decreases n - i,
    {
        let item = if reversed {
            items[n - 1 - i]
        } else {
            items[i]
        };
        stack.push(item);
        i += 1;
    }
    assert(stack@ =~= old(stack)@ + (if reversed {
        items@.reverse()
    } else {
        items@
    }));
}

impl Default for Graph {
    /// A graph without any node, not even a root: the state into which a
    /// stored graph is loaded.
    fn default() -> (g: Graph)
        ensures
            g.arena_wf(),
            g.get_root() == Handle::none(),
            g.capacity() == 0,
            forall|h: Handle| !g.contains(h),
            forall|k: nat| g.upcoming(k) == Handle::first(k),
    {
        Graph { root: Handle::none(), pool: Pool::new(), stack: Vec::new() }
    }
}

impl Graph {
    pub closed spec fn spec_root(&self) -> Handle {
        self.root
    }

    /// The nodes that are alive, by their handles.
    pub closed spec fn nodes(&self) -> Map<Handle, Node> {
        self.pool@
    }

    /// `h` is the handle of a node that is alive.
    #[verifier::inline]
    pub open spec fn contains(&self, h: Handle) -> bool {
        self.nodes().contains_key(h)
    }

    /// The view of the node under `h`.
    #[verifier::inline]
    pub open spec fn node(&self, h: Handle) -> NodeView {
        self.nodes()[h]@
    }

    /// The invariant of the arena that holds the nodes.
    pub closed spec fn arena_wf(&self) -> bool {
        self.pool.wf()
    }

    /// The number of slots of the arena.
    pub closed spec fn capacity(&self) -> nat {
        self.pool.capacity()
    }

    /// The handle of the node in slot `i` of the arena, if there is one.
    pub closed spec fn handle_at(&self, i: int) -> Handle {
        self.pool.handle_at(i)
    }

    /// The handle that the next node gets.
    pub closed spec fn next_handle(&self) -> Handle {
        self.pool.next_handle()
    }

    /// The handle that the node added after the next `k` nodes gets, if no
    /// node is removed before.
    pub closed spec fn upcoming(&self, k: nat) -> Handle {
        self.pool.upcoming(k)
    }

    /// The next handle is the first of the handles to come.
    pub proof fn lemma_next_handle(&self)
        ensures
            self.next_handle() == self.upcoming(0),
    {
        self.pool.lemma_next_handle();
    }

    /// The handle `h` was the handle of a node of this graph that has been
    /// removed since. Such a handle never comes to life again.
    pub open spec fn is_stale(&self, h: Handle) -> bool {
        &&& h.slot() < self.capacity()
        &&& !self.contains(h)
        &&& 1 <= h.age() <= self.handle_at(h.slot() as int).age()
    }

    /// The invariant of the graph: the arena is in order and the links of the
    /// nodes form a tree under the root.
    pub open spec fn wf(&self) -> bool {
        self.arena_wf() && self@.tree.wf()
    }

    /// Only finitely many nodes are alive.
    pub proof fn lemma_finite(&self)
        requires
            self.arena_wf(),
        ensures
            self.nodes().dom().finite(),
            self@.tree.links.dom() == self.nodes().dom(),
    {
        self.pool.lemma_finite();
        assert(self@.tree.links.dom() =~= self.nodes().dom());
    }

    /// A handle that is alive names a slot below the capacity and is the
    /// handle of that slot.
    pub proof fn lemma_alive(&self, h: Handle)
        requires
            self.contains(h),
        ensures
            h.slot() < self.capacity(),
            self.handle_at(h.slot() as int) == h,
    {
        self.pool.lemma_alive(h);
    }

    /// The handle of a slot names that slot, and it is the only handle under
    /// which the slot can hold a node.
    pub proof fn lemma_slot(&self, i: int)
        requires
            0 <= i < self.capacity(),
        ensures
            self.handle_at(i).slot() == i,
            forall|h: Handle| self.contains(h) && h.slot() == i ==> h == self.handle_at(i),
    {
        self.pool.lemma_slot(i);
    }

    /// A graph with a single node, the root, named `__ROOT__`.
    pub fn new() -> (g: Graph)
        ensures
            g.wf(),
            g.contains(g.get_root()),
            forall|h: Handle| g.contains(h) ==> h == g.get_root(),
            g.node(g.get_root()) == (NodeView {
                base: BaseView { name: "__ROOT__"@, ..BaseView::fresh() },
                kind: crate::node::Kind::Base,
            }),
            g.capacity() == 1,
            g.get_root() == g.handle_at(0),
            g.get_root().slot() == 0,
            g.get_root().age() == 1,
            forall|k: nat| g.upcoming(k) == Handle::first(k + 1),
    {
        let mut pool: Pool<Node> = Pool::new();
        let mut base = Base::default();
        base.set_name("__ROOT__");
        let root = pool.spawn(Node::Base(base));
        let g = Graph { root, pool, stack: Vec::new() };
        proof {
            let t = g@.tree;
            reveal(Tree::wf);
            g.pool.lemma_alive(root);
            assert(t.links.dom() =~= Set::<Handle>::empty().insert(root));
            assert(t.ancestor(root, 0) == root);
            assert(t.children(root) =~= Seq::<Handle>::empty());
        }
        g
    }

    /// The root of the graph.
    #[verifier::when_used_as_spec(spec_root)]
    pub fn get_root(&self) -> (h: Handle)
        ensures
            h == self.get_root(),
    {
        self.root
    }

    /// The handles of the nodes that are alive, in the order of the slots
    /// of the arena.
    pub closed spec fn handles(&self) -> Seq<Handle> {
        self.pool.handles()
    }

    /// The list of the handles holds the handle of each node once, in the
    /// order of the slots, and nothing else.
    pub proof fn lemma_handles(&self)
        ensures
            forall|h: Handle| self.handles().contains(h) <==> self.contains(h),
            forall|j: int, k: int|
                0 <= j < k < self.handles().len() ==> self.handles()[j].slot()
                    < self.handles()[k].slot(),
            self.handles().no_duplicates(),
    {
        self.pool.lemma_handles(self.pool.capacity());
        assert forall|h: Handle| self.contains(h) implies self.handles().contains(h) by {
            self.pool.lemma_alive(h);
        }
    }

    /// The nodes in the order of the slots of the arena. This is no
    /// traversal of the tree.
    pub fn linear_iter(&self) -> (r: Vec<&Node>)
        ensures
            r.len() == self.handles().len(),
            forall|k: int|
                #![trigger r[k]]
                #![trigger self.handles()[k]]
                0 <= k < r.len() ==> self.contains(self.handles()[k]) && *r[k]
                    == self.nodes()[self.handles()[k]],
    {
        self.pool.iter()
    }

    /// The nodes with their handles, in the order of the slots of the arena.
    pub fn pair_iter(&self) -> (r: Vec<(Handle, &Node)>)
        ensures
            r.len() == self.handles().len(),
            forall|k: int|
                0 <= k < r.len() ==> (#[trigger] r[k]).0 == self.handles()[k] && self.contains(
                    r[k].0,
                ) && *r[k].1 == self.nodes()[r[k].0],
    {
        self.pool.pair_iter()
    }

    /// The number of nodes that are alive.
    pub fn alive_count(&self) -> (n: usize)
        requires
            self.arena_wf(),
        ensures
            n == self.nodes().dom().len(),
    {
        self.pool.alive_count()
    }

    /// Whether `h` is the handle of a node that is alive.
    pub fn is_valid_handle(&self, h: Handle) -> (b: bool)
        ensures
            b == self.contains(h),
    {
        self.pool.is_valid_handle(h)
    }

    /// The node under `h`.
    pub fn get(&self, h: Handle) -> (node: &Node)
        requires
            self.contains(h),
        ensures
            *node == self.nodes()[h],
    {
        self.pool.borrow(h)
    }

    /// The node under `h`, for change. The graph afterwards is the graph
    /// before with that node as the borrower left it; it is still a tree if
    /// the borrower left the links of the node as they were.
    pub fn get_mut(&mut self, h: Handle) -> (node: &mut Node)
        requires
            old(self).contains(h),
        ensures
            *node == old(self).nodes()[h],
            final(self).nodes() == old(self).nodes().insert(h, *final(node)),
            final(self).get_root() == old(self).get_root(),
            old(self).arena_wf() ==> final(self).arena_wf(),
            old(self).arena_wf() ==> forall|k: nat| final(self).upcoming(k) == old(self).upcoming(k),
            final(self).capacity() == old(self).capacity(),
            forall|i: int|
                0 <= i < old(self).capacity() ==> final(self).handle_at(i) == old(self).handle_at(
                    i,
                ),
    {
        self.pool.borrow_mut(h)
    }

    /// The nodes under two handles, for change at once, or the error that the
    /// two handles are the same. The graph afterwards is the graph before with
    /// those nodes as the borrower left them.
    pub fn get_two_mut(&mut self, nodes: (Handle, Handle)) -> (r: Result<
        (&mut Node, &mut Node),
        BorrowError,
    >)
        requires
            old(self).contains(nodes.0),
            old(self).contains(nodes.1),
        ensures
            r is Err <==> nodes.0 == nodes.1,
            (match r {
                Ok((a, b)) => {
                    &&& *a == old(self).nodes()[nodes.0]
                    &&& *b == old(self).nodes()[nodes.1]
                    &&& final(self).nodes() == old(self).nodes().insert(nodes.0, *final(a)).insert(
                        nodes.1,
                        *final(b),
                    )
                },
                Err(e) => e == BorrowError::Overlap && final(self).nodes() == old(self).nodes(),
            }),
            final(self).get_root() == old(self).get_root(),
            old(self).arena_wf() ==> final(self).arena_wf(),
            old(self).arena_wf() ==> forall|k: nat| final(self).upcoming(k) == old(self).upcoming(k),
            final(self).capacity() == old(self).capacity(),
            forall|i: int|
                0 <= i < old(self).capacity() ==> final(self).handle_at(i) == old(self).handle_at(
                    i,
                ),
    {
        self.pool.borrow_two_mut(nodes)
    }

    /// The nodes under three handles, for change at once, or the error that
    /// two of the handles are the same.
    pub fn get_three_mut(&mut self, nodes: (Handle, Handle, Handle)) -> (r: Result<
        (&mut Node, &mut Node, &mut Node),
        BorrowError,
    >)
        requires
            old(self).contains(nodes.0),
            old(self).contains(nodes.1),
            old(self).contains(nodes.2),
        ensures
            r is Err <==> nodes.0 == nodes.1 || nodes.0 == nodes.2 || nodes.1 == nodes.2,
            (match r {
                Ok((a, b, c)) => {
                    &&& *a == old(self).nodes()[nodes.0]
                    &&& *b == old(self).nodes()[nodes.1]
                    &&& *c == old(self).nodes()[nodes.2]
                    &&& final(self).nodes() == old(self).nodes().insert(nodes.0, *final(a)).insert(
                        nodes.1,
                        *final(b),
                    ).insert(nodes.2, *final(c))
                },
                Err(e) => e == BorrowError::Overlap && final(self).nodes() == old(self).nodes(),
            }),
            final(self).get_root() == old(self).get_root(),
            old(self).arena_wf() ==> final(self).arena_wf(),
            old(self).arena_wf() ==> forall|k: nat| final(self).upcoming(k) == old(self).upcoming(k),
            final(self).capacity() == old(self).capacity(),
            forall|i: int|
                0 <= i < old(self).capacity() ==> final(self).handle_at(i) == old(self).handle_at(
                    i,
                ),
    {
        self.pool.borrow_three_mut(nodes)
    }

    /// The nodes under four handles, for change at once, or the error that
    /// two of the handles are the same.
    pub fn get_four_mut(&mut self, nodes: (Handle, Handle, Handle, Handle)) -> (r: Result<
        (&mut Node, &mut Node, &mut Node, &mut Node),
        BorrowError,
    >)
        requires
            old(self).contains(nodes.0),
            old(self).contains(nodes.1),
            old(self).contains(nodes.2),
            old(self).contains(nodes.3),
        ensures
            r is Err <==> nodes.0 == nodes.1 || nodes.0 == nodes.2 || nodes.0 == nodes.3
                || nodes.1 == nodes.2 || nodes.1 == nodes.3 || nodes.2 == nodes.3,
            (match r {
                Ok((a, b, c, d)) => {
                    &&& *a == old(self).nodes()[nodes.0]
                    &&& *b == old(self).nodes()[nodes.1]
                    &&& *c == old(self).nodes()[nodes.2]
                    &&& *d == old(self).nodes()[nodes.3]
                    &&& final(self).nodes() == old(self).nodes().insert(nodes.0, *final(a)).insert(
                        nodes.1,
                        *final(b),
                    ).insert(nodes.2, *final(c)).insert(nodes.3, *final(d))
                },
                Err(e) => e == BorrowError::Overlap && final(self).nodes() == old(self).nodes(),
            }),
            final(self).get_root() == old(self).get_root(),
            old(self).arena_wf() ==> final(self).arena_wf(),
            old(self).arena_wf() ==> forall|k: nat| final(self).upcoming(k) == old(self).upcoming(k),
            final(self).capacity() == old(self).capacity(),
            forall|i: int|
                0 <= i < old(self).capacity() ==> final(self).handle_at(i) == old(self).handle_at(
                    i,
                ),
    {
        self.pool.borrow_four_mut(nodes)
    }

    /// The node in slot `i` of the arena, for change, if the slot holds one:
    /// with `i` going up from 0 to the capacity, the nodes in the order of
    /// the slots. This is no traversal of the tree.
    pub fn linear_iter_mut(&mut self, i: usize) -> (r: Option<&mut Node>)
        ensures
            r is Some <==> i < old(self).capacity() && old(self).contains(
                old(self).handle_at(i as int),
            ),
            (match r {
                Some(node) => {
                    &&& *node == old(self).nodes()[old(self).handle_at(i as int)]
                    &&& final(self).nodes() == old(self).nodes().insert(
                        old(self).handle_at(i as int),
                        *final(node),
                    )
                },
                None => final(self).nodes() == old(self).nodes(),
            }),
            final(self).get_root() == old(self).get_root(),
            old(self).arena_wf() ==> final(self).arena_wf(),
            old(self).arena_wf() ==> forall|k: nat| final(self).upcoming(k) == old(self).upcoming(k),
            final(self).capacity() == old(self).capacity(),
            forall|k: int|
                0 <= k < old(self).capacity() ==> final(self).handle_at(k) == old(self).handle_at(
                    k,
                ),
    {
        match self.pool.at_mut(i) {
            Some((_, node)) => Some(node),
            None => None,
        }
    }

    /// The node in slot `i` of the arena with its handle, for change, if the
    /// slot holds one.
    pub fn pair_iter_mut(&mut self, i: usize) -> (r: Option<(Handle, &mut Node)>)
        ensures
            r is Some <==> i < old(self).capacity() && old(self).contains(
                old(self).handle_at(i as int),
            ),
            (match r {
                Some((h, node)) => {
                    &&& h == old(self).handle_at(i as int)
                    &&& *node == old(self).nodes()[h]
                    &&& final(self).nodes() == old(self).nodes().insert(h, *final(node))
                },
                None => final(self).nodes() == old(self).nodes(),
            }),
            final(self).get_root() == old(self).get_root(),
            old(self).arena_wf() ==> final(self).arena_wf(),
            old(self).arena_wf() ==> forall|k: nat| final(self).upcoming(k) == old(self).upcoming(k),
            final(self).capacity() == old(self).capacity(),
            forall|k: int|
                0 <= k < old(self).capacity() ==> final(self).handle_at(k) == old(self).handle_at(
                    k,
                ),
    {
        self.pool.at_mut(i)
    }

    /// The graph after a change to the node under `h` that left its links as
    /// they were: the hierarchy is the same, and only what that node carries
    /// is new.
    pub proof fn lemma_changed_node(&self, after: &Graph, h: Handle)
        requires
            self.contains(h),
            after.get_root() == self.get_root(),
            after.nodes() == self.nodes().insert(h, after.nodes()[h]),
            after.node(h).base.parent == self.node(h).base.parent,
            after.node(h).base.children == self.node(h).base.children,
        ensures
            after@.tree == self@.tree,
            after@.payloads == self@.payloads.insert(h, payload(after.node(h))),
    {
        assert(after@.tree.links =~= self@.tree.links);
        assert(after@.payloads =~= self@.payloads.insert(h, payload(after.node(h))));
    }

    /// Cuts the node under `h` off from its parent.
    fn unlink_internal(&mut self, h: Handle)
        requires
            old(self).wf(),
            old(self).contains(h),
        ensures
            final(self)@.tree == old(self)@.tree.detach(h),
            final(self)@.payloads == old(self)@.payloads,
            final(self).arena_wf(),
            final(self).get_root() == old(self).get_root(),
            final(self).capacity() == old(self).capacity(),
            forall|x: Handle| final(self).contains(x) == old(self).contains(x),
            forall|x: Handle|
                old(self).contains(x) && x != h && x != old(self)@.tree.parent(h)
                    ==> final(self).nodes()[x] == old(self).nodes()[x],
            forall|i: int|
                0 <= i < old(self).capacity() ==> final(self).handle_at(i) == old(self).handle_at(
                    i,
                ),
            final(self).next_handle() == old(self).next_handle(),
            forall|k: nat| final(self).upcoming(k) == old(self).upcoming(k),
    {
        let ghost t = self@.tree;
        let parent = self.pool.borrow(h).base().parent();
        assert(parent == t.parent(h));
        proof {
            t.lemma_parent(h);
            t.lemma_root();
        }
        self.pool.borrow_mut(h).base_mut().set_parent(Handle::none());
        if parent.is_some() {
            self.pool.borrow_mut(parent).base_mut().remove_child(h);
        }
        proof {
            assert forall|x: Handle| self.contains(x) implies self@.tree.links[x] == t.detach(
                h,
            ).links[x] by {
                if x != parent {
                    t.lemma_children(x);
                    crate::tree::lemma_remove_value(t.children(x), h);
                }
            }
            assert(self@.tree.links =~= t.detach(h).links);
            assert(self@.payloads =~= old(self)@.payloads);
        }
    }

    /// Makes the node under `h`, which has no parent, the last child of `p`.
    fn attach(&mut self, h: Handle, p: Handle)
        requires
            old(self).arena_wf(),
            old(self).contains(h),
            old(self).contains(p),
            h != p,
        ensures
            final(self)@.tree == old(self)@.tree.attach(h, p),
            final(self)@.payloads == old(self)@.payloads,
            final(self).arena_wf(),
            final(self).get_root() == old(self).get_root(),
            final(self).capacity() == old(self).capacity(),
            forall|x: Handle| final(self).contains(x) == old(self).contains(x),
            forall|x: Handle|
                old(self).contains(x) && x != h && x != p ==> final(self).nodes()[x]
                    == old(self).nodes()[x],
            forall|i: int|
                0 <= i < old(self).capacity() ==> final(self).handle_at(i) == old(self).handle_at(
                    i,
                ),
            final(self).next_handle() == old(self).next_handle(),
            forall|k: nat| final(self).upcoming(k) == old(self).upcoming(k),
    {
        self.pool.borrow_mut(h).base_mut().set_parent(p);
        self.pool.borrow_mut(p).base_mut().push_child(h);
        proof {
            assert(self@.tree.links =~= old(self)@.tree.attach(h, p).links);
            assert(self@.payloads =~= old(self)@.payloads);
        }
    }

    /// Adds `node` to the graph as the last child of the root and returns its
    /// handle. Whatever links the node came with are dropped.
    pub fn add_node(&mut self, node: Node) -> (h: Handle)
        requires
            old(self).wf(),
        ensures
            final(self).wf(),
            h == old(self).next_handle(),
            h != Handle::none(),
            !old(self).contains(h),
            final(self)@.tree == old(self)@.tree.add(h),
            final(self)@.payloads == old(self)@.payloads.insert(h, payload(node@)),
            final(self).get_root() == old(self).get_root(),
            forall|x: Handle| final(self).contains(x) <==> old(self).contains(x) || x == h,
            !old(self).is_stale(h),
            forall|x: Handle| old(self).is_stale(x) ==> final(self).is_stale(x),
            forall|k: nat| final(self).upcoming(k) == old(self).upcoming(k + 1),
    {
        let mut node = node;
        let ghost carried = payload(node@);
        proof {
            self@.tree.lemma_root();
            self.pool.lemma_alive(self.root);
        }
        node.base_mut().set_parent(Handle::none());
        node.base_mut().set_children(Vec::new());
        assert(payload(node@) == carried);
        let h = self.pool.spawn(node);
        let ghost mid = *self;
        assert(mid@.tree.links =~= old(self)@.tree.with_leaf(h).links);
        assert(mid@.payloads =~= old(self)@.payloads.insert(h, carried));
        assert forall|x: Handle| old(self).is_stale(x) implies mid.is_stale(x) by {
            assert(old(self).pool.is_stale(x));
            assert(mid.pool.is_stale(x));
        }
        let root = self.root;
        self.attach(h, root);
        proof {
            old(self)@.tree.lemma_add_wf(h);
            assert forall|x: Handle| self.contains(x) <==> old(self).contains(x) || x == h by {}
            assert forall|x: Handle| old(self).is_stale(x) implies self.is_stale(x) by {
                assert(mid.is_stale(x));
                if x.slot() < mid.capacity() {
                    assert(self.handle_at(x.slot() as int) == mid.handle_at(x.slot() as int));
                }
            }
            assert(!old(self).pool.is_stale(h));
        }
        h
    }

    /// Adds `node` to the graph as the last child of `parent` and returns its
    /// handle. Whatever links the node came with are dropped.
    pub fn add_child(&mut self, node: Node, parent: Handle) -> (h: Handle)
        requires
            old(self).wf(),
            old(self).contains(parent),
        ensures
            final(self).wf(),
            h == old(self).next_handle(),
            h != Handle::none(),
            !old(self).contains(h),
            final(self)@.tree == old(self)@.tree.with_child(h, parent),
            final(self)@.payloads == old(self)@.payloads.insert(h, payload(node@)),
            final(self).get_root() == old(self).get_root(),
            forall|x: Handle| final(self).contains(x) <==> old(self).contains(x) || x == h,
            !old(self).is_stale(h),
            forall|x: Handle| old(self).is_stale(x) ==> final(self).is_stale(x),
            forall|k: nat| final(self).upcoming(k) == old(self).upcoming(k + 1),
    {
        let h = self.add_node(node);
        let ghost mid = *self;
        proof {
            let a = self@.tree;
            let t = old(self)@.tree;
            t.lemma_root();
            assert(t.with_leaf(h).contains(h));
            assert(t.with_leaf(h).children(h) =~= Seq::<Handle>::empty());
            assert(a.children(h) =~= Seq::<Handle>::empty());
            if a.in_subtree(parent, h) {
                a.lemma_leaf(h, parent);
            }
        }
        self.link_nodes(h, parent);
        proof {
            assert forall|x: Handle| old(self).is_stale(x) implies self.is_stale(x) by {
                assert(mid.is_stale(x));
                assert(self.handle_at(x.slot() as int) == mid.handle_at(x.slot() as int));
            }
        }
        h
    }

    /// The handles of the slots of the arena, in order.
    pub open spec fn slots(&self) -> Seq<Handle> {
        Seq::new(self.capacity(), |i: int| self.handle_at(i))
    }

    /// The handle of the node in slot `i` of the arena, or `Handle::none()`
    /// if the slot holds no node.
    pub fn handle_from_index(&self, i: usize) -> (h: Handle)
        ensures
            h == if i < self.capacity() && self.contains(self.handle_at(i as int)) {
                self.handle_at(i as int)
            } else {
                Handle::none()
            },
    {
        self.pool.handle_from_index(i)
    }

    /// The handle of a slot, told from `Handle::none()`: no node is alive
    /// under `Handle::none()`.
    pub proof fn lemma_none(&self)
        requires
            self.arena_wf(),
        ensures
            !self.contains(Handle::none()),
    {
        if self.contains(Handle::none()) {
            self.pool.lemma_alive(Handle::none());
        }
    }

    /// The first node in the order of the slots, from slot `i` on, that has
    /// the name `name`, or `Handle::none()` if there is none.
    pub open spec fn scan_named(&self, name: Seq<char>, i: nat) -> Handle
        decreases self.capacity() - i,
    {
        if i >= self.capacity() {
            Handle::none()
        } else if self.contains(self.handle_at(i as int)) && self.node(
            self.handle_at(i as int),
        ).base.name == name {
            self.handle_at(i as int)
        } else {
            self.scan_named(name, i + 1)
        }
    }

    /// The first node in the order of the slots that has the name `name`, or
    /// `Handle::none()` if there is none.
    pub open spec fn spec_first_named(&self, name: Seq<char>) -> Handle {
        self.scan_named(name, 0)
    }

    /// The first node in the order of the slots that has the same name as
    /// `base`, or `Handle::none()` if there is none.
    pub fn first_named(&self, base: &Base) -> (r: Handle)
        requires
            self.arena_wf(),
        ensures
            r == self.spec_first_named(base@.name),
            r != Handle::none() ==> self.contains(r),
    {
        let n = self.pool.get_capacity();
        let mut i: usize = 0;
        while i < n
            invariant
                self.arena_wf(),
                n == self.capacity(),
                i <= n,
                self.scan_named(base@.name, i as nat) == self.spec_first_named(base@.name),
            decreases n - i,
        {
            let h = self.pool.handle_from_index(i);
            if h.is_some() {
                if self.pool.borrow(h).base().same_name(base) {
                    return h;
                }
            } else {
                proof {
                    self.lemma_none();
                }
            }
            i += 1;
        }
        Handle::none()
    }

    /// Whether a stored graph may be loaded into this one. The handles of a
    /// stored graph name slots, so it can be loaded only where no slot is in
    /// use yet: into a graph whose arena has no slots.
    pub fn can_load(&self) -> (b: bool)
        ensures
            b == (self.capacity() == 0),
    {
        self.pool.get_capacity() == 0
    }

    /// The number of slots of the arena that holds the nodes.
    pub fn get_capacity(&self) -> (n: usize)
        ensures
            n == self.capacity(),
    {
        self.pool.get_capacity()
    }

    /// Moves the node under `child`, with all that lies under it, to the end
    /// of the children of `parent`. The caller sees to it that `parent` does
    /// not lie under `child`: the move would close a cycle.
    pub fn link_nodes(&mut self, child: Handle, parent: Handle)
        requires
            old(self).wf(),
            old(self).contains(child),
            old(self).contains(parent),
            !old(self)@.tree.in_subtree(parent, child),
        ensures
            final(self).wf(),
            final(self)@.tree == old(self)@.tree.relink(child, parent),
            final(self)@.payloads == old(self)@.payloads,
            final(self).get_root() == old(self).get_root(),
            final(self).capacity() == old(self).capacity(),
            forall|x: Handle| final(self).contains(x) == old(self).contains(x),
            forall|i: int|
                0 <= i < old(self).capacity() ==> final(self).handle_at(i) == old(self).handle_at(
                    i,
                ),
            final(self).next_handle() == old(self).next_handle(),
            forall|k: nat| final(self).upcoming(k) == old(self).upcoming(k),
    {
        proof {
            old(self)@.tree.lemma_subtree_self(child);
            old(self)@.tree.lemma_relink_wf(child, parent);
        }
        self.unlink_internal(child);
        self.attach(child, parent);
    }

    /// Moves the node under `h` to the end of the children of the root, and
    /// puts it at the origin: its old position was meant for the frame of the
    /// parent that it left.
    pub fn unlink_node(&mut self, h: Handle)
        requires
            old(self).wf(),
            old(self).contains(h),
            h != old(self).get_root(),
        ensures
            final(self).wf(),
            final(self)@.tree == old(self)@.tree.relink(h, old(self).get_root()),
            final(self)@.payloads == old(self)@.payloads.insert(
                h,
                (NodeView {
                    base: BaseView {
                        local_transform: old(self)@.payloads[h].base.local_transform.with_position(
                            Vec3::zero(),
                        ),
                        ..old(self)@.payloads[h].base
                    },
                    ..old(self)@.payloads[h]
                }),
            ),
            final(self).get_root() == old(self).get_root(),
            final(self).capacity() == old(self).capacity(),
            forall|x: Handle| final(self).contains(x) == old(self).contains(x),
            forall|i: int|
                0 <= i < old(self).capacity() ==> final(self).handle_at(i) == old(self).handle_at(i),
            forall|k: nat| final(self).upcoming(k) == old(self).upcoming(k),
            final(self).node(h).base.local_transform == old(self).node(
                h,
            ).base.local_transform.with_position(Vec3::zero()),
            final(self).node(h).base.local_transform.position() == Vec3::zero(),
            final(self).node(h).base.local_transform.rotation() == old(self).node(
                h,
            ).base.local_transform.rotation(),
            final(self).node(h).base.local_transform.scale() == old(self).node(
                h,
            ).base.local_transform.scale(),
    {
        proof {
            let t = self@.tree;
            t.lemma_parent(h);
            if t.in_subtree(t.root, h) {
                t.lemma_under_root(h);
                t.lemma_subtree_antisymmetric(t.root, h);
            }
        }
        let root = self.root;
        self.link_nodes(h, root);
        let ghost mid = *self;
        self.pool.borrow_mut(h).base_mut().set_position(Vec3::zero());
        proof {
            mid.lemma_changed_node(&*self, h);
            mid.node(h).base.local_transform.lemma_with_position(Vec3::zero());
        }
    }

    /// Removes the node under `h` and all that lies under it, and nothing
    /// else. Removing the root leaves no node at all.
    pub fn remove_node(&mut self, h: Handle)
        requires
            old(self).wf(),
            old(self).contains(h),
        ensures
            final(self)@.tree == old(self)@.tree.without_subtree(h),
            final(self)@.payloads == old(self)@.payloads.remove_keys(old(self)@.tree.subtree(h)),
            forall|x: Handle|
                final(self).contains(x) <==> old(self).contains(x) && !old(self)@.tree.in_subtree(
                    x,
                    h,
                ),
            final(self).nodes().dom().len() == old(self).nodes().dom().len()
                - old(self)@.tree.subtree(h).len(),
            final(self).arena_wf(),
            h != old(self).get_root() ==> final(self).wf(),
            final(self).get_root() == old(self).get_root(),
            final(self).capacity() == old(self).capacity(),
            forall|i: int|
                0 <= i < old(self).capacity() ==> final(self).handle_at(i) == old(self).handle_at(
                    i,
                ),
            forall|x: Handle| old(self)@.tree.in_subtree(x, h) ==> final(self).is_stale(x),
            forall|x: Handle| old(self).is_stale(x) ==> final(self).is_stale(x),
            forall|k: nat|
                final(self).upcoming(k) == upcoming_after(
                    old(self)@.tree.dfs_order(h, false),
                    |j: nat| old(self).upcoming(j),
                    k,
                ),
    {
        let ghost t = self@.tree;
        let ghost order = t.dfs_order(h, false);
        let ghost first = |j: nat| old(self).upcoming(j);
        self.unlink_internal(h);
        let ghost mid = *self;
        self.stack.clear();
        self.stack.push(h);
        let ghost mut n: nat = 0;
        proof {
            t.lemma_dfs_start(h, false);
            assert(self.stack@ =~= t.dfs_stack(h, 0, false));
            old(self).lemma_finite();
            mid.lemma_finite();
            assert(mid.nodes().dom() =~= old(self).nodes().dom());
            assert(order.take(0) =~= Seq::<Handle>::empty());
        }
        while self.stack.len() > 0
            invariant
                t.wf(),
                t.contains(h),
                t == old(self)@.tree,
                mid@.tree == t.detach(h),
                mid@.payloads == old(self)@.payloads,
                forall|x: Handle| mid.contains(x) == old(self).contains(x),
                self.stack@ == t.dfs_stack(h, n, false),
                t.dfs_inv(h, n, false),
                self.arena_wf(),
                self.root == old(self).root,
                self.capacity() == old(self).capacity(),
                forall|i: int|
                    0 <= i < old(self).capacity() ==> self.handle_at(i) == old(self).handle_at(i),
                forall|x: Handle|
                    self.contains(x) <==> old(self).contains(x) && !t.dfs_visited(
                        h,
                        n,
                        false,
                    ).contains(x),
                forall|x: Handle| self.contains(x) ==> self.nodes()[x] == mid.nodes()[x],
                old(self).nodes().dom().finite(),
                t.links.dom() == old(self).nodes().dom(),
                self.nodes().dom().len() == old(self).nodes().dom().len() - n,
                forall|x: Handle| old(self).is_stale(x) ==> self.is_stale(x),
                forall|x: Handle| t.dfs_visited(h, n, false).contains(x) ==> self.is_stale(x),
                order == t.dfs_order(h, false),
                first == |j: nat| old(self).upcoming(j),
                n <= order.len(),
                forall|k: nat| self.upcoming(k) == upcoming_after(order.take(n as int), first, k),
            decreases old(self).nodes().dom().len() - n,
        {
            let ghost s = self.stack@;
            let ghost head = *self;
            let handle = self.stack.pop().unwrap();
            proof {
                t.lemma_dfs_top(h, n, false);
                t.lemma_subtree_depth(handle, h);
                assert(!t.children(handle).contains(h)) by {
                    t.lemma_children(handle);
                    if t.children(handle).contains(h) {
                        t.lemma_parent(h);
                        t.lemma_parent(handle);
                        t.lemma_depth(h);
                    }
                }
                crate::tree::lemma_remove_value(t.children(handle), h);
                assert(mid@.tree.links[handle].children == t.children(handle));
                t.lemma_dfs_step(h, n, false);
                t.lemma_dfs_visited(h, n + 1, false);
                self.lemma_finite();
            }
            push_all(&mut self.stack, self.pool.borrow(handle).base().children(), false);
            let ghost prev = *self;
            self.pool.free(handle);
            proof {
                assert(prev.pool == head.pool);
                assert forall|x: Handle| head.is_stale(x) implies self.is_stale(x) by {
                    assert(prev.pool.is_stale(x));
                    assert(self.pool.is_stale(x));
                }
                assert(self.pool.is_stale(handle));
                assert(order[n as int] == handle);
                assert(order.take(n as int + 1) =~= order.take(n as int) + seq![handle]);
                assert(prev.pool == head.pool);
                assert forall|j: nat|
                    #[trigger] prev.pool.upcoming(j) == upcoming_after(
                        order.take(n as int),
                        first,
                        j,
                    ) by {
                    assert(head.upcoming(j) == upcoming_after(order.take(n as int), first, j));
                }
                assert forall|k: nat|
                    self.upcoming(k) == upcoming_after(order.take(n as int + 1), first, k) by {
                    lemma_upcoming_after(order.take(n as int), seq![handle], first, k);
                    lemma_upcoming_after_same(
                        seq![handle],
                        |j: nat| prev.pool.upcoming(j),
                        |j: nat| upcoming_after(order.take(n as int), first, j),
                        k,
                    );
                }
                assert forall|x: Handle|
                    t.dfs_visited(h, n + 1, false).contains(x) implies self.is_stale(x) by {
                    if x != handle {
                        assert(t.dfs_visited(h, n, false).contains(x));
                        assert(head.is_stale(x));
                        assert(prev.pool == head.pool);
                        assert(prev.is_stale(x));
                    }
                }
                n = n + 1;
            }
        }
        proof {
            t.lemma_dfs_end(h, n, false);
            assert(order.take(n as int) =~= order);
            assert forall|x: Handle| t.in_subtree(x, h) implies self.is_stale(x) by {
                assert(t.subtree(h).contains(x));
            }
            assert forall|x: Handle| self.contains(x) implies self@.tree.links[x]
                == t.without_subtree(h).links[x] by {
                t.lemma_subtree_self(h);
                assert(mid@.tree.links[x] == t.detach(h).links[x]);
            }
            assert(self@.tree.links =~= t.without_subtree(h).links);
            assert(self@.payloads =~= old(self)@.payloads.remove_keys(t.subtree(h)));
            if h != t.root {
                t.lemma_without_subtree_wf(h);
            }
        }
    }

    /// The node `node` with the global transform and visibility that `view`
    /// gives to `h`.
    pub open spec fn propagated(view: GraphView, h: Handle, node: NodeView) -> NodeView {
        NodeView {
            base: BaseView {
                global_transform: view.global_transform(h),
                global_visibility: view.global_visibility(h),
                ..node.base
            },
            ..node
        }
    }

    /// Recomputes the global transform and the global visibility of every
    /// node from the local values, parents before children.
    pub fn update_transforms(&mut self)
        requires
            old(self).wf(),
        ensures
            final(self).wf(),
            final(self)@.tree == old(self)@.tree,
            final(self).get_root() == old(self).get_root(),
            final(self).capacity() == old(self).capacity(),
            forall|x: Handle| final(self).contains(x) == old(self).contains(x),
            forall|i: int|
                0 <= i < old(self).capacity() ==> final(self).handle_at(i) == old(self).handle_at(
                    i,
                ),
            final(self).next_handle() == old(self).next_handle(),
            forall|k: nat| final(self).upcoming(k) == old(self).upcoming(k),
            forall|x: Handle|
                old(self).contains(x) ==> #[trigger] final(self).node(x) == Self::propagated(
                    old(self)@,
                    x,
                    old(self).node(x),
                ),
            final(self)@.transforms_current(),
    {
        let ghost g = self@;
        let ghost t = self@.tree;
        let root = self.root;
        self.stack.clear();
        self.stack.push(root);
        let ghost mut n: nat = 0;
        proof {
            t.lemma_root();
            t.lemma_dfs_start(root, false);
            assert(self.stack@ =~= t.dfs_stack(root, 0, false));
            self.lemma_finite();
        }
        while self.stack.len() > 0
            invariant
                t.wf(),
                g == old(self)@,
                t == g.tree,
                root == t.root,
                self.root == root,
                self@.tree == t,
                self.stack@ == t.dfs_stack(root, n, false),
                t.dfs_inv(root, n, false),
                self.arena_wf(),
                self.capacity() == old(self).capacity(),
                self.next_handle() == old(self).next_handle(),
                forall|k: nat| self.upcoming(k) == old(self).upcoming(k),
                forall|i: int|
                    0 <= i < old(self).capacity() ==> self.handle_at(i) == old(self).handle_at(i),
                forall|x: Handle| self.contains(x) == old(self).contains(x),
                forall|x: Handle|
                    old(self).contains(x) ==> #[trigger] self.node(x) == (if t.dfs_visited(
                        root,
                        n,
                        false,
                    ).contains(x) {
                        Self::propagated(g, x, old(self).node(x))
                    } else {
                        old(self).node(x)
                    }),
                t.links.dom().finite(),
            decreases t.links.dom().len() - n,
        {
            let ghost s = self.stack@;
            let ghost before = *self;
            let handle = self.stack.pop().unwrap();
            proof {
                t.lemma_dfs_top(root, n, false);
                assert(t.contains(handle));
                t.lemma_dfs_step(root, n, false);
                t.lemma_dfs_visited(root, n + 1, false);
                g.lemma_global_step(handle);
                t.lemma_parent(handle);
                assert(self@.tree.links[handle] == t.links[handle]);
            }
            let parent = self.pool.borrow(handle).base().parent();
            let (parent_transform, parent_visibility) = if parent.is_some() {
                assert(t.contains(t.parent(handle)));
                let base = self.pool.borrow(parent).base();
                (base.global_transform(), base.global_visibility())
            } else {
                (Mat4::identity(), true)
            };
            let base = self.pool.borrow(handle).base();
            let transform = parent_transform.mul(base.local_transform().matrix());
            let visibility = parent_visibility && base.visibility();
            assert(transform == g.global_transform(handle));
            assert(visibility == g.global_visibility(handle));
            self.pool.borrow_mut(handle).base_mut().set_global(transform, visibility);
            push_all(&mut self.stack, self.pool.borrow(handle).base().children(), false);
            proof {
                n = n + 1;
                assert(self@.tree.links =~= t.links);
            }
        }
        proof {
            t.lemma_dfs_end(root, n, false);
            assert forall|x: Handle| old(self).contains(x) implies #[trigger] self.node(x)
                == Self::propagated(g, x, old(self).node(x)) by {
                t.lemma_under_root(x);
            }
            assert forall|h: Handle| #[trigger] self@.tree.contains(h)
                implies self@.payloads[h].base.global_transform
                == self@.global_transform(h) && self@.payloads[h].base.global_visibility
                == self@.global_visibility(h) by {
                t.lemma_under_root(h);
                assert(self.node(h) == Self::propagated(g, h, old(self).node(h)));
                assert forall|x: Handle| #[trigger] g.tree.contains(x)
                    implies self@.payloads[x].base.local_transform
                    == g.payloads[x].base.local_transform && self@.payloads[x].base.visibility
                    == g.payloads[x].base.visibility by {
                    t.lemma_under_root(x);
                    assert(self.node(x) == Self::propagated(g, x, old(self).node(x)));
                }
                g.lemma_chain_depends(self@, h, t.depth(h));
            }
        }
    }

    /// Searches under `from`, depth first and the children of each node in
    /// their order, for a node named `name` or, if `by_name` is false, for
    /// the node that stands for `original`.
    fn search(&self, from: Handle, by_name: bool, name: &String, original: Handle) -> (r: Handle)
        requires
            self.wf(),
            self.contains(from),
        ensures
            r == self@.find(
                from,
                if by_name {
                    Query::Named(name@)
                } else {
                    Query::CopyOf(original)
                },
            ),
    {
        let ghost t = self@.tree;
        let ghost query = if by_name {
            Query::Named(name@)
        } else {
            Query::CopyOf(original)
        };
        let ghost order = t.dfs_order(from, true);
        let mut stack: Vec<Handle> = Vec::new();
        stack.push(from);
        let ghost mut n: nat = 0;
        proof {
            t.lemma_dfs_start(from, true);
            assert(stack@ =~= t.dfs_stack(from, 0, true));
            assert(order.skip(0) =~= order);
        }
        while stack.len() > 0
            invariant
                self.wf(),
                self.contains(from),
                t == self@.tree,
                order == t.dfs_order(from, true),
                query == (if by_name {
                    Query::Named(name@)
                } else {
                    Query::CopyOf(original)
                }),
                stack@ == t.dfs_stack(from, n, true),
                t.dfs_inv(from, n, true),
                n <= order.len(),
                self@.first_match(order.skip(n as int), query) == self@.first_match(order, query),
            decreases order.len() - n,
        {
            let handle = stack.pop().unwrap();
            proof {
                t.lemma_dfs_top(from, n, true);
                t.lemma_dfs_step(from, n, true);
                t.lemma_dfs_visited(from, n + 1, true);
                assert(order[n as int] == handle);
                assert(order.skip(n as int).drop_first() =~= order.skip(n as int + 1));
                assert(order.skip(n as int)[0] == handle);
            }
            let base = self.pool.borrow(handle).base();
            let found = if by_name {
                base.has_name(name)
            } else {
                base.original_handle() == original
            };
            assert(found == self@.answers(handle, query));
            if found {
                return handle;
            }
            push_all(&mut stack, base.children(), true);
            proof {
                n = n + 1;
            }
        }
        proof {
            t.lemma_dfs_end(from, n, true);
            assert(order.skip(n as int).len() == 0);
        }
        Handle::none()
    }

    /// Searches under `from` for the node that stands for the node `original`
    /// of a model. Returns `Handle::none()` if there is none.
    pub fn find_copy_of(&self, from: Handle, original: Handle) -> (r: Handle)
        requires
            self.wf(),
            self.contains(from),
        ensures
            r == self@.find(from, Query::CopyOf(original)),
    {
        let name = String::new();
        self.search(from, false, &name, original)
    }

    /// Searches under `from` for a node with exactly the name `name`.
    /// Returns `Handle::none()` if there is none.
    pub fn find_by_name(&self, from: Handle, name: &str) -> (r: Handle)
        requires
            self.wf(),
            self.contains(from),
        ensures
            r == self@.find(from, Query::Named(name@)),
    {
        let name = name.to_owned();
        self.search(from, true, &name, Handle::none())
    }

    /// Searches the whole graph for a node with exactly the name `name`.
    pub fn find_by_name_from_root(&self, name: &str) -> (r: Handle)
        requires
            self.wf(),
        ensures
            r == self@.find(self.get_root(), Query::Named(name@)),
    {
        proof {
            self@.tree.lemma_root();
        }
        self.find_by_name(self.root, name)
    }

    /// Whether the node under `node` is `ancestor` or lies under it: whether
    /// going up from `node` leads to `ancestor`. A node that lies under the
    /// node that is to be moved cannot be made its parent.
    pub fn lies_under(&self, node: Handle, ancestor: Handle) -> (b: bool)
        requires
            self.wf(),
            self.contains(node),
        ensures
            b == self@.tree.in_subtree(node, ancestor),
    {
        let ghost t = self@.tree;
        let mut handle = node;
        loop
            invariant
                self.wf(),
                t == self@.tree,
                self.contains(handle),
                t.in_subtree(node, ancestor) == t.in_subtree(handle, ancestor),
            decreases t.depth(handle),
        {
            proof {
                t.lemma_depth(handle);
                t.lemma_parent(handle);
                t.lemma_root();
            }
            if handle == ancestor {
                proof {
                    t.lemma_subtree_self(handle);
                }
                return true;
            }
            let parent = self.pool.borrow(handle).base().parent();
            if parent.is_none() {
                proof {
                    if t.in_subtree(handle, ancestor) {
                        t.lemma_under_root(ancestor);
                        t.lemma_subtree_antisymmetric(handle, ancestor);
                    }
                }
                return false;
            }
            proof {
                if t.contains(ancestor) {
                    t.lemma_subtree_parent(handle, ancestor);
                }
            }
            handle = parent;
        }
    }

    /// The root of the model instance that the node under `from` belongs to.
    pub fn find_model_root(&self, from: Handle) -> (r: Handle)
        requires
            self.wf(),
            self.contains(from),
        ensures
            r == self@.model_root(from),
            self.contains(r),
    {
        let ghost t = self@.tree;
        let mut handle = from;
        loop
            invariant
                self.wf(),
                t == self@.tree,
                self.contains(handle),
                self@.model_root(from) == self@.model_root(handle),
            decreases t.depth(handle),
        {
            let base = self.pool.borrow(handle).base();
            proof {
                t.lemma_depth(handle);
                t.lemma_parent(handle);
            }
            if base.parent().is_none() {
                return handle;
            }
            if base.is_resource_instance() {
                return handle;
            }
            handle = base.parent();
        }
    }

    /// A depth-first traversal of the nodes under `from`, which hands out the
    /// nodes. It keeps a stack of its own.
    pub fn traverse_iter(&self, from: Handle) -> (it: GraphTraverseIterator<'_>)
        requires
            self.wf(),
            self.contains(from),
        ensures
            it.wf(),
            it.graph() == self,
            it.start() == from,
            it.steps() == 0,
    {
        let mut stack: Vec<Handle> = Vec::new();
        stack.push(from);
        proof {
            self@.tree.lemma_dfs_start(from, false);
            assert(stack@ =~= self@.tree.dfs_stack(from, 0, false));
        }
        GraphTraverseIterator { graph: self, stack, start: Ghost(from), steps: Ghost(0) }
    }

    /// A depth-first traversal of the nodes under `from`, which hands out
    /// their handles. It keeps a stack of its own.
    pub fn traverse_handle_iter(&self, from: Handle) -> (it: GraphHandleTraverseIterator<'_>)
        requires
            self.wf(),
            self.contains(from),
        ensures
            it.wf(),
            it.graph() == self,
            it.start() == from,
            it.steps() == 0,
    {
        let mut stack: Vec<Handle> = Vec::new();
        stack.push(from);
        proof {
            self@.tree.lemma_dfs_start(from, false);
            assert(stack@ =~= self@.tree.dfs_stack(from, 0, false));
        }
        GraphHandleTraverseIterator { graph: self, stack, start: Ghost(from), steps: Ghost(0) }
    }
}

/// A traversal in progress that hands out nodes. The children of a node go on
/// the stack in their order, so the last child is handed out first.
pub struct GraphTraverseIterator<'a> {
    graph: &'a Graph,
    stack: Vec<Handle>,
    start: Ghost<Handle>,
    steps: Ghost<nat>,
}

impl<'a> GraphTraverseIterator<'a> {
    /// The graph that is traversed.
    pub closed spec fn graph(&self) -> &Graph {
        self.graph
    }

    /// The node at which the traversal began.
    pub closed spec fn start(&self) -> Handle {
        self.start@
    }

    /// The number of nodes handed out so far.
    pub closed spec fn steps(&self) -> nat {
        self.steps@
    }

    /// All the nodes that the traversal hands out, in order.
    pub open spec fn order(&self) -> Seq<Handle> {
        self.graph()@.tree.dfs_order(self.start(), false)
    }

    /// The traversal is over a graph that is a tree, and its stack is that of
    /// a traversal from its start after as many steps as it has taken.
    pub closed spec fn wf(&self) -> bool {
        &&& self.graph.wf()
        &&& self.graph.contains(self.start@)
        &&& self.steps@ <= self.graph@.tree.subtree(self.start@).len()
        &&& self.stack@ == self.graph@.tree.dfs_stack(self.start@, self.steps@, false)
        &&& self.graph@.tree.dfs_inv(self.start@, self.steps@, false)
    }

    /// The next node of the traversal, or `None` when every node under the
    /// start has been handed out.
    pub fn next(&mut self) -> (r: Option<&'a Node>)
        requires
            old(self).wf(),
        ensures
            final(self).wf(),
            final(self).graph() == old(self).graph(),
            final(self).start() == old(self).start(),
            final(self).steps() <= old(self).order().len(),
            old(self).steps() < old(self).order().len() ==> r is Some && old(self).graph().contains(
                old(self).order()[old(self).steps() as int],
            ) && *r->0 == old(self).graph().nodes()[old(self).order()[old(self).steps() as int]]
                && final(self).steps() == old(self).steps() + 1,
            old(self).steps() >= old(self).order().len() ==> r is None && final(self).steps()
                == old(self).steps(),
    {
        let ghost t = self.graph@.tree;
        let ghost from = self.start@;
        let ghost n = self.steps@;
        if self.stack.len() == 0 {
            proof {
                t.lemma_dfs_end(from, n, false);
            }
            return None;
        }
        let handle = self.stack.pop().unwrap();
        proof {
            t.lemma_dfs_top(from, n, false);
            t.lemma_dfs_step(from, n, false);
            t.lemma_dfs_visited(from, n + 1, false);
        }
        let node = self.graph.get(handle);
        push_all(&mut self.stack, node.base().children(), false);
        proof {
            self.steps@ = n + 1;
        }
        Some(node)
    }
}

/// A traversal in progress that hands out handles. The children of a node go
/// on the stack in their order, so the last child is handed out first.
pub struct GraphHandleTraverseIterator<'a> {
    graph: &'a Graph,
    stack: Vec<Handle>,
    start: Ghost<Handle>,
    steps: Ghost<nat>,
}

impl<'a> GraphHandleTraverseIterator<'a> {
    /// The graph that is traversed.
    pub closed spec fn graph(&self) -> &Graph {
        self.graph
    }

    /// The node at which the traversal began.
    pub closed spec fn start(&self) -> Handle {
        self.start@
    }

    /// The number of handles handed out so far.
    pub closed spec fn steps(&self) -> nat {
        self.steps@
    }

    /// All the handles that the traversal hands out, in order.
    pub open spec fn order(&self) -> Seq<Handle> {
        self.graph()@.tree.dfs_order(self.start(), false)
    }

    /// The traversal is over a graph that is a tree, and its stack is that of
    /// a traversal from its start after as many steps as it has taken.
    pub closed spec fn wf(&self) -> bool {
        &&& self.graph.wf()
        &&& self.graph.contains(self.start@)
        &&& self.steps@ <= self.graph@.tree.subtree(self.start@).len()
        &&& self.stack@ == self.graph@.tree.dfs_stack(self.start@, self.steps@, false)
        &&& self.graph@.tree.dfs_inv(self.start@, self.steps@, false)
    }

    /// The next handle of the traversal, or `None` when the handle of every
    /// node under the start has been handed out.
    pub fn next(&mut self) -> (r: Option<Handle>)
        requires
            old(self).wf(),
        ensures
            final(self).wf(),
            final(self).graph() == old(self).graph(),
            final(self).start() == old(self).start(),
            final(self).steps() <= old(self).order().len(),
            old(self).steps() < old(self).order().len() ==> r == Some(
                old(self).order()[old(self).steps() as int],
            ) && final(self).steps() == old(self).steps() + 1,
            old(self).steps() >= old(self).order().len() ==> r is None && final(self).steps()
                == old(self).steps(),
    {
        let ghost t = self.graph@.tree;
        let ghost from = self.start@;
        let ghost n = self.steps@;
        if self.stack.len() == 0 {
            proof {
                t.lemma_dfs_end(from, n, false);
            }
            return None;
        }
        let handle = self.stack.pop().unwrap();
        proof {
            t.lemma_dfs_top(from, n, false);
            t.lemma_dfs_step(from, n, false);
            t.lemma_dfs_visited(from, n + 1, false);
        }
        push_all(&mut self.stack, self.graph.get(handle).base().children(), false);
        proof {
            self.steps@ = n + 1;
        }
        Some(handle)
    }
}

} // verus!
