//! The passing of time in a graph: transforms are brought up to date, every
//! node is moved on by the time that has passed, and the nodes whose lifetime
//! has run out are removed with all that lies under them.

use vstd::prelude::*;
use crate::graph::{Graph, GraphView};
use crate::math::Vec2;
use crate::node::{ticked, NodeView};
use crate::pool::{lemma_upcoming_after, lemma_upcoming_after_same, upcoming_after, Handle};

verus! {

impl GraphView {
    /// The graph with every node moved on by the time `dt`.
    pub open spec fn ticked(self, frame_size: Vec2, dt: i64) -> GraphView {
        GraphView {
            tree: self.tree,
            payloads: Map::new(
                |h: Handle| self.payloads.contains_key(h),
                |h: Handle| ticked(self.payloads[h], frame_size, dt),
            ),
        }
    }

    /// The lifetime of the node `h` has run out.
    pub open spec fn expired(self, h: Handle) -> bool {
        self.payloads[h].base.lifetime matches Some(left) && left <= 0
    }

    /// The graph without `h` and all that lies under it.
    pub open spec fn without_subtree(self, h: Handle) -> GraphView {
        GraphView {
            tree: self.tree.without_subtree(h),
            payloads: self.payloads.remove_keys(self.tree.subtree(h)),
        }
    }

    /// The graph after a sweep over `slots`: for each handle in turn, if a
    /// node is still alive under it and its lifetime has run out, the node is
    /// removed with all that lies under it.
    pub open spec fn swept(self, slots: Seq<Handle>) -> GraphView
        decreases slots.len(),
    {
        if slots.len() == 0 {
            self
        } else {
            let h = slots[0];
            let next = if self.tree.contains(h) && self.expired(h) {
                self.without_subtree(h)
            } else {
                self
            };
            next.swept(slots.drop_first())
        }
    }
}

impl GraphView {
    /// The view is that of a graph in order: its hierarchy is a tree, and it
    /// says what each node of the tree carries.
    pub open spec fn wf(self) -> bool {
        self.tree.wf() && self.payloads.dom() == self.tree.links.dom()
    }

    /// The node `x` is to go: its lifetime has run out, or that of one of
    /// its ancestors has.
    pub open spec fn doomed(self, x: Handle) -> bool {
        exists|a: Handle| self.tree.in_subtree(x, a) && self.expired(a)
    }

    /// The node `x` is to go because of one of `slots`: the lifetime of one
    /// of them has run out, and `x` is that node or lies under it.
    pub open spec fn doomed_by(self, slots: Seq<Handle>, x: Handle) -> bool {
        exists|i: int|
            0 <= i < slots.len() && self.tree.in_subtree(x, #[trigger] slots[i]) && self.expired(
                slots[i],
            )
    }

    /// `now` is what is left of `self` after the nodes in `gone` were removed,
    /// each with all that lies under it.
    pub open spec fn left_after(self, now: GraphView, gone: Set<Handle>) -> bool {
        &&& now.tree.root == self.tree.root
        &&& now.payloads.dom() == now.tree.links.dom()
        &&& forall|x: Handle, y: Handle|
            gone.contains(x) && self.tree.in_subtree(y, x) ==> gone.contains(y)
        &&& forall|x: Handle| #[trigger]
            now.tree.contains(x) <==> self.tree.contains(x) && !gone.contains(x)
        &&& forall|x: Handle| #[trigger]
            now.tree.contains(x) ==> now.payloads[x] == self.payloads[x] && now.tree.parent(x)
                == self.tree.parent(x)
        &&& !gone.contains(self.tree.root) ==> now.tree.wf()
    }

    /// What is left after a removal has the same paths as before, as far as
    /// they start at a node that is left.
    proof fn lemma_left_paths(self, now: GraphView, gone: Set<Handle>, x: Handle, k: nat)
        requires
            self.tree.wf(),
            self.left_after(now, gone),
            now.tree.contains(x),
        ensures
            now.tree.ancestor(x, k) == self.tree.ancestor(x, k),
    {
        let t = self.tree;
        assert forall|i: nat| i < k implies t.parent(#[trigger] t.ancestor(x, i))
            == now.tree.parent(t.ancestor(x, i)) by {
            let y = t.ancestor(x, i);
            t.lemma_root();
            if t.contains(y) {
                assert(t.in_subtree(x, y));
                if gone.contains(y) {
                    assert(gone.contains(x));
                }
                assert(now.tree.contains(y));
            } else {
                assert(!now.tree.contains(y));
            }
        }
        t.lemma_same_ancestors(now.tree, x, k);
    }

    /// What lies under a node that is left is what lay under it before and is
    /// left.
    proof fn lemma_left_subtree(self, now: GraphView, gone: Set<Handle>, x: Handle, a: Handle)
        requires
            self.tree.wf(),
            self.left_after(now, gone),
            now.tree.contains(a),
        ensures
            now.tree.in_subtree(x, a) <==> self.tree.in_subtree(x, a) && !gone.contains(x),
    {
        if now.tree.in_subtree(x, a) {
            let k = choose|k: nat| now.tree.ancestor(x, k) == a;
            self.lemma_left_paths(now, gone, x, k);
        }
        if self.tree.in_subtree(x, a) && !gone.contains(x) {
            let k = choose|k: nat| self.tree.ancestor(x, k) == a;
            self.lemma_left_paths(now, gone, x, k);
        }
    }

    /// A sweep removes the nodes that are to go because of one of the slots
    /// it goes through, and nothing else.
    proof fn lemma_swept_from(self, now: GraphView, gone: Set<Handle>, slots: Seq<Handle>)
        requires
            self.tree.wf(),
            self.left_after(now, gone),
        ensures
            self.left_after(
                now.swept(slots),
                Set::new(|x: Handle| gone.contains(x) || self.doomed_by(slots, x)),
            ),
        decreases slots.len(),
    {
        let t = self.tree;
        let all = Set::new(|x: Handle| gone.contains(x) || self.doomed_by(slots, x));
        if slots.len() == 0 {
            assert(all =~= gone);
        } else {
            let h = slots[0];
            let rest = slots.drop_first();
            let removed = now.tree.contains(h) && now.expired(h);
            let next = if removed {
                now.without_subtree(h)
            } else {
                now
            };
            let more = if removed {
                Set::new(|x: Handle| gone.contains(x) || t.in_subtree(x, h))
            } else {
                gone
            };
            if removed {
                assert forall|x: Handle| #[trigger]
                    next.tree.contains(x) <==> t.contains(x) && !more.contains(x) by {
                    self.lemma_left_subtree(now, gone, x, h);
                }
                assert forall|x: Handle, y: Handle|
                    more.contains(x) && t.in_subtree(y, x) implies more.contains(y) by {
                    if !gone.contains(x) {
                        t.lemma_subtree_trans(y, x, h);
                    }
                }
                assert(next.payloads.dom() =~= next.tree.links.dom()) by {
                    assert forall|x: Handle|
                        next.payloads.dom().contains(x) <==> next.tree.links.dom().contains(
                            x,
                        ) by {
                        assert(now.payloads.dom().contains(x) <==> now.tree.contains(x));
                    }
                }
                t.lemma_root();
                if !more.contains(t.root) {
                    t.lemma_subtree_self(t.root);
                    assert(h != t.root) by {
                        if h == t.root {
                            t.lemma_subtree_self(h);
                        }
                    }
                    now.tree.lemma_without_subtree_wf(h);
                }
            }
            assert(self.left_after(next, more));
            self.lemma_swept_from(next, more, rest);
            let rest_all = Set::new(|x: Handle| more.contains(x) || self.doomed_by(rest, x));
            assert forall|x: Handle| all.contains(x) <==> rest_all.contains(x) by {
                if self.doomed_by(slots, x) {
                    let i = choose|i: int|
                        0 <= i < slots.len() && t.in_subtree(x, #[trigger] slots[i])
                            && self.expired(slots[i]);
                    if i == 0 {
                        if !removed {
                            assert(t.contains(h));
                            assert(!now.tree.contains(h));
                            assert(gone.contains(h));
                            assert(gone.contains(x));
                        }
                    } else {
                        assert(rest[i - 1] == slots[i]);
                    }
                }
                if self.doomed_by(rest, x) {
                    let i = choose|i: int|
                        0 <= i < rest.len() && t.in_subtree(x, #[trigger] rest[i]) && self.expired(
                            rest[i],
                        );
                    assert(slots[i + 1] == rest[i]);
                }
                if removed && t.in_subtree(x, h) {
                    assert(slots[0] == h);
                }
            }
            assert(all =~= rest_all);
        }
    }

    /// After a sweep over slots that hold every node, the nodes that are left
    /// are those whose lifetime has not run out and none of whose ancestors'
    /// has. They carry what they carried and have the parents they had, and
    /// if the root is among them they form a tree.
    pub proof fn lemma_swept(self, slots: Seq<Handle>)
        requires
            self.wf(),
            forall|x: Handle| #[trigger] self.tree.contains(x) ==> slots.contains(x),
        ensures
            forall|x: Handle|
                #[trigger] self.swept(slots).tree.contains(x) <==> self.tree.contains(x)
                    && !self.doomed(x),
            forall|x: Handle|
                #[trigger] self.swept(slots).tree.contains(x) ==> self.swept(slots).payloads[x]
                    == self.payloads[x] && self.swept(slots).tree.parent(x) == self.tree.parent(x),
            !self.doomed(self.tree.root) ==> self.swept(slots).wf(),
            self.swept(slots).tree.root == self.tree.root,
    {
        let none = Set::<Handle>::empty();
        assert(self.left_after(self, none));
        self.lemma_swept_from(self, none, slots);
        let all = Set::new(|x: Handle| none.contains(x) || self.doomed_by(slots, x));
        assert forall|x: Handle| self.tree.contains(x) implies (all.contains(x) <==> self.doomed(
            x,
        )) by {
            if self.doomed(x) {
                let a = choose|a: Handle| self.tree.in_subtree(x, a) && self.expired(a);
                assert(slots.contains(a));
                let i = choose|i: int| 0 <= i < slots.len() && slots[i] == a;
                assert(self.tree.in_subtree(x, slots[i]));
            }
        }
        self.tree.lemma_root();
    }
}

impl GraphView {
    /// The handles of the nodes that a sweep over `slots` removes, in the
    /// order in which it removes them: for each node whose lifetime has run
    /// out, the node and all that lies under it in the order of a traversal.
    pub open spec fn swept_freed(self, slots: Seq<Handle>) -> Seq<Handle>
        decreases slots.len(),
    {
        if slots.len() == 0 {
            Seq::empty()
        } else {
            let h = slots[0];
            if self.tree.contains(h) && self.expired(h) {
                self.tree.dfs_order(h, false) + self.without_subtree(h).swept_freed(
                    slots.drop_first(),
                )
            } else {
                self.swept_freed(slots.drop_first())
            }
        }
    }
}

impl Graph {
    /// Every node of the graph stands in one of its slots.
    pub proof fn lemma_slots(&self)
        ensures
            forall|x: Handle| self.contains(x) ==> self.slots().contains(x),
    {
        assert forall|x: Handle| self.contains(x) implies self.slots().contains(x) by {
            self.lemma_alive(x);
            assert(self.slots()[x.slot() as int] == x);
        }
    }

    /// Moves every node on by the time `dt`.
    fn tick_nodes(&mut self, frame_size: Vec2, dt: i64)
        requires
            old(self).wf(),
        ensures
            final(self).wf(),
            final(self)@ == old(self)@.ticked(frame_size, dt),
            final(self).get_root() == old(self).get_root(),
            final(self).capacity() == old(self).capacity(),
            final(self).slots() == old(self).slots(),
            forall|x: Handle| final(self).contains(x) == old(self).contains(x),
            forall|x: Handle| final(self).is_stale(x) == old(self).is_stale(x),
            forall|k: nat| final(self).upcoming(k) == old(self).upcoming(k),
    {
        let ghost a = self@;
        let capacity = self.get_capacity();
        let mut i: usize = 0;
        while i < capacity
            invariant
                self.wf(),
                i <= capacity,
                capacity == self.capacity(),
                capacity == old(self).capacity(),
                a == old(self)@,
                self.get_root() == old(self).get_root(),
                self@.tree == a.tree,
                forall|x: Handle| self.contains(x) == old(self).contains(x),
                forall|k: int|
                    0 <= k < capacity ==> self.handle_at(k) == old(self).handle_at(k),
                forall|k: nat| self.upcoming(k) == old(self).upcoming(k),
                forall|x: Handle|
                    self.contains(x) ==> #[trigger] self@.payloads[x] == (if x.slot() < i {
                        ticked(a.payloads[x], frame_size, dt)
                    } else {
                        a.payloads[x]
                    }),
            decreases capacity - i,
        {
            let ghost prev = *self;
            let h = self.handle_from_index(i);
            proof {
                self.lemma_slot(i as int);
                self.lemma_none();
            }
            if h.is_some() {
                self.get_mut(h).tick(frame_size, dt);
                proof {
                    prev.lemma_changed_node(&*self, h);
                }
            }
            proof {
                assert forall|x: Handle| self.contains(x) implies #[trigger] self@.payloads[x]
                    == (if x.slot()
                    < i + 1 {
                    ticked(a.payloads[x], frame_size, dt)
                } else {
                    a.payloads[x]
                }) by {
                    prev.lemma_alive(x);
                    assert(prev@.payloads[x] == (if x.slot() < i {
                        ticked(a.payloads[x], frame_size, dt)
                    } else {
                        a.payloads[x]
                    }));
                }
            }
            i += 1;
        }
        proof {
            assert forall|x: Handle| self.contains(x) implies self@.payloads[x] == ticked(
                a.payloads[x],
                frame_size,
                dt,
            ) by {
                self.lemma_alive(x);
            }
            assert(self@.payloads =~= a.ticked(frame_size, dt).payloads);
            assert(self.slots() =~= old(self).slots());
            assert forall|x: Handle| self.is_stale(x) == old(self).is_stale(x) by {
                if x.slot() < capacity {
                    assert(self.handle_at(x.slot() as int) == old(self).handle_at(x.slot() as int));
                }
            }
        }
    }

    /// Removes every node whose lifetime has run out, with all that lies
    /// under it, going through the slots of the arena in order.
    fn sweep(&mut self)
        requires
            old(self).wf(),
        ensures
            final(self).arena_wf(),
            final(self)@ == old(self)@.swept(old(self).slots()),
            final(self).get_root() == old(self).get_root(),
            final(self).contains(final(self).get_root()) ==> final(self).wf(),
            forall|x: Handle| final(self).contains(x) ==> old(self).contains(x),
            forall|x: Handle| old(self).contains(x) && !final(self).contains(x)
                ==> final(self).is_stale(x),
            forall|x: Handle| old(self).is_stale(x) ==> final(self).is_stale(x),
            forall|k: nat|
                final(self).upcoming(k) == upcoming_after(
                    old(self)@.swept_freed(old(self).slots()),
                    |j: nat| old(self).upcoming(j),
                    k,
                ),
    {
        let ghost slots = self.slots();
        let ghost start = self@;
        let ghost first = |j: nat| old(self).upcoming(j);
        let ghost mut freed = Seq::<Handle>::empty();
        let capacity = self.get_capacity();
        let mut i: usize = 0;
        proof {
            assert(slots.skip(0) =~= slots);
            self@.tree.lemma_root();
            assert(freed + self@.swept_freed(slots) =~= self@.swept_freed(slots));
        }
        while i < capacity
            invariant
                self.arena_wf(),
                self.contains(self.get_root()) ==> self.wf(),
                !self.contains(self.get_root()) ==> forall|x: Handle| !self.contains(x),
                i <= capacity,
                capacity == self.capacity(),
                slots == old(self).slots(),
                slots == self.slots(),
                start == old(self)@,
                self.get_root() == old(self).get_root(),
                forall|x: Handle| self.contains(x) ==> old(self).contains(x),
                forall|x: Handle| old(self).contains(x) && !self.contains(x) ==> self.is_stale(x),
                forall|x: Handle| old(self).is_stale(x) ==> self.is_stale(x),
                self@.swept(slots.skip(i as int)) == start.swept(slots),
                first == |j: nat| old(self).upcoming(j),
                freed + self@.swept_freed(slots.skip(i as int)) == start.swept_freed(slots),
                forall|k: nat| self.upcoming(k) == upcoming_after(freed, first, k),
            decreases capacity - i,
        {
            let ghost prev = *self;
            let h = self.handle_from_index(i);
            proof {
                self.lemma_slot(i as int);
                self.lemma_none();
                assert(slots.skip(i as int)[0] == self.handle_at(i as int));
                assert(slots.skip(i as int).drop_first() =~= slots.skip(i as int + 1));
            }
            if h.is_some() {
                if self.get(h).is_expired() {
                    proof {
                        let t = self@.tree;
                        t.lemma_root();
                        if h == t.root {
                            assert forall|x: Handle| t.contains(x) implies t.in_subtree(
                                x,
                                h,
                            ) by {
                                t.lemma_under_root(x);
                            }
                        } else {
                            if t.in_subtree(t.root, h) {
                                t.lemma_under_root(h);
                                t.lemma_subtree_antisymmetric(t.root, h);
                            }
                        }
                    }
                    self.remove_node(h);
                    proof {
                        let removed = prev@.tree.dfs_order(h, false);
                        assert forall|k: nat|
                            self.upcoming(k) == upcoming_after(freed + removed, first, k) by {
                            lemma_upcoming_after(freed, removed, first, k);
                            lemma_upcoming_after_same(
                                removed,
                                |j: nat| prev.upcoming(j),
                                |j: nat| upcoming_after(freed, first, j),
                                k,
                            );
                        }
                        assert((freed + removed) + self@.swept_freed(slots.skip(i as int + 1))
                            =~= freed + (removed + self@.swept_freed(slots.skip(i as int + 1))));
                        freed = freed + removed;
                        assert(self.slots() =~= slots);
                        let t = prev@.tree;
                        if h == t.root {
                            assert forall|x: Handle| !self.contains(x) by {
                                if prev.contains(x) {
                                    assert(t.contains(x));
                                    assert(t.in_subtree(x, h));
                                }
                            }
                        } else {
                            assert(prev.contains(t.root));
                            assert(!t.in_subtree(t.root, h));
                            assert(self.contains(self.get_root()));
                        }
                    }
                }
            }
            i += 1;
        }
        proof {
            assert(slots.skip(i as int).len() == 0);
            assert(freed + Seq::<Handle>::empty() =~= freed);
        }
    }

    /// Lets the time `dt` pass: brings the transforms up to date, moves
    /// every node on by `dt` in a frame of the size `frame_size`, and removes
    /// the nodes whose lifetime has run out, with all that lies under them.
    pub fn update_nodes(&mut self, frame_size: Vec2, dt: i64)
        requires
            old(self).wf(),
        ensures
            final(self).arena_wf(),
            final(self)@ == old(self)@.propagated().ticked(frame_size, dt).swept(
                old(self).slots(),
            ),
            forall|x: Handle|
                #[trigger] final(self).contains(x) <==> old(self).contains(x)
                    && !old(self)@.propagated().ticked(frame_size, dt).doomed(x),
            final(self).get_root() == old(self).get_root(),
            final(self).contains(final(self).get_root()) ==> final(self).wf(),
            forall|x: Handle| old(self).contains(x) && !final(self).contains(x)
                ==> final(self).is_stale(x),
            forall|x: Handle| old(self).is_stale(x) ==> final(self).is_stale(x),
            forall|k: nat|
                final(self).upcoming(k) == upcoming_after(
                    old(self)@.propagated().ticked(frame_size, dt).swept_freed(old(self).slots()),
                    |j: nat| old(self).upcoming(j),
                    k,
                ),
    {
        self.update_transforms();
        proof {
            assert(self@.payloads =~= old(self)@.propagated().payloads);
            assert(self.slots() =~= old(self).slots());
        }
        proof {
            assert forall|x: Handle| old(self).is_stale(x) implies self.is_stale(x) by {
                assert(self.handle_at(x.slot() as int) == old(self).handle_at(x.slot() as int));
            }
        }
        self.tick_nodes(frame_size, dt);
        proof {
            self.lemma_slots();
            assert(self@.payloads.dom() =~= self@.tree.links.dom());
            self@.lemma_swept(self.slots());
        }
        let ghost mid = *self;
        self.sweep();
        proof {
            assert forall|x: Handle|
                self.contains(x) <==> old(self).contains(x) && !mid@.doomed(x) by {
                assert(self@.tree.contains(x) == self.contains(x));
                assert(mid@.tree.contains(x) == old(self).contains(x));
                assert(mid@.swept(mid.slots()).tree.contains(x) == self@.tree.contains(x));
            }
            assert forall|k: nat|
                self.upcoming(k) == upcoming_after(
                    mid@.swept_freed(mid.slots()),
                    |j: nat| old(self).upcoming(j),
                    k,
                ) by {
                lemma_upcoming_after_same(
                    mid@.swept_freed(mid.slots()),
                    |j: nat| mid.upcoming(j),
                    |j: nat| old(self).upcoming(j),
                    k,
                );
            }
        }
    }
}

} // verus!
