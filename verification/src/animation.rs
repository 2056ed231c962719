//! Animations, as far as a scene needs them: each has tracks, each track
//! drives one node of the graph.

use vstd::prelude::*;
use crate::graph::{Graph, GraphView, Query};
use crate::node::{advance, advance_time};
use crate::pool::{
    lemma_upcoming_after, lemma_upcoming_after_same, upcoming_after, Handle, Pool,
};

verus! {

/// One track of an animation: the node it drives, and the node of the model
/// that it was made for.
#[derive(Clone, Copy, PartialEq, Eq, Structural, Hash, Debug)]
pub struct Track {
    pub node: Handle,
    pub original: Handle,
}

impl Track {
    /// A track that drives `node`, made for no node of a model.
    pub fn new(node: Handle) -> (t: Track)
        ensures
            t == (Track { node, original: Handle::none() }),
    {
        Track { node, original: Handle::none() }
    }

    pub fn get_node(&self) -> (h: Handle)
        ensures
            h == self.node,
    {
        self.node
    }

    pub fn set_node(&mut self, node: Handle)
        ensures
            *final(self) == (Track { node, ..*old(self) }),
    {
        self.node = node;
    }
}

/// An animation as contracts see it.
pub ghost struct AnimationView {
    pub tracks: Seq<Track>,
    pub root: Handle,
    pub time_position: i64,
}

impl AnimationView {
    /// One of the tracks drives `node`.
    pub open spec fn targets(self, node: Handle) -> bool {
        exists|i: int| 0 <= i < self.tracks.len() && #[trigger] self.tracks[i].node == node
    }

    /// One of the tracks drives one of `nodes`.
    pub open spec fn targets_any(self, nodes: Set<Handle>) -> bool {
        exists|i: int| 0 <= i < self.tracks.len() && nodes.contains(#[trigger] self.tracks[i].node)
    }

    /// The track after the animation was fitted to `graph`: if the root of
    /// the animation is a node of the graph, the track drives the node under
    /// that root that stands for the node it was made for, or no node if
    /// none does. Otherwise the track is as it was.
    pub open spec fn retargeted_track(self, graph: GraphView, track: Track) -> Track {
        if graph.tree.contains(self.root) {
            Track { node: graph.find(self.root, Query::CopyOf(track.original)), ..track }
        } else {
            track
        }
    }

    /// The animation with every track fitted to `graph`.
    pub open spec fn retargeted(self, graph: GraphView) -> AnimationView {
        AnimationView {
            tracks: Seq::new(
                self.tracks.len(),
                |i: int| self.retargeted_track(graph, self.tracks[i]),
            ),
            ..self
        }
    }

    /// The animation after the time `dt`.
    pub open spec fn advanced(self, dt: i64) -> AnimationView {
        AnimationView { time_position: advance(self.time_position, dt), ..self }
    }
}

/// An animation: tracks, the root of the model instance that it moves, and
/// how far it has played.
pub struct Animation {
    tracks: Vec<Track>,
    root: Handle,
    time_position: i64,
}

impl View for Animation {
    type V = AnimationView;

    closed spec fn view(&self) -> AnimationView {
        AnimationView { tracks: self.tracks@, root: self.root, time_position: self.time_position }
    }
}

impl Default for Animation {
    fn default() -> (a: Animation)
        ensures
            a@ == (AnimationView { tracks: Seq::empty(), root: Handle::none(), time_position: 0 }),
    {
        Animation { tracks: Vec::new(), root: Handle::none(), time_position: 0 }
    }
}

impl Animation {
    /// An animation without tracks for the model instance under `root`.
    pub fn new(root: Handle) -> (a: Animation)
        ensures
            a@ == (AnimationView { tracks: Seq::empty(), root, time_position: 0 }),
    {
        Animation { tracks: Vec::new(), root, time_position: 0 }
    }

    pub fn add_track(&mut self, track: Track)
        ensures
            final(self)@ == (AnimationView { tracks: old(self)@.tracks.push(track), ..old(self)@ }),
    {
        self.tracks.push(track);
    }

    pub fn get_tracks(&self) -> (t: &Vec<Track>)
        ensures
            t@ == self@.tracks,
    {
        &self.tracks
    }

    pub fn get_root(&self) -> (h: Handle)
        ensures
            h == self@.root,
    {
        self.root
    }

    pub fn get_time_position(&self) -> (t: i64)
        ensures
            t == self@.time_position,
    {
        self.time_position
    }

    /// Whether one of the tracks drives `node`.
    pub fn targets(&self, node: Handle) -> (b: bool)
        ensures
            b == self@.targets(node),
    {
        let mut i: usize = 0;
        while i < self.tracks.len()
            invariant
                i <= self.tracks.len(),
                forall|k: int| 0 <= k < i ==> self.tracks@[k].node != node,
            decreases self.tracks.len() - i,
        {
            if self.tracks[i].node == node {
                assert(self@.tracks[i as int].node == node);
                return true;
            }
            i += 1;
        }
        false
    }

    /// Plays the animation on by the time `dt`.
    pub fn update(&mut self, dt: i64)
        ensures
            final(self)@ == old(self)@.advanced(dt),
    {
        self.time_position = advance_time(self.time_position, dt);
    }

    /// Fits the tracks to `graph`.
    pub fn resolve(&mut self, graph: &Graph)
        requires
            graph.wf(),
        ensures
            final(self)@ == old(self)@.retargeted(graph@),
    {
        if !graph.is_valid_handle(self.root) {
            assert(self@.tracks =~= self@.retargeted(graph@).tracks);
            return ;
        }
        let root = self.root;
        let mut i: usize = 0;
        while i < self.tracks.len()
            invariant
                graph.wf(),
                graph.contains(root),
                i <= self.tracks.len(),
                self.root == root,
                root == old(self).root,
                self.time_position == old(self).time_position,
                self.tracks.len() == old(self).tracks.len(),
                forall|k: int|
                    0 <= k < self.tracks.len() ==> #[trigger] self.tracks@[k] == (if k < i {
                        old(self)@.retargeted_track(graph@, old(self).tracks@[k])
                    } else {
                        old(self).tracks@[k]
                    }),
            decreases self.tracks.len() - i,
        {
            let track = self.tracks[i];
            let node = graph.find_copy_of(root, track.original);
            self.tracks[i] = Track { node, original: track.original };
            i += 1;
        }
        assert(self@.tracks =~= old(self)@.retargeted(graph@).tracks);
    }
}

/// The animations of a scene. Its view is the map from the handles of the
/// animations that are alive to the animations.
pub struct AnimationContainer {
    pool: Pool<Animation>,
}

impl View for AnimationContainer {
    type V = Map<Handle, AnimationView>;

    closed spec fn view(&self) -> Map<Handle, AnimationView> {
        Map::new(|h: Handle| self.pool@.contains_key(h), |h: Handle| self.pool@[h]@)
    }
}

impl Default for AnimationContainer {
    /// The container without animations, whose arena has no slots yet.
    fn default() -> (c: AnimationContainer)
        ensures
            c.wf(),
            c@ == Map::<Handle, AnimationView>::empty(),
            c.capacity() == 0,
            forall|k: nat| c.upcoming(k) == Handle::first(k),
    {
        AnimationContainer::new()
    }
}

impl AnimationContainer {
    /// The invariant of the arena that holds the animations.
    pub closed spec fn wf(&self) -> bool {
        self.pool.wf()
    }

    /// The handle that the next animation gets.
    pub closed spec fn next_handle(&self) -> Handle {
        self.pool.next_handle()
    }

    /// The handle that the animation added after the next `k` animations
    /// gets, if no animation is removed before.
    pub closed spec fn upcoming(&self, k: nat) -> Handle {
        self.pool.upcoming(k)
    }

    /// The next handle is the first of the handles to come.
    pub proof fn lemma_next_handle(&self)
        ensures
            self.next_handle() == self.upcoming(0),
    {
        self.pool.lemma_next_handle();
    }

    /// The container without animations. Its arena has no slots yet, so the
    /// animations added to it get the first handle of slot 0, of slot 1, and
    /// so on.
    pub fn new() -> (c: AnimationContainer)
        ensures
            c.wf(),
            c@ == Map::<Handle, AnimationView>::empty(),
            c.capacity() == 0,
            forall|k: nat| c.upcoming(k) == Handle::first(k),
    {
        let c = AnimationContainer { pool: Pool::new() };
        assert(c@ =~= Map::<Handle, AnimationView>::empty());
        c
    }

    /// Adds an animation and returns its handle, which was not alive before.
    pub fn add(&mut self, animation: Animation) -> (h: Handle)
        requires
            old(self).wf(),
        ensures
            final(self).wf(),
            h == old(self).next_handle(),
            h != Handle::none(),
            !old(self)@.contains_key(h),
            final(self)@ == old(self)@.insert(h, animation@),
            forall|k: nat| final(self).upcoming(k) == old(self).upcoming(k + 1),
    {
        let h = self.pool.spawn(animation);
        assert(self@ =~= old(self)@.insert(h, animation@));
        h
    }

    /// Removes the animation under `h`.
    pub fn remove(&mut self, h: Handle)
        requires
            old(self).wf(),
            old(self)@.contains_key(h),
        ensures
            final(self).wf(),
            final(self)@ == old(self)@.remove(h),
            forall|k: nat|
                final(self).upcoming(k) == upcoming_after(
                    seq![h],
                    |j: nat| old(self).upcoming(j),
                    k,
                ),
    {
        self.pool.free(h);
        assert(self@ =~= old(self)@.remove(h));
        proof {
            assert forall|k: nat|
                self.upcoming(k) == upcoming_after(seq![h], |j: nat| old(self).upcoming(j), k) by {
                lemma_upcoming_after_same(
                    seq![h],
                    |j: nat| old(self).pool.upcoming(j),
                    |j: nat| old(self).upcoming(j),
                    k,
                );
            }
        }
    }

    /// Whether an animation is alive under `h`.
    pub fn is_valid_handle(&self, h: Handle) -> (b: bool)
        ensures
            b == self@.contains_key(h),
    {
        self.pool.is_valid_handle(h)
    }

    pub fn get(&self, h: Handle) -> (a: &Animation)
        requires
            self@.contains_key(h),
        ensures
            a@ == self@[h],
    {
        self.pool.borrow(h)
    }

    /// The number of animations that are alive.
    pub fn alive_count(&self) -> (n: usize)
        requires
            self.wf(),
        ensures
            n == self@.dom().len(),
    {
        assert(self@.dom() =~= self.pool@.dom());
        self.pool.alive_count()
    }

    /// The number of slots of the arena that holds the animations.
    pub closed spec fn capacity(&self) -> nat {
        self.pool.capacity()
    }

    /// The handle of the animation in slot `i` of the arena, if there is
    /// one.
    pub closed spec fn handle_at(&self, i: int) -> Handle {
        self.pool.handle_at(i)
    }

    /// The handles of the slots of the arena, in order.
    pub open spec fn slots(&self) -> Seq<Handle> {
        Seq::new(self.capacity(), |i: int| self.handle_at(i))
    }

    /// Those of `handles`, in their order, under which an animation is
    /// alive that has a track that drives `node`.
    pub open spec fn targeting(
        animations: Map<Handle, AnimationView>,
        handles: Seq<Handle>,
        node: Handle,
    ) -> Seq<Handle>
        decreases handles.len(),
    {
        if handles.len() == 0 {
            Seq::empty()
        } else {
            let before = Self::targeting(animations, handles.drop_last(), node);
            if animations.contains_key(handles.last()) && animations[handles.last()].targets(node) {
                before.push(handles.last())
            } else {
                before
            }
        }
    }

    /// The animations without those that have a track that drives `node`.
    pub open spec fn without_targeting(
        animations: Map<Handle, AnimationView>,
        node: Handle,
    ) -> Map<Handle, AnimationView> {
        Map::new(
            |h: Handle| animations.contains_key(h) && !animations[h].targets(node),
            |h: Handle| animations[h],
        )
    }

    /// Removes every animation that has a track that drives `node`.
    pub fn remove_targeting(&mut self, node: Handle)
        requires
            old(self).wf(),
        ensures
            final(self).wf(),
            final(self)@ == Self::without_targeting(old(self)@, node),
            final(self).slots() == old(self).slots(),
            forall|k: nat|
                final(self).upcoming(k) == upcoming_after(
                    Self::targeting(old(self)@, old(self).slots(), node),
                    |j: nat| old(self).upcoming(j),
                    k,
                ),
    {
        let ghost slots = self.slots();
        let ghost first = |j: nat| old(self).upcoming(j);
        let ghost before = self@;
        assert(slots.take(0) =~= Seq::<Handle>::empty());
        let capacity = self.pool.get_capacity();
        let mut i: usize = 0;
        while i < capacity
            invariant
                self.wf(),
                i <= capacity,
                capacity == self.pool.capacity(),
                capacity == old(self).pool.capacity(),
                forall|k: int|
                    0 <= k < capacity ==> self.pool.handle_at(k) == old(self).pool.handle_at(k),
                forall|h: Handle|
                    self@.contains_key(h) <==> old(self)@.contains_key(h) && !(h.slot() < i
                        && old(self)@[h].targets(node)),
                forall|h: Handle| self@.contains_key(h) ==> self@[h] == old(self)@[h],
                slots == old(self).slots(),
                before == old(self)@,
                first == |j: nat| old(self).upcoming(j),
                forall|k: nat|
                    self.upcoming(k) == upcoming_after(
                        Self::targeting(before, slots.take(i as int), node),
                        first,
                        k,
                    ),
            decreases capacity - i,
        {
            let ghost prev = *self;
            let ghost freed = Self::targeting(before, slots.take(i as int), node);
            proof {
                assert(slots.take(i as int + 1).drop_last() =~= slots.take(i as int));
                assert(slots.take(i as int + 1).last() == old(self).pool.handle_at(i as int));
            }
            let h = self.pool.handle_from_index(i);
            proof {
                self.pool.lemma_slot(i as int);
                if self.pool@.contains_key(Handle::none()) {
                    self.pool.lemma_alive(Handle::none());
                }
                assert forall|x: Handle| old(self)@.contains_key(x) implies x.slot() < capacity
                    && old(self).pool.handle_at(x.slot() as int) == x by {
                    old(self).pool.lemma_alive(x);
                }
            }
            if h.is_some() {
                if self.pool.borrow(h).targets(node) {
                    self.pool.free(h);
                    proof {
                        assert(Self::targeting(before, slots.take(i as int + 1), node)
                            =~= freed + seq![h]);
                        assert forall|j: nat|
                            #[trigger] prev.pool.upcoming(j) == upcoming_after(freed, first, j) by {
                            assert(prev.upcoming(j) == upcoming_after(freed, first, j));
                        }
                        assert forall|k: nat|
                            self.upcoming(k) == upcoming_after(freed + seq![h], first, k) by {
                            lemma_upcoming_after(freed, seq![h], first, k);
                            lemma_upcoming_after_same(
                                seq![h],
                                |j: nat| prev.pool.upcoming(j),
                                |j: nat| upcoming_after(freed, first, j),
                                k,
                            );
                        }
                    }
                }
            }
            proof {
                if !(before.contains_key(old(self).pool.handle_at(i as int)) && before[old(self).pool.handle_at(i as int)].targets(node)) {
                    assert(Self::targeting(before, slots.take(i as int + 1), node) == freed);
                }
            }
            i += 1;
        }
        proof {
            assert forall|x: Handle| old(self)@.contains_key(x) implies x.slot() < capacity by {
                old(self).pool.lemma_alive(x);
            }
            assert(self@ =~= Self::without_targeting(old(self)@, node));
            assert(slots.take(i as int) =~= slots);
            assert(self.slots() =~= old(self).slots());
        }
    }

    /// The animations after the time `dt`.
    pub open spec fn advanced(animations: Map<Handle, AnimationView>, dt: i64) -> Map<
        Handle,
        AnimationView,
    > {
        Map::new(|h: Handle| animations.contains_key(h), |h: Handle| animations[h].advanced(dt))
    }

    /// Plays every animation on by the time `dt`.
    pub fn update_animations(&mut self, dt: i64)
        requires
            old(self).wf(),
        ensures
            final(self).wf(),
            final(self)@ == Self::advanced(old(self)@, dt),
            forall|k: nat| final(self).upcoming(k) == old(self).upcoming(k),
    {
        let capacity = self.pool.get_capacity();
        let mut i: usize = 0;
        while i < capacity
            invariant
                self.wf(),
                i <= capacity,
                capacity == self.pool.capacity(),
                capacity == old(self).pool.capacity(),
                forall|k: int|
                    0 <= k < capacity ==> self.pool.handle_at(k) == old(self).pool.handle_at(k),
                forall|h: Handle| self@.contains_key(h) == old(self)@.contains_key(h),
                forall|k: nat| self.upcoming(k) == old(self).upcoming(k),
                forall|h: Handle|
                    self@.contains_key(h) ==> #[trigger] self@[h] == (if h.slot() < i {
                        old(self)@[h].advanced(dt)
                    } else {
                        old(self)@[h]
                    }),
            decreases capacity - i,
        {
            let ghost prev = self@;
            let h = self.pool.handle_from_index(i);
            proof {
                self.pool.lemma_slot(i as int);
                if self.pool@.contains_key(Handle::none()) {
                    self.pool.lemma_alive(Handle::none());
                }
            }
            if h.is_some() {
                self.pool.borrow_mut(h).update(dt);
            }
            proof {
                assert forall|x: Handle| self@.contains_key(x) implies #[trigger] self@[x]
                    == (if x.slot()
                    < i + 1 {
                    old(self)@[x].advanced(dt)
                } else {
                    old(self)@[x]
                }) by {
                    assert(self.pool@.contains_key(x));
                    assert(prev.contains_key(x));
                    assert(old(self)@.contains_key(x));
                    assert(old(self).pool@.contains_key(x));
                    old(self).pool.lemma_alive(x);
                    assert(prev[x] == (if x.slot() < i {
                        old(self)@[x].advanced(dt)
                    } else {
                        old(self)@[x]
                    }));
                }
            }
            i += 1;
        }
        proof {
            assert forall|x: Handle| self@.contains_key(x) implies self@[x]
                == old(self)@[x].advanced(dt) by {
                old(self).pool.lemma_alive(x);
            }
            assert(self@ =~= Self::advanced(old(self)@, dt));
        }
    }

    /// The animations with every track fitted to `graph`.
    pub open spec fn retargeted(animations: Map<Handle, AnimationView>, graph: GraphView) -> Map<
        Handle,
        AnimationView,
    > {
        Map::new(
            |h: Handle| animations.contains_key(h),
            |h: Handle| animations[h].retargeted(graph),
        )
    }

    /// Fits the tracks of every animation to `graph`.
    pub fn resolve(&mut self, graph: &Graph)
        requires
            old(self).wf(),
            graph.wf(),
        ensures
            final(self).wf(),
            final(self)@ == Self::retargeted(old(self)@, graph@),
            forall|k: nat| final(self).upcoming(k) == old(self).upcoming(k),
    {
        let capacity = self.pool.get_capacity();
        let mut i: usize = 0;
        while i < capacity
            invariant
                self.wf(),
                graph.wf(),
                i <= capacity,
                capacity == self.pool.capacity(),
                capacity == old(self).pool.capacity(),
                forall|k: int|
                    0 <= k < capacity ==> self.pool.handle_at(k) == old(self).pool.handle_at(k),
                forall|h: Handle| self@.contains_key(h) == old(self)@.contains_key(h),
                forall|k: nat| self.upcoming(k) == old(self).upcoming(k),
                forall|h: Handle|
                    self@.contains_key(h) ==> #[trigger] self@[h] == (if h.slot() < i {
                        old(self)@[h].retargeted(graph@)
                    } else {
                        old(self)@[h]
                    }),
            decreases capacity - i,
        {
            let ghost prev = self@;
            let h = self.pool.handle_from_index(i);
            proof {
                self.pool.lemma_slot(i as int);
                if self.pool@.contains_key(Handle::none()) {
                    self.pool.lemma_alive(Handle::none());
                }
            }
            if h.is_some() {
                self.pool.borrow_mut(h).resolve(graph);
            }
            proof {
                assert forall|x: Handle| self@.contains_key(x) implies #[trigger] self@[x]
                    == (if x.slot()
                    < i + 1 {
                    old(self)@[x].retargeted(graph@)
                } else {
                    old(self)@[x]
                }) by {
                    assert(self.pool@.contains_key(x));
                    assert(prev.contains_key(x));
                    assert(old(self)@.contains_key(x));
                    assert(old(self).pool@.contains_key(x));
                    old(self).pool.lemma_alive(x);
                    assert(prev[x] == (if x.slot() < i {
                        old(self)@[x].retargeted(graph@)
                    } else {
                        old(self)@[x]
                    }));
                }
            }
            i += 1;
        }
        proof {
            assert forall|x: Handle| self@.contains_key(x) implies self@[x]
                == old(self)@[x].retargeted(graph@) by {
                old(self).pool.lemma_alive(x);
            }
            assert(self@ =~= Self::retargeted(old(self)@, graph@));
        }
    }
}

} // verus!
