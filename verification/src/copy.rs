//! Copying a node, with all that lies under it, into another graph.

use vstd::prelude::*;
use crate::base::BaseView;
use crate::graph::{payload, Graph, GraphView, push_all};
use crate::node::{surface_views, Kind, Node, NodeView, Surface, SurfaceView};
use crate::pool::Handle;
use crate::tree::Tree;

verus! {

/// The bone `bone` mapped through `map`: what `map` gives
/// for it, or the bone itself where `map` gives nothing.
pub open spec fn remap_bone(map: Map<Handle, Handle>, bone: Handle) -> Handle {
    if map.contains_key(bone) {
        map[bone]
    } else {
        bone
    }
}

/// The surface with every bone mapped through `map`.
pub open spec fn remap_surface(surface: SurfaceView, map: Map<Handle, Handle>) -> SurfaceView {
    SurfaceView {
        bones: Seq::new(surface.bones.len(), |k: int| remap_bone(map, surface.bones[k])),
        ..surface
    }
}

/// The surfaces with every bone mapped through `map`.
pub open spec fn remap_surfaces(surfaces: Seq<SurfaceView>, map: Map<Handle, Handle>) -> Seq<
    SurfaceView,
> {
    Seq::new(surfaces.len(), |i: int| remap_surface(surfaces[i], map))
}

/// What a node has beside the shared record, with the bones of every surface
/// of a mesh mapped through `map`.
pub open spec fn remap_kind(kind: Kind, map: Map<Handle, Handle>) -> Kind {
    match kind {
        Kind::Mesh { surfaces } => Kind::Mesh { surfaces: remap_surfaces(surfaces, map) },
        other => other,
    }
}

/// What the copy of the node `x` carries when it is made: what `x` carries,
/// with `x` as its original.
pub open spec fn stamped(carried: NodeView, x: Handle) -> NodeView {
    NodeView { base: BaseView { original: x, ..carried.base }, ..carried }
}

/// What the copy of the node `x` carries in the end: what `x` carries, with
/// `x` as its original and with the bones mapped through `map`.
pub open spec fn copied(carried: NodeView, x: Handle, map: Map<Handle, Handle>) -> NodeView {
    NodeView {
        base: BaseView { original: x, ..carried.base },
        kind: remap_kind(carried.kind, map),
    }
}

/// The first `k` children of `x` in `src`, each replaced by its copy.
pub open spec fn copied_children(src: Tree, map: Map<Handle, Handle>, x: Handle, k: nat) -> Seq<
    Handle,
> {
    Seq::new(k, |i: int| map[src.children(x)[i]])
}

/// `after` is `before` with a copy of the subtree of `src` under `h` added
/// below the root, and `map` takes each node of that subtree to its copy.
///
/// The copies are new nodes, one for each node of the subtree. The copy of
/// `h` is the last child of the root; the copy of any other node is a child
/// of the copy of its parent, and the children of a copy are the copies of
/// the children, in their order. A copy carries what its original carries,
/// names its original, and has the bones of its surfaces mapped through `map`.
/// The nodes of `before` are as they were.
pub open spec fn is_copy(
    src: GraphView,
    h: Handle,
    before: GraphView,
    after: GraphView,
    map: Map<Handle, Handle>,
) -> bool {
    &&& after.tree.root == before.tree.root
    &&& forall|x: Handle| map.contains_key(x) <==> src.tree.in_subtree(x, h)
    &&& forall|x: Handle, y: Handle|
        map.contains_key(x) && map.contains_key(y) && x != y ==> map[x] != map[y]
    &&& forall|x: Handle| #[trigger]
        map.contains_key(x) ==> after.tree.contains(map[x]) && !before.tree.contains(map[x])
    &&& forall|d: Handle| #[trigger]
        after.tree.contains(d) ==> before.tree.contains(d) || exists|x: Handle|
            map.contains_key(x) && map[x] == d
    &&& forall|d: Handle| #[trigger]
        before.tree.contains(d) ==> {
            &&& after.tree.contains(d)
            &&& after.payloads[d] == before.payloads[d]
            &&& after.tree.parent(d) == before.tree.parent(d)
            &&& after.tree.children(d) == if d == before.tree.root {
                before.tree.children(d).push(map[h])
            } else {
                before.tree.children(d)
            }
        }
    &&& forall|x: Handle| #[trigger]
        map.contains_key(x) ==> {
            &&& after.tree.parent(map[x]) == if x == h {
                before.tree.root
            } else {
                map[src.tree.parent(x)]
            }
            &&& after.tree.children(map[x]) == copied_children(
                src.tree,
                map,
                x,
                src.tree.children(x).len(),
            )
            &&& after.payloads[map[x]] == copied(src.payloads[x], x, map)
        }
}

/// In a copy, a bone that was copied with the mesh is the copy of that bone:
/// a node of the destination that was not there before. A bone that was not
/// copied is the bone it was.
pub proof fn lemma_copied_bones(
    src: GraphView,
    h: Handle,
    before: GraphView,
    after: GraphView,
    map: Map<Handle, Handle>,
    x: Handle,
    i: int,
    k: int,
)
    requires
        is_copy(src, h, before, after, map),
        map.contains_key(x),
        src.payloads[x].kind is Mesh,
        0 <= i < src.payloads[x].kind->surfaces.len(),
        0 <= k < src.payloads[x].kind->surfaces[i].bones.len(),
    ensures
        after.payloads[map[x]].kind is Mesh,
        after.payloads[map[x]].kind->surfaces.len() == src.payloads[x].kind->surfaces.len(),
        after.payloads[map[x]].kind->surfaces[i].data == src.payloads[x].kind->surfaces[i].data,
        after.payloads[map[x]].kind->surfaces[i].bones.len()
            == src.payloads[x].kind->surfaces[i].bones.len(),
        ({
            let bone = src.payloads[x].kind->surfaces[i].bones[k];
            let copy = after.payloads[map[x]].kind->surfaces[i].bones[k];
            if map.contains_key(bone) {
                copy == map[bone] && after.tree.contains(copy) && !before.tree.contains(copy)
            } else {
                copy == bone
            }
        }),
{
    let bone = src.payloads[x].kind->surfaces[i].bones[k];
    assert(after.payloads[map[x]] == copied(src.payloads[x], x, map));
    if map.contains_key(bone) {
        assert(after.tree.contains(map[bone]) && !before.tree.contains(map[bone]));
    }
}

/// The links of the destination while a copy is being made. `map` takes each
/// node that has been copied to its copy, and `back` each copy to the node it
/// was copied from. `progress` says of each copied node how many of its
/// children have been copied: they are its first children, and the copy has
/// their copies as its children, in their order.
#[verifier::opaque]
pub closed spec fn copying(
    src: Tree,
    h: Handle,
    before: Tree,
    now: Tree,
    map: Map<Handle, Handle>,
    back: Map<Handle, Handle>,
    progress: Map<Handle, nat>,
) -> bool {
    &&& now.root == before.root
    &&& map.contains_key(h)
    &&& forall|x: Handle| #[trigger] map.contains_key(x) ==> src.in_subtree(x, h)
    &&& forall|x: Handle| #[trigger]
        map.contains_key(x) ==> back.contains_key(map[x]) && back[map[x]] == x
    &&& forall|d: Handle| #[trigger]
        back.contains_key(d) ==> map.contains_key(back[d]) && map[back[d]] == d
            && !before.contains(d)
    &&& forall|d: Handle| #[trigger]
        now.contains(d) <==> before.contains(d) || back.contains_key(d)
    &&& forall|d: Handle| #[trigger]
        before.contains(d) ==> {
            &&& now.parent(d) == before.parent(d)
            &&& now.children(d) == if d == before.root {
                before.children(d).push(map[h])
            } else {
                before.children(d)
            }
        }
    &&& forall|x: Handle| #[trigger]
        map.contains_key(x) ==> {
            &&& x != h ==> map.contains_key(src.parent(x))
            &&& now.parent(map[x]) == if x == h {
                before.root
            } else {
                map[src.parent(x)]
            }
            &&& progress[x] <= src.children(x).len()
            &&& now.children(map[x]) == copied_children(src, map, x, progress[x])
        }
    &&& forall|x: Handle, i: int|
        map.contains_key(x) && 0 <= i < src.children(x).len() ==> (map.contains_key(
            #[trigger] src.children(x)[i],
        ) <==> i < progress[x])
}

/// The copy of the first node alone is the beginning of a copy.
proof fn lemma_copying_first(src: Tree, h: Handle, before: Tree, now: Tree, d: Handle)
    requires
        src.wf(),
        src.contains(h),
        before.wf(),
        !before.contains(d),
        d != Handle::none(),
        now == before.add(d),
    ensures
        copying(
            src,
            h,
            before,
            now,
            Map::<Handle, Handle>::empty().insert(h, d),
            Map::<Handle, Handle>::empty().insert(d, h),
            Map::<Handle, nat>::empty().insert(h, 0),
        ),
{
    reveal(copying);
    let map = Map::<Handle, Handle>::empty().insert(h, d);
    before.lemma_root();
    before.lemma_with_child(d, before.root);
    assert(before.with_child(d, before.root) == before.add(d).relink(d, before.root));
    src.lemma_subtree_self(h);
    src.lemma_children(h);
    let a = before.add(d);
    assert(a.children(d) =~= Seq::<Handle>::empty());
    assert(copied_children(src, map, h, 0) =~= Seq::<Handle>::empty());
    assert forall|x: Handle| x != d && x != before.root implies a.children(x) == before.children(
        x,
    ) by {
        if !before.contains(x) {
            assert(a.children(x) =~= before.children(x));
        }
    }
}

/// One more node copied is one more step of a copy, if the node is the next
/// child of its parent that was to be copied and none of its own children
/// has been copied.
proof fn lemma_copying_child(
    src: Tree,
    h: Handle,
    before: Tree,
    now: Tree,
    map: Map<Handle, Handle>,
    back: Map<Handle, Handle>,
    progress: Map<Handle, nat>,
    x: Handle,
    d: Handle,
)
    requires
        src.wf(),
        now.wf(),
        copying(src, h, before, now, map, back, progress),
        map.contains_key(x),
        progress[x] < src.children(x).len(),
        forall|i: int|
            0 <= i < src.children(src.children(x)[progress[x] as int]).len() ==> !map.contains_key(
                #[trigger] src.children(src.children(x)[progress[x] as int])[i],
            ),
        !now.contains(d),
        d != Handle::none(),
    ensures
        copying(
            src,
            h,
            before,
            now.with_child(d, map[x]),
            map.insert(src.children(x)[progress[x] as int], d),
            back.insert(d, src.children(x)[progress[x] as int]),
            progress.insert(x, progress[x] + 1).insert(src.children(x)[progress[x] as int], 0),
        ),
{
    reveal(copying);
    let j = progress[x];
    let c = src.children(x)[j as int];
    let map2 = map.insert(c, d);
    let back2 = back.insert(d, c);
    let progress2 = progress.insert(x, j + 1).insert(c, 0);
    let now2 = now.with_child(d, map[x]);
    assert(src.in_subtree(x, h));
    src.lemma_children(x);
    assert(src.contains(c) && src.parent(c) == x);
    src.lemma_children(c);
    assert(!map.contains_key(c));
    assert(src.in_subtree(c, h)) by {
        src.lemma_parent(c);
        src.lemma_root();
        if c != h {
            src.lemma_subtree_parent(c, h);
        } else {
            src.lemma_subtree_self(h);
        }
    }
    assert(now.contains(map[x]));
    now.lemma_with_child(d, map[x]);
    assert(c != h);
    assert(c != x);
    assert forall|y: Handle| #[trigger] map2.contains_key(y) implies {
        &&& y != h ==> map2.contains_key(src.parent(y))
        &&& now2.parent(map2[y]) == if y == h {
            before.root
        } else {
            map2[src.parent(y)]
        }
        &&& progress2[y] <= src.children(y).len()
        &&& now2.children(map2[y]) == copied_children(src, map2, y, progress2[y])
    } by {
        if y == c {
            assert(copied_children(src, map2, c, 0) =~= Seq::<Handle>::empty());
        } else {
            assert(map.contains_key(y));
            assert(map[y] != d);
            let k: nat = progress[y];
            assert(now.children(map[y]) == copied_children(src, map, y, k));
            if y == x {
                assert(copied_children(src, map, x, j).push(d) =~= copied_children(
                    src,
                    map2,
                    x,
                    j + 1,
                )) by {
                    assert forall|i: int| 0 <= i < j implies map2[src.children(x)[i]]
                        == map[src.children(x)[i]] by {
                        assert(map.contains_key(src.children(x)[i]));
                    }
                }
            } else {
                assert(map[y] != map[x]) by {
                    assert(back[map[y]] == y && back[map[x]] == x);
                }
                assert(copied_children(src, map, y, k) =~= copied_children(src, map2, y, k)) by {
                    assert forall|i: int| 0 <= i < k implies map2[src.children(y)[i]]
                        == map[src.children(y)[i]] by {
                        assert(map.contains_key(src.children(y)[i]));
                    }
                }
            }
            if y != h {
                assert(map.contains_key(src.parent(y)));
            }
        }
    }
    assert forall|e: Handle| #[trigger] before.contains(e) implies {
        &&& now2.parent(e) == before.parent(e)
        &&& now2.children(e) == if e == before.root {
            before.children(e).push(map2[h])
        } else {
            before.children(e)
        }
    } by {
        assert(now.contains(e));
        assert(e != d);
        assert(e != map[x]) by {
            assert(back.contains_key(map[x]));
        }
    }
    assert forall|y: Handle, i: int|
        map2.contains_key(y) && 0 <= i < src.children(y).len() implies (map2.contains_key(
        #[trigger] src.children(y)[i],
    ) <==> i < progress2[y]) by {
        let e = src.children(y)[i];
        src.lemma_children(y);
        assert(src.children(y).contains(e));
        assert(src.parent(e) == y);
        if y == c {
            assert(e != c);
        } else if y == x {
            if e == c {
                assert(i == j);
            } else {
                assert(map.contains_key(e) <==> i < j);
                assert(i != j);
            }
        } else {
            assert(e != c);
            assert(map.contains_key(e) <==> i < progress[y]);
        }
    }
    assert forall|e: Handle| #[trigger] back2.contains_key(e) implies map2.contains_key(back2[e])
        && map2[back2[e]] == e && !before.contains(e) by {
        if e != d {
            assert(back.contains_key(e));
            assert(map.contains_key(back[e]));
        } else {
            assert(!now.contains(d));
        }
    }
    assert forall|y: Handle| #[trigger] map2.contains_key(y) implies back2.contains_key(map2[y])
        && back2[map2[y]] == y by {
        if y != c {
            assert(map.contains_key(y));
            assert(back.contains_key(map[y]));
            assert(now.contains(map[y]));
        }
    }
    assert forall|e: Handle| #[trigger] now2.contains(e) <==> before.contains(e)
        || back2.contains_key(e) by {
        assert(now2.contains(e) <==> now.contains(e) || e == d);
        assert(now.contains(e) <==> before.contains(e) || back.contains_key(e));
    }
    assert forall|y: Handle| #[trigger] map2.contains_key(y) implies src.in_subtree(y, h) by {
        if y != c {
            assert(map.contains_key(y));
        }
    }
    assert(now2.root == before.root);
    assert(map2.contains_key(h));
}

/// Which child of a copied node is the next to be copied: the first that has
/// not been copied.
proof fn lemma_copying_next(
    src: Tree,
    h: Handle,
    before: Tree,
    now: Tree,
    map: Map<Handle, Handle>,
    back: Map<Handle, Handle>,
    progress: Map<Handle, nat>,
    p: Handle,
    a: int,
)
    requires
        src.wf(),
        copying(src, h, before, now, map, back, progress),
        map.contains_key(p),
        0 <= a < src.children(p).len(),
        forall|b: int|
            0 <= b < src.children(p).len() ==> (map.contains_key(#[trigger] src.children(p)[b])
                <==> b < a),
    ensures
        progress[p] == a,
        now.contains(map[p]),
{
    reveal(copying);
    let k = progress[p];
    if k < a {
        assert(map.contains_key(src.children(p)[k as int]));
    }
    if k > a {
        assert(!map.contains_key(src.children(p)[a]));
    }
    assert(back.contains_key(map[p]));
}

/// A finished copy is a copy.
proof fn lemma_copying_finished(
    src: GraphView,
    h: Handle,
    before: GraphView,
    after: GraphView,
    map: Map<Handle, Handle>,
    back: Map<Handle, Handle>,
    progress: Map<Handle, nat>,
)
    requires
        src.tree.wf(),
        copying(src.tree, h, before.tree, after.tree, map, back, progress),
        forall|x: Handle| map.contains_key(x) <==> src.tree.in_subtree(x, h),
        forall|x: Handle| #[trigger]
            map.contains_key(x) ==> after.payloads[map[x]] == copied(src.payloads[x], x, map),
        forall|d: Handle| #[trigger]
            before.tree.contains(d) ==> after.payloads[d] == before.payloads[d],
    ensures
        is_copy(src, h, before, after, map),
{
    reveal(copying);
    assert forall|x: Handle, y: Handle|
        map.contains_key(x) && map.contains_key(y) && x != y implies map[x] != map[y] by {
        assert(back[map[x]] == x && back[map[y]] == y);
    }
    assert forall|x: Handle| #[trigger] map.contains_key(x) implies after.tree.contains(map[x])
        && !before.tree.contains(map[x]) by {
        assert(back.contains_key(map[x]));
    }
    assert forall|d: Handle| #[trigger] after.tree.contains(d) implies before.tree.contains(d)
        || exists|x: Handle| map.contains_key(x) && map[x] == d by {
        if !before.tree.contains(d) {
            assert(back.contains_key(d));
            assert(map.contains_key(back[d]) && map[back[d]] == d);
        }
    }
    assert forall|x: Handle| #[trigger] map.contains_key(x) implies {
        &&& after.tree.parent(map[x]) == if x == h {
            before.tree.root
        } else {
            map[src.tree.parent(x)]
        }
        &&& after.tree.children(map[x]) == copied_children(
            src.tree,
            map,
            x,
            src.tree.children(x).len(),
        )
        &&& after.payloads[map[x]] == copied(src.payloads[x], x, map)
    } by {
        let k = progress[x];
        if k < src.tree.children(x).len() {
            let c = src.tree.children(x)[k as int];
            src.tree.lemma_children(x);
            assert(src.tree.children(x).contains(c));
            assert(src.tree.in_subtree(x, h));
            assert(src.tree.in_subtree(c, h)) by {
                src.tree.lemma_parent(c);
                src.tree.lemma_root();
                if c != h {
                    src.tree.lemma_subtree_parent(c, h);
                } else {
                    src.tree.lemma_subtree_self(h);
                }
            }
            assert(map.contains_key(c));
            assert(false);
        }
    }
}

impl Graph {
    /// The mapping that a table of copies stands for: the table holds,
    /// in the place of the slot of each copied node, the handle of its copy.
    pub open spec fn table_map(&self, table: Seq<Handle>) -> Map<Handle, Handle> {
        Map::new(
            |b: Handle|
                self.contains(b) && b.slot() < table.len() && table[b.slot() as int]
                    != Handle::none(),
            |b: Handle| table[b.slot() as int],
        )
    }

    /// The table holds the copies that `map` names, and nothing else.
    spec fn table_holds(&self, table: Seq<Handle>, map: Map<Handle, Handle>) -> bool {
        &&& table.len() == self.capacity()
        &&& forall|x: Handle| #[trigger]
            map.contains_key(x) ==> self.contains(x) && table[x.slot() as int] == map[x] && map[x]
                != Handle::none()
        &&& forall|i: int|
            0 <= i < table.len() && #[trigger] table[i] != Handle::none() ==> map.contains_key(
                self.handle_at(i),
            )
    }

    proof fn lemma_table_map(&self, table: Seq<Handle>, map: Map<Handle, Handle>)
        requires
            self.table_holds(table, map),
        ensures
            self.table_map(table) == map,
    {
        assert forall|b: Handle| self.table_map(table).contains_key(b) implies map.contains_key(
            b,
        ) by {
            self.lemma_alive(b);
            assert(table[b.slot() as int] != Handle::none());
        }
        assert forall|b: Handle| map.contains_key(b) implies self.table_map(table).contains_key(b)
            && self.table_map(table)[b] == map[b] by {
            self.lemma_alive(b);
        }
        assert(self.table_map(table) =~= map);
    }

    proof fn lemma_table_insert(
        &self,
        table: Seq<Handle>,
        map: Map<Handle, Handle>,
        c: Handle,
        d: Handle,
    )
        requires
            self.table_holds(table, map),
            self.contains(c),
            d != Handle::none(),
        ensures
            c.slot() < table.len(),
            self.table_holds(table.update(c.slot() as int, d), map.insert(c, d)),
    {
        self.lemma_alive(c);
        self.lemma_slot(c.slot() as int);
        let table2 = table.update(c.slot() as int, d);
        let map2 = map.insert(c, d);
        assert forall|x: Handle| #[trigger] map2.contains_key(x) implies self.contains(x)
            && table2[x.slot() as int] == map2[x] && map2[x] != Handle::none() by {
            if x != c {
                assert(map.contains_key(x));
                self.lemma_alive(x);
            }
        }
        assert forall|i: int|
            0 <= i < table2.len() && #[trigger] table2[i] != Handle::none()
                implies map2.contains_key(
            self.handle_at(i),
        ) by {
            if i != c.slot() {
                assert(table[i] != Handle::none());
            }
        }
    }

    /// The surfaces with their bones mapped through a table of copies.
    fn remap_bones(&self, table: &Vec<Handle>, surfaces: &Vec<Surface>) -> (r: Vec<Surface>)
        ensures
            surface_views(r@) == remap_surfaces(surface_views(surfaces@), self.table_map(table@)),
    {
        let ghost map = self.table_map(table@);
        let mut r: Vec<Surface> = Vec::new();
        let mut i: usize = 0;
        while i < surfaces.len()
            invariant
                i <= surfaces.len(),
                r.len() == i,
                map == self.table_map(table@),
                forall|k: int| 0 <= k < i ==> r@[k]@ == remap_surface(surfaces@[k]@, map),
            decreases surfaces.len() - i,
        {
            let surface = &surfaces[i];
            let bones = surface.bones();
            let mut new_bones: Vec<Handle> = Vec::new();
            let mut k: usize = 0;
            while k < bones.len()
                invariant
                    k <= bones.len(),
                    new_bones.len() == k,
                    map == self.table_map(table@),
                    forall|q: int| 0 <= q < k ==> new_bones@[q] == remap_bone(map, bones@[q]),
                decreases bones.len() - k,
            {
                let bone = bones[k];
                let mut target = bone;
                if self.is_valid_handle(bone) && bone.index() < table.len() {
                    let copy = table[bone.index()];
                    if copy.is_some() {
                        target = copy;
                    }
                }
                new_bones.push(target);
                k += 1;
            }
            let mut copy = Surface::new(surface.data());
            copy.set_bones(new_bones);
            assert(copy@.bones =~= remap_surface(surface@, map).bones);
            r.push(copy);
            i += 1;
        }
        assert(surface_views(r@) =~= remap_surfaces(surface_views(surfaces@), map));
        r
    }

    /// Copies the node under `h`, with all that lies under it, into `dest`,
    /// below the root of `dest`, and returns the handle of the copy of `h`.
    /// A node is copied before its children, and the children in their order.
    ///
    /// Each copy names the node it was copied from as its original. Where a
    /// surface of a copy has a bone that was copied too, the bone of the copy
    /// is the copy of that bone; a bone that was not copied stays as it is.
    pub fn copy_node(&self, h: Handle, dest: &mut Graph) -> (r: Handle)
        requires
            self.wf(),
            self.contains(h),
            old(dest).wf(),
        ensures
            final(dest).wf(),
            exists|map: Map<Handle, Handle>|
                is_copy(self@, h, old(dest)@, final(dest)@, map) && map[h] == r && forall|i: int|
                    0 <= i < self@.tree.dfs_order(h, true).len() ==> map[#[trigger] self@.tree.dfs_order(
                        h,
                        true,
                    )[i]] == old(dest).upcoming(i as nat),
            r == old(dest).next_handle(),
            forall|k: nat|
                final(dest).upcoming(k) == old(dest).upcoming(k + self@.tree.subtree(h).len()),
            forall|x: Handle| old(dest).is_stale(x) ==> final(dest).is_stale(x),
    {
        let ghost ts = self@.tree;
        let ghost before = dest@;
        let ghost order = ts.dfs_order(h, true);
        proof {
            old(dest).lemma_next_handle();
            ts.lemma_dfs_order(h, true);
        }
        let capacity = self.get_capacity();
        let mut table: Vec<Handle> = Vec::new();
        while table.len() < capacity
            invariant
                table.len() <= capacity,
                forall|i: int| 0 <= i < table.len() ==> table@[i] == Handle::none(),
            decreases capacity - table.len(),
        {
            table.push(Handle::none());
        }
        let mut first = self.get(h).clone();
        first.base_mut().set_original(h);
        let root_copy = dest.add_node(first);
        let ghost mut map = Map::<Handle, Handle>::empty().insert(h, root_copy);
        let ghost mut back = Map::<Handle, Handle>::empty().insert(root_copy, h);
        let ghost mut progress = Map::<Handle, nat>::empty().insert(h, 0);
        proof {
            self.lemma_alive(h);
            assert(self.table_holds(table@, Map::<Handle, Handle>::empty()));
            self.lemma_table_insert(table@, Map::<Handle, Handle>::empty(), h, root_copy);
            lemma_copying_first(ts, h, before.tree, dest@.tree, root_copy);
        }
        table[h.index()] = root_copy;
        let mut stack: Vec<Handle> = Vec::new();
        push_all(&mut stack, self.get(h).base().children(), true);
        let ghost mut n: nat = 1;
        proof {
            ts.lemma_dfs_start(h, true);
            ts.lemma_dfs_ordered_start(h);
            assert(ts.dfs_stack(h, 0, true) =~= seq![h]);
            ts.lemma_dfs_step(h, 0, true);
            ts.lemma_dfs_ordered_step(h, 0);
            assert(stack@ =~= ts.dfs_stack(h, 1, true));
            assert(ts.dfs_visited(h, 1, true) =~= Set::<Handle>::empty().insert(h));
            self.lemma_finite();
        }
        while stack.len() > 0
            invariant
                self.wf(),
                self.contains(h),
                ts == self@.tree,
                before == old(dest)@,
                before.tree.wf(),
                dest.wf(),
                stack@ == ts.dfs_stack(h, n, true),
                ts.dfs_inv(h, n, true),
                ts.dfs_ordered(h, n),
                copying(ts, h, before.tree, dest@.tree, map, back, progress),
                forall|x: Handle| map.contains_key(x) <==> ts.dfs_visited(h, n, true).contains(x),
                self.table_holds(table@, map),
                map.contains_key(h),
                map[h] == root_copy,
                forall|x: Handle| #[trigger]
                    map.contains_key(x) ==> dest@.payloads[map[x]] == stamped(self@.payloads[x], x),
                forall|d: Handle| #[trigger]
                    before.tree.contains(d) ==> dest@.payloads[d] == before.payloads[d],
                ts.links.dom().finite(),
                forall|y: Handle| old(dest).is_stale(y) ==> dest.is_stale(y),
                order == ts.dfs_order(h, true),
                n <= order.len(),
                forall|k: nat| dest.upcoming(k) == old(dest).upcoming(k + n),
                forall|i: int| 0 <= i < n ==> map[#[trigger] order[i]] == old(dest).upcoming(i as nat),
            decreases ts.links.dom().len() - n,
        {
            let x = stack.pop().unwrap();
            proof {
                assert(ts.dfs_stack(h, n, true).last() == x);
                ts.lemma_dfs_top(h, n, true);
                ts.lemma_dfs_step(h, n, true);
                ts.lemma_dfs_ordered_step(h, n);
                ts.lemma_dfs_visited(h, n + 1, true);
                ts.lemma_parent(x);
                self.lemma_alive(x);
                assert(order[n as int] == x);
                dest.lemma_next_handle();
            }
            let node = self.get(x);
            let p = node.base().parent();
            proof {
                assert(x != h);
                assert(x != ts.root) by {
                    if x == ts.root {
                        ts.lemma_under_root(h);
                        ts.lemma_subtree_antisymmetric(x, h);
                    }
                }
                assert(p == ts.parent(x));
                assert(ts.dfs_visited(h, n, true).contains(p));
                assert(map.contains_key(p));
                self.lemma_alive(p);
                ts.lemma_children(p);
                assert(ts.children(p).contains(x));
                let a = choose|a: int| 0 <= a < ts.children(p).len() && ts.children(p)[a] == x;
                ts.lemma_dfs_next_child(h, n, a);
                lemma_copying_next(ts, h, before.tree, dest@.tree, map, back, progress, p, a);
                ts.lemma_children(x);
                assert forall|i: int| 0 <= i < ts.children(x).len() implies !map.contains_key(
                    #[trigger] ts.children(x)[i],
                ) by {
                    let c = ts.children(x)[i];
                    assert(ts.children(x).contains(c));
                    ts.lemma_dfs_child_is_new(h, n, true, c);
                }
            }
            let parent_copy = table[p.index()];
            let mut copy = node.clone();
            copy.base_mut().set_original(x);
            let ghost prev = dest@;
            let d = dest.add_child(copy, parent_copy);
            proof {
                lemma_copying_child(ts, h, before.tree, prev.tree, map, back, progress, p, d);
                self.lemma_table_insert(table@, map, x, d);
                assert forall|y: Handle| #[trigger] map.insert(x, d).contains_key(y)
                    implies dest@.payloads[map.insert(
                    x,
                    d,
                )[y]] == stamped(self@.payloads[y], y) by {
                    if y != x {
                        assert(map.contains_key(y));
                        reveal(copying);
                        assert(back.contains_key(map[y]));
                        assert(prev.tree.contains(map[y]));
                    }
                }
                assert forall|e: Handle| #[trigger] before.tree.contains(e)
                    implies dest@.payloads[e]
                    == before.payloads[e] by {
                    reveal(copying);
                    assert(prev.tree.contains(e));
                    assert(prev.payloads[e] == before.payloads[e]);
                }
                assert forall|i: int| 0 <= i < n + 1 implies map.insert(x, d)[#[trigger] order[i]]
                    == old(dest).upcoming(i as nat) by {
                    if i < n {
                        assert(ts.dfs_visited(h, n, true).contains(order[i])) by {
                            ts.lemma_visited_is_prefix(h, n, true, order[i]);
                        }
                        assert(order[i] != x);
                    }
                }
                progress = progress.insert(p, progress[p] + 1).insert(x, 0);
                map = map.insert(x, d);
                back = back.insert(d, x);
            }
            table[x.index()] = d;
            push_all(&mut stack, node.base().children(), true);
            proof {
                n = n + 1;
            }
        }
        proof {
            ts.lemma_dfs_end(h, n, true);
            self.lemma_table_map(table@, map);
        }
        let ghost shaped = dest@.tree;
        let mut i: usize = 0;
        while i < table.len()
            invariant
                self.wf(),
                before == old(dest)@,
                dest.wf(),
                dest@.tree == shaped,
                i <= table.len(),
                self.table_holds(table@, map),
                self.table_map(table@) == map,
                map[h] == root_copy,
                copying(ts, h, before.tree, shaped, map, back, progress),
                forall|y: Handle| #[trigger]
                    map.contains_key(y) ==> dest@.payloads[map[y]] == (if y.slot() < i {
                        copied(self@.payloads[y], y, map)
                    } else {
                        stamped(self@.payloads[y], y)
                    }),
                forall|d: Handle| #[trigger]
                    before.tree.contains(d) ==> dest@.payloads[d] == before.payloads[d],
                forall|y: Handle| old(dest).is_stale(y) ==> dest.is_stale(y),
                forall|k: nat| dest.upcoming(k) == old(dest).upcoming(k + n),
            decreases table.len() - i,
        {
            let copy = table[i];
            let ghost x = self.handle_at(i as int);
            let ghost prev = *dest;
            proof {
                self.lemma_slot(i as int);
                reveal(copying);
            }
            if copy.is_some() {
                assert(map.contains_key(x) && map[x] == copy);
                assert(back.contains_key(copy));
                assert(dest.contains(copy));
                let remapped = match dest.get(copy).surfaces() {
                    Some(surfaces) => Some(self.remap_bones(&table, surfaces)),
                    None => None,
                };
                match remapped {
                    Some(surfaces) => {
                        dest.get_mut(copy).set_surfaces(surfaces);
                        proof {
                            prev.lemma_changed_node(&*dest, copy);
                            assert forall|y: Handle| prev.is_stale(y) implies dest.is_stale(y) by {
                                assert(dest.handle_at(y.slot() as int) == prev.handle_at(
                                    y.slot() as int,
                                ));
                            }
                        }
                    },
                    None => {},
                }
                proof {
                    assert(dest@.payloads[copy] == copied(self@.payloads[x], x, map));
                }
            }
            proof {
                assert forall|y: Handle| #[trigger] map.contains_key(y)
                    implies dest@.payloads[map[y]]
                    == (if y.slot() < i + 1 {
                    copied(self@.payloads[y], y, map)
                } else {
                    stamped(self@.payloads[y], y)
                }) by {
                    self.lemma_alive(y);
                    if y.slot() == i {
                        assert(y == x);
                    } else {
                        assert(map[y] != copy || copy == Handle::none()) by {
                            if map[y] == copy && copy != Handle::none() {
                                assert(back[map[y]] == y && back[map[x]] == x);
                            }
                        }
                        assert(dest@.payloads[map[y]] == prev@.payloads[map[y]]);
                    }
                }
                assert forall|d: Handle| #[trigger] before.tree.contains(d)
                    implies dest@.payloads[d]
                    == before.payloads[d] by {
                    assert(d != copy || copy == Handle::none());
                    assert(prev@.payloads[d] == before.payloads[d]);
                }
            }
            i += 1;
        }
        proof {
            assert forall|y: Handle| #[trigger] map.contains_key(y) implies dest@.payloads[map[y]]
                == copied(self@.payloads[y], y, map) by {
                self.lemma_alive(y);
            }
            lemma_copying_finished(self@, h, before, dest@, map, back, progress);
        }
        root_copy
    }
}

} // verus!
