//! The shape of a hierarchy, apart from what its nodes carry.
//!
//! A [`Tree`] records, for every node, its parent and the ordered list of its
//! children. This module says when such a record is a tree, names the
//! relations that the graph's contracts speak of (ancestor, subtree, depth)
//! and the changes that the graph makes to its shape, and proves that those
//! changes keep a tree a tree.

use vstd::prelude::*;
use crate::pool::Handle;

verus! {

/// The links of one node: its parent, or `Handle::none()`, and its children
/// in order.
pub ghost struct Links {
    pub parent: Handle,
    pub children: Seq<Handle>,
}

/// A root and the links of every node.
pub ghost struct Tree {
    pub root: Handle,
    pub links: Map<Handle, Links>,
}

impl Tree {
    /// `h` is a node of the hierarchy.
    pub open spec fn contains(self, h: Handle) -> bool {
        self.links.contains_key(h)
    }

    /// The parent of `h`; `Handle::none()` where `h` has none or is no node.
    pub open spec fn parent(self, h: Handle) -> Handle {
        if self.contains(h) {
            self.links[h].parent
        } else {
            Handle::none()
        }
    }

    /// The children of `h`, in order.
    pub open spec fn children(self, h: Handle) -> Seq<Handle> {
        if self.contains(h) {
            self.links[h].children
        } else {
            Seq::empty()
        }
    }

    /// The node reached from `h` by going to the parent `k` times.
    pub open spec fn ancestor(self, h: Handle, k: nat) -> Handle
        decreases k,
    {
        if k == 0 {
            h
        } else {
            self.ancestor(self.parent(h), (k - 1) as nat)
        }
    }

    /// Going up from `h` leads to `a` (in no steps, if they are the same).
    pub open spec fn reaches(self, h: Handle, a: Handle) -> bool {
        exists|k: nat| self.ancestor(h, k) == a
    }

    /// `h` is `a` or one of its descendants.
    pub open spec fn in_subtree(self, h: Handle, a: Handle) -> bool {
        self.contains(h) && self.contains(a) && self.reaches(h, a)
    }

    /// `a` and all its descendants.
    pub open spec fn subtree(self, a: Handle) -> Set<Handle> {
        Set::new(|h: Handle| self.in_subtree(h, a))
    }

    /// The record is a tree: the root is the one node without a parent, every
    /// other node stands exactly once among the children of its parent, the
    /// children of a node are nodes that name it as their parent, and going up
    /// from any node leads to the root, so that no node is its own ancestor.
    #[verifier::opaque]
    pub open spec fn wf(self) -> bool {
        &&& self.links.dom().finite()
        &&& !self.contains(Handle::none())
        &&& self.contains(self.root)
        &&& self.parent(self.root) == Handle::none()
        &&& forall|h: Handle|
            self.contains(h) && h != self.root ==> self.contains(#[trigger] self.parent(h))
                && self.children(self.parent(h)).contains(h)
        &&& forall|p: Handle, i: int|
            self.contains(p) && 0 <= i < self.children(p).len() ==> self.contains(
                #[trigger] self.children(p)[i],
            ) && self.parent(self.children(p)[i]) == p
        &&& forall|p: Handle| self.contains(p) ==> (#[trigger] self.children(p)).no_duplicates()
        &&& forall|h: Handle| self.contains(h) ==> #[trigger] self.reaches(h, self.root)
    }

    /// The number of steps from `h` up to the root.
    pub open spec fn depth(self, h: Handle) -> nat {
        choose|k: nat| self.ancestor(h, k) == self.root
    }

    /// Going up `k + 1` times is going up `k` times and once more.
    pub proof fn lemma_ancestor_step(self, h: Handle, k: nat)
        ensures
            self.ancestor(h, k + 1) == self.parent(self.ancestor(h, k)),
        decreases k,
    {
        reveal_with_fuel(Tree::ancestor, 2);
        if k > 0 {
            self.lemma_ancestor_step(self.parent(h), (k - 1) as nat);
        }
    }

    /// Going up `i` times and then `j` times is going up `i + j` times.
    pub proof fn lemma_ancestor_add(self, h: Handle, i: nat, j: nat)
        ensures
            self.ancestor(self.ancestor(h, i), j) == self.ancestor(h, i + j),
        decreases i,
    {
        if i > 0 {
            self.lemma_ancestor_add(self.parent(h), (i - 1) as nat, j);
        }
    }

    /// What is no node has no ancestors.
    pub proof fn lemma_ancestor_outside(self, h: Handle, k: nat)
        requires
            !self.contains(Handle::none()),
            !self.contains(h),
            k > 0,
        ensures
            self.ancestor(h, k) == Handle::none(),
        decreases k,
    {
        if k > 1 {
            self.lemma_ancestor_outside(Handle::none(), (k - 1) as nat);
        } else {
            assert(self.ancestor(Handle::none(), 0) == Handle::none());
        }
    }

    /// The depth of a node is the one number of steps that leads from it to
    /// the root; the root has depth 0 and a child stands one below its parent.
    pub proof fn lemma_depth(self, h: Handle)
        requires
            self.wf(),
            self.contains(h),
        ensures
            self.ancestor(h, self.depth(h)) == self.root,
            forall|k: nat| self.ancestor(h, k) == self.root ==> k == self.depth(h),
            h == self.root ==> self.depth(h) == 0,
            h != self.root ==> self.depth(h) > 0 && self.depth(h) == self.depth(self.parent(h)) + 1,
    {
        reveal(Tree::wf);
        assert(self.reaches(h, self.root));
        let d = self.depth(h);
        assert forall|k: nat| self.ancestor(h, k) == self.root implies k == d by {
            if k < d {
                self.lemma_ancestor_add(h, k, (d - k) as nat);
                self.lemma_ancestor_outside(Handle::none(), (d - k - 1) as nat + 1);
                assert(self.ancestor(self.root, (d - k) as nat) == self.ancestor(
                    self.parent(self.root),
                    (d - k - 1) as nat,
                ));
                if d - k - 1 > 0 {
                    self.lemma_ancestor_outside(Handle::none(), (d - k - 1) as nat);
                }
            } else if d < k {
                self.lemma_ancestor_add(h, d, (k - d) as nat);
                assert(self.ancestor(self.root, (k - d) as nat) == self.ancestor(
                    self.parent(self.root),
                    (k - d - 1) as nat,
                ));
                if k - d - 1 > 0 {
                    self.lemma_ancestor_outside(Handle::none(), (k - d - 1) as nat);
                }
            }
        }
        if h == self.root {
            assert(self.ancestor(h, 0) == self.root);
        } else {
            assert(d > 0);
            let p = self.parent(h);
            assert(self.contains(p));
            assert(self.reaches(p, self.root));
            let dp = self.depth(p);
            assert(self.ancestor(h, dp + 1) == self.ancestor(p, dp));
        }
    }

    /// Up to its depth, going up from a node stays among the nodes and comes
    /// one level nearer to the root with each step; beyond it there is
    /// nothing.
    pub proof fn lemma_ancestors(self, h: Handle, k: nat)
        requires
            self.wf(),
            self.contains(h),
        ensures
            k <= self.depth(h) ==> self.contains(self.ancestor(h, k)) && self.depth(
                self.ancestor(h, k),
            ) == self.depth(h) - k,
            k > self.depth(h) ==> self.ancestor(h, k) == Handle::none(),
        decreases k,
    {
        reveal(Tree::wf);
        self.lemma_depth(h);
        if k > 0 {
            if h == self.root {
                assert(self.ancestor(h, k) == self.ancestor(Handle::none(), (k - 1) as nat));
                if k > 1 {
                    self.lemma_ancestor_outside(Handle::none(), (k - 1) as nat);
                } else {
                    assert(self.ancestor(Handle::none(), 0) == Handle::none());
                }
            } else {
                assert(self.ancestor(h, k) == self.ancestor(self.parent(h), (k - 1) as nat));
                self.lemma_ancestors(self.parent(h), (k - 1) as nat);
            }
        }
    }

    /// Membership in a subtree, told by depths: `h` lies under `a` when `a` is
    /// the ancestor of `h` at the level of `a`.
    pub proof fn lemma_in_subtree(self, h: Handle, a: Handle)
        requires
            self.wf(),
            self.contains(h),
            self.contains(a),
        ensures
            self.in_subtree(h, a) <==> self.depth(h) >= self.depth(a) && self.ancestor(
                h,
                (self.depth(h) - self.depth(a)) as nat,
            ) == a,
    {
        reveal(Tree::wf);
        if self.in_subtree(h, a) {
            let k = choose|k: nat| self.ancestor(h, k) == a;
            self.lemma_ancestors(h, k);
            self.lemma_none_is_no_node();
        }
    }

    proof fn lemma_none_is_no_node(self)
        requires
            self.wf(),
        ensures
            !self.contains(Handle::none()),
    {
        reveal(Tree::wf);
    }

    /// Every node lies in its own subtree.
    pub proof fn lemma_subtree_self(self, a: Handle)
        requires
            self.contains(a),
        ensures
            self.in_subtree(a, a),
    {
        assert(self.ancestor(a, 0) == a);
    }

    /// What lies under `a` lies under everything that `a` lies under.
    pub proof fn lemma_subtree_trans(self, h: Handle, a: Handle, b: Handle)
        requires
            self.in_subtree(h, a),
            self.in_subtree(a, b),
        ensures
            self.in_subtree(h, b),
    {
        let i = choose|k: nat| self.ancestor(h, k) == a;
        let j = choose|k: nat| self.ancestor(a, k) == b;
        self.lemma_ancestor_add(h, i, j);
    }

    /// A node other than `a` lies under `a` exactly when its parent does.
    pub proof fn lemma_subtree_parent(self, h: Handle, a: Handle)
        requires
            self.wf(),
            self.contains(h),
            self.contains(a),
            h != a,
        ensures
            self.in_subtree(h, a) <==> self.in_subtree(self.parent(h), a),
    {
        reveal(Tree::wf);
        if self.in_subtree(h, a) {
            let k = choose|k: nat| self.ancestor(h, k) == a;
            assert(k > 0);
            assert(self.ancestor(self.parent(h), (k - 1) as nat) == a);
            if h == self.root {
                self.lemma_ancestor_outside(Handle::none(), k);
                if k > 1 {
                    self.lemma_ancestor_outside(Handle::none(), (k - 1) as nat);
                }
            }
        }
        if self.in_subtree(self.parent(h), a) {
            let k = choose|k: nat| self.ancestor(self.parent(h), k) == a;
            assert(self.ancestor(h, k + 1) == a);
        }
    }

    /// Two nodes that lie under each other are one node.
    pub proof fn lemma_subtree_antisymmetric(self, a: Handle, b: Handle)
        requires
            self.wf(),
            self.in_subtree(a, b),
            self.in_subtree(b, a),
        ensures
            a == b,
    {
        reveal(Tree::wf);
        self.lemma_in_subtree(a, b);
        self.lemma_in_subtree(b, a);
    }

    /// A node that lies under `a` stands at least as deep as `a`, and as deep
    /// only if it is `a`.
    pub proof fn lemma_subtree_depth(self, h: Handle, a: Handle)
        requires
            self.wf(),
            self.in_subtree(h, a),
        ensures
            self.depth(h) >= self.depth(a),
            self.depth(h) == self.depth(a) ==> h == a,
    {
        reveal(Tree::wf);
        self.lemma_in_subtree(h, a);
    }

    /// Every node lies under the root.
    pub proof fn lemma_under_root(self, h: Handle)
        requires
            self.wf(),
            self.contains(h),
        ensures
            self.in_subtree(h, self.root),
    {
        reveal(Tree::wf);
    }
}

/// What taking the first `x` out of `s` leaves.
pub proof fn lemma_remove_value(s: Seq<Handle>, x: Handle)
    ensures
        !s.contains(x) ==> s.remove_value(x) == s,
        s.contains(x) ==> s.remove_value(x).len() == s.len() - 1,
        s.no_duplicates() ==> s.remove_value(x).no_duplicates() && !s.remove_value(x).contains(x),
        forall|y: Handle| y != x ==> (s.remove_value(x).contains(y) <==> s.contains(y)),
        forall|i: int|
            0 <= i < s.remove_value(x).len() ==> s.contains(#[trigger] s.remove_value(x)[i]),
{
    s.index_of_first_ensures(x);
    let r = s.remove_value(x);
    match s.index_of_first(x) {
        Some(k) => {
            assert(r == s.remove(k));
            assert forall|i: int| 0 <= i < r.len() implies s.contains(#[trigger] r[i]) by {
                if i < k {
                    assert(r[i] == s[i]);
                } else {
                    assert(r[i] == s[i + 1]);
                }
            }
            assert forall|y: Handle| y != x implies (r.contains(y) <==> s.contains(y)) by {
                if s.contains(y) {
                    let j = choose|j: int| 0 <= j < s.len() && s[j] == y;
                    if j < k {
                        assert(r[j] == y);
                    } else {
                        assert(r[j - 1] == y);
                    }
                }
                if r.contains(y) {
                    let j = choose|j: int| 0 <= j < r.len() && r[j] == y;
                    assert(s.contains(r[j]));
                }
            }
            if s.no_duplicates() {
                assert forall|i: int, j: int| 0 <= i < r.len() && 0 <= j < r.len()
                    && i != j implies r[i]
                    != r[j] by {
                    let a = if i < k { i } else { i + 1 };
                    let b = if j < k { j } else { j + 1 };
                    assert(r[i] == s[a] && r[j] == s[b]);
                }
                if r.contains(x) {
                    let j = choose|j: int| 0 <= j < r.len() && r[j] == x;
                    let b = if j < k { j } else { j + 1 };
                    assert(r[j] == s[b]);
                }
            }
        },
        None => {},
    }
}

impl Tree {
    /// The hierarchy with `h` cut off from its parent: `h` has no parent, and
    /// no list of children holds it.
    pub open spec fn detach(self, h: Handle) -> Tree {
        Tree {
            root: self.root,
            links: Map::new(
                |x: Handle| self.contains(x),
                |x: Handle|
                    Links {
                        parent: if x == h { Handle::none() } else { self.parent(x) },
                        children: self.children(x).remove_value(h),
                    },
            ),
        }
    }

    /// The hierarchy with `h` made the last child of `p`.
    pub open spec fn attach(self, h: Handle, p: Handle) -> Tree {
        Tree {
            root: self.root,
            links: Map::new(
                |x: Handle| self.contains(x),
                |x: Handle|
                    Links {
                        parent: if x == h { p } else { self.parent(x) },
                        children: if x == p { self.children(x).push(h) } else { self.children(x) },
                    },
            ),
        }
    }

    /// The hierarchy with `h`, and all that lies under it, moved to the end of
    /// the children of `p`.
    pub open spec fn relink(self, h: Handle, p: Handle) -> Tree {
        self.detach(h).attach(h, p)
    }

    /// The hierarchy with one more node, `n`, which has neither parent nor
    /// children yet.
    pub open spec fn with_leaf(self, n: Handle) -> Tree {
        Tree {
            root: self.root,
            links: self.links.insert(n, Links { parent: Handle::none(), children: Seq::empty() }),
        }
    }

    /// The hierarchy with the new node `n` as the last child of the root.
    pub open spec fn add(self, n: Handle) -> Tree {
        self.with_leaf(n).attach(n, self.root)
    }

    /// The hierarchy without `h` and all that lies under it.
    pub open spec fn without_subtree(self, h: Handle) -> Tree {
        Tree {
            root: self.root,
            links: Map::new(
                |x: Handle| self.contains(x) && !self.in_subtree(x, h),
                |x: Handle|
                    Links { parent: self.parent(x), children: self.children(x).remove_value(h) },
            ),
        }
    }

    /// Two hierarchies that agree on a node and on all its ancestors agree on
    /// where going up from it leads.
    pub proof fn lemma_same_ancestors(self, other: Tree, x: Handle, k: nat)
        requires
            forall|i: nat| i < k ==> self.parent(#[trigger] self.ancestor(x, i))
                == other.parent(self.ancestor(x, i)),
        ensures
            other.ancestor(x, k) == self.ancestor(x, k),
        decreases k,
    {
        if k > 0 {
            self.lemma_same_ancestors(other, x, (k - 1) as nat);
            self.lemma_ancestor_step(x, (k - 1) as nat);
            other.lemma_ancestor_step(x, (k - 1) as nat);
        }
    }

    /// Adding a node under the root keeps a tree a tree.
    pub proof fn lemma_add_wf(self, n: Handle)
        requires
            self.wf(),
            !self.contains(n),
            n != Handle::none(),
        ensures
            self.add(n).wf(),
            forall|x: Handle| self.add(n).contains(x) <==> self.contains(x) || x == n,
    {
        reveal(Tree::wf);
        let t = self.add(n);
        assert(t.links.dom() =~= self.links.dom().insert(n));
        assert forall|x: Handle| t.contains(x) && x != n implies t.parent(x) == self.parent(x) by {}
        assert forall|h: Handle| t.contains(h) && h != t.root implies t.contains(
            #[trigger] t.parent(h),
        ) && t.children(t.parent(h)).contains(h) by {
            if h == n {
                assert(t.children(t.root) == self.children(self.root).push(n));
                assert(t.children(t.root)[self.children(self.root).len() as int] == n);
            } else {
                let q = self.parent(h);
                assert(self.contains(q) && self.children(q).contains(h));
                let j = choose|j: int| 0 <= j < self.children(q).len() && self.children(q)[j] == h;
                assert(t.children(q)[j] == h);
            }
        }
        assert forall|p: Handle, i: int| t.contains(p) && 0 <= i < t.children(p).len()
            implies t.contains(
            #[trigger] t.children(p)[i],
        ) && t.parent(t.children(p)[i]) == p by {
            if p == n {
            } else if p == self.root {
                if i < self.children(p).len() {
                    assert(t.children(p)[i] == self.children(p)[i]);
                }
            } else {
                assert(t.children(p)[i] == self.children(p)[i]);
            }
        }
        assert forall|p: Handle| t.contains(p)
            implies (#[trigger] t.children(p)).no_duplicates() by {
            if p == self.root {
                let c = self.children(p);
                assert(c.no_duplicates());
                assert forall|i: int| 0 <= i < c.len() implies c[i] != n by {
                    assert(self.contains(c[i]));
                }
            } else if p != n {
                assert(self.children(p).no_duplicates());
            }
        }
        assert forall|h: Handle| t.contains(h) implies #[trigger] t.reaches(h, t.root) by {
            if h == n {
                assert(t.ancestor(n, 1) == t.ancestor(t.parent(n), 0));
            } else {
                self.lemma_depth(h);
                let d = self.depth(h);
                assert forall|i: nat| i < d implies self.parent(#[trigger] self.ancestor(h, i))
                    == t.parent(self.ancestor(h, i)) by {
                    self.lemma_ancestors(h, i);
                }
                self.lemma_same_ancestors(t, h, d);
            }
        }
    }

    /// The links of a hierarchy after a node was moved.
    pub proof fn lemma_relink_links(self, h: Handle, p: Handle)
        requires
            self.contains(h),
            self.contains(p),
            h != p,
        ensures
            self.relink(h, p).root == self.root,
            forall|x: Handle| self.relink(h, p).contains(x) == self.contains(x),
            forall|x: Handle|
                #[trigger] self.relink(h, p).parent(x) == if x == h {
                    p
                } else {
                    self.parent(x)
                },
            forall|x: Handle|
                #[trigger] self.relink(h, p).children(x) == if x == p {
                    self.children(x).remove_value(h).push(h)
                } else {
                    self.children(x).remove_value(h)
                },
    {
        let t = self.relink(h, p);
        let d = self.detach(h);
        assert forall|x: Handle| #[trigger] t.children(x) == if x == p {
            self.children(x).remove_value(h).push(h)
        } else {
            self.children(x).remove_value(h)
        } by {
            assert(d.contains(x) == self.contains(x));
            if !self.contains(x) {
                lemma_remove_value(self.children(x), h);
            }
        }
        assert forall|x: Handle| #[trigger] t.parent(x) == if x == h {
            p
        } else {
            self.parent(x)
        } by {
            assert(d.contains(x) == self.contains(x));
        }
    }

    /// Moving a node, with all that lies under it, below a node that does not
    /// lie under it keeps a tree a tree.
    pub proof fn lemma_relink_wf(self, h: Handle, p: Handle)
        requires
            self.wf(),
            self.contains(h),
            self.contains(p),
            !self.in_subtree(p, h),
        ensures
            self.relink(h, p).wf(),
    {
        reveal(Tree::wf);
        let t = self.relink(h, p);
        self.lemma_subtree_self(h);
        self.lemma_under_root(p);
        assert(h != self.root);
        assert(h != p);
        self.lemma_relink_links(h, p);
        assert(t.links.dom() =~= self.links.dom());
        assert forall|x: Handle| t.contains(x) && x != t.root implies t.contains(
            #[trigger] t.parent(x),
        ) && t.children(t.parent(x)).contains(x) by {
            if x == h {
                let c = self.children(p).remove_value(h);
                assert(t.children(p) == c.push(h));
                assert(t.children(p)[c.len() as int] == h);
            } else {
                let q = self.parent(x);
                assert(self.contains(q) && self.children(q).contains(x));
                lemma_remove_value(self.children(q), h);
                let c = self.children(q).remove_value(h);
                assert(c.contains(x));
                if q == p {
                    let j = choose|j: int| 0 <= j < c.len() && c[j] == x;
                    assert(c.push(h)[j] == x);
                }
            }
        }
        assert forall|q: Handle, i: int| t.contains(q) && 0 <= i < t.children(q).len()
            implies t.contains(
            #[trigger] t.children(q)[i],
        ) && t.parent(t.children(q)[i]) == q by {
            lemma_remove_value(self.children(q), h);
            let c = self.children(q).remove_value(h);
            if i < c.len() {
                assert(t.children(q)[i] == c[i]);
                assert(self.children(q).contains(c[i]));
                let j = choose|j: int| 0 <= j < self.children(q).len() && self.children(q)[j]
                    == c[i];
                assert(self.contains(self.children(q)[j]));
                if self.children(q).no_duplicates() {
                    assert(!c.contains(h));
                }
                assert(c[i] != h);
            }
        }
        assert forall|q: Handle| t.contains(q)
            implies (#[trigger] t.children(q)).no_duplicates() by {
            lemma_remove_value(self.children(q), h);
            assert(self.children(q).no_duplicates());
        }
        assert forall|x: Handle| t.contains(x) implies #[trigger] t.reaches(x, t.root) by {
            self.lemma_relink_reaches_root(h, p, x);
        }
    }

    proof fn lemma_relink_outside(self, h: Handle, p: Handle, x: Handle, k: nat)
        requires
            self.wf(),
            self.contains(h),
            self.contains(p),
            h != p,
            self.contains(x),
            !self.in_subtree(x, h),
        ensures
            self.relink(h, p).ancestor(x, k) == self.ancestor(x, k),
    {
        reveal(Tree::wf);
        self.lemma_relink_links(h, p);
        let t = self.relink(h, p);
        assert forall|i: nat| i < k implies self.parent(#[trigger] self.ancestor(x, i)) == t.parent(
            self.ancestor(x, i),
        ) by {}
        self.lemma_same_ancestors(t, x, k);
    }

    proof fn lemma_relink_reaches_root(self, h: Handle, p: Handle, x: Handle)
        requires
            self.wf(),
            self.contains(h),
            self.contains(p),
            h != p,
            !self.in_subtree(p, h),
            self.contains(x),
        ensures
            self.relink(h, p).reaches(x, self.root),
    {
        reveal(Tree::wf);
        self.lemma_relink_links(h, p);
        let t = self.relink(h, p);
        self.lemma_depth(p);
        self.lemma_relink_outside(h, p, p, self.depth(p));
        if self.in_subtree(x, h) {
            self.lemma_in_subtree(x, h);
            let j = (self.depth(x) - self.depth(h)) as nat;
            assert forall|i: nat| i < j implies self.parent(#[trigger] self.ancestor(x, i))
                == t.parent(
                self.ancestor(x, i),
            ) by {
                self.lemma_ancestors(x, i);
                self.lemma_depth(h);
            }
            self.lemma_same_ancestors(t, x, j);
            t.lemma_ancestor_step(x, j);
            t.lemma_ancestor_add(x, j + 1, self.depth(p));
            assert(t.ancestor(x, j + 1 + self.depth(p)) == self.root);
        } else {
            self.lemma_depth(x);
            self.lemma_relink_outside(h, p, x, self.depth(x));
        }
    }

    /// Taking a node other than the root away, with all that lies under it,
    /// keeps a tree a tree.
    pub proof fn lemma_without_subtree_wf(self, h: Handle)
        requires
            self.wf(),
            self.contains(h),
            h != self.root,
        ensures
            self.without_subtree(h).wf(),
    {
        reveal(Tree::wf);
        let t = self.without_subtree(h);
        assert(t.links.dom().subset_of(self.links.dom()));
        vstd::set_lib::lemma_len_subset(t.links.dom(), self.links.dom());
        self.lemma_subtree_self(h);
        self.lemma_under_root(h);
        if self.in_subtree(self.root, h) {
            self.lemma_subtree_antisymmetric(self.root, h);
        }
        assert(t.contains(t.root));
        assert forall|x: Handle| t.contains(x) && x != t.root implies t.contains(
            #[trigger] t.parent(x),
        ) && t.children(t.parent(x)).contains(x) by {
            self.lemma_subtree_parent(x, h);
            let q = self.parent(x);
            lemma_remove_value(self.children(q), h);
        }
        assert forall|q: Handle, i: int| t.contains(q) && 0 <= i < t.children(q).len()
            implies t.contains(
            #[trigger] t.children(q)[i],
        ) && t.parent(t.children(q)[i]) == q by {
            lemma_remove_value(self.children(q), h);
            let c = self.children(q).remove_value(h);
            assert(self.children(q).contains(c[i]));
            let j = choose|j: int| 0 <= j < self.children(q).len() && self.children(q)[j] == c[i];
            assert(self.contains(self.children(q)[j]));
            assert(self.children(q).no_duplicates());
            assert(c[i] != h);
            self.lemma_subtree_parent(c[i], h);
        }
        assert forall|q: Handle| t.contains(q)
            implies (#[trigger] t.children(q)).no_duplicates() by {
            lemma_remove_value(self.children(q), h);
            assert(self.children(q).no_duplicates());
        }
        assert forall|x: Handle| t.contains(x) implies #[trigger] t.reaches(x, t.root) by {
            self.lemma_without_subtree_ancestors(h, x, self.depth(x));
            self.lemma_depth(x);
        }
    }

    /// Taking a subtree away changes no path that starts outside it.
    pub proof fn lemma_without_subtree_ancestors(self, h: Handle, x: Handle, k: nat)
        requires
            self.wf(),
            self.contains(h),
            self.contains(x),
            !self.in_subtree(x, h),
        ensures
            self.without_subtree(h).ancestor(x, k) == self.ancestor(x, k),
    {
        reveal(Tree::wf);
        let t = self.without_subtree(h);
        assert forall|i: nat| i < k implies self.parent(#[trigger] self.ancestor(x, i)) == t.parent(
            self.ancestor(x, i),
        ) by {
            let y = self.ancestor(x, i);
            if self.contains(y) && self.in_subtree(y, h) {
                assert(self.in_subtree(x, y));
                self.lemma_subtree_trans(x, y, h);
            }
        }
        self.lemma_same_ancestors(t, x, k);
    }

    /// What a tree is, in full: only the root has no parent; every other node
    /// stands among the children of its parent, at one place and no other;
    /// and going up from a node never leads back to it.
    pub proof fn lemma_invariants(self)
        requires
            self.wf(),
        ensures
            self.contains(self.root),
            forall|h: Handle|
                self.contains(h) ==> (#[trigger] self.parent(h) == Handle::none() <==> h
                    == self.root),
            forall|h: Handle|
                self.contains(h) && h != self.root ==> self.contains(#[trigger] self.parent(h))
                    && exists|i: int|
                    0 <= i < self.children(self.parent(h)).len() && self.children(
                        self.parent(h),
                    )[i] == h && forall|j: int|
                        0 <= j < self.children(self.parent(h)).len() && j != i ==> self.children(
                            self.parent(h),
                        )[j] != h,
            forall|h: Handle, k: nat|
                self.contains(h) && k > 0 ==> #[trigger] self.ancestor(h, k) != h,
    {
        self.lemma_root();
        assert forall|h: Handle| self.contains(h) implies (#[trigger] self.parent(h)
            == Handle::none() <==> h == self.root) by {
            self.lemma_parent(h);
        }
        assert forall|h: Handle| self.contains(h) && h != self.root implies self.contains(
            #[trigger] self.parent(h),
        ) && exists|i: int|
            0 <= i < self.children(self.parent(h)).len() && self.children(self.parent(h))[i] == h
                && forall|j: int|
                0 <= j < self.children(self.parent(h)).len() && j != i ==> self.children(
                    self.parent(h),
                )[j] != h by {
            self.lemma_parent(h);
            let p = self.parent(h);
            self.lemma_children(p);
            let i = choose|i: int| 0 <= i < self.children(p).len() && self.children(p)[i] == h;
            assert(forall|j: int|
                0 <= j < self.children(p).len() && j != i ==> self.children(p)[j] != h);
        }
        assert forall|h: Handle, k: nat| self.contains(h) && k > 0 implies #[trigger] self.ancestor(
            h,
            k,
        ) != h by {
            self.lemma_no_cycle(h, k);
        }
    }

    /// In a tree no node is its own ancestor.
    pub proof fn lemma_no_cycle(self, h: Handle, k: nat)
        requires
            self.wf(),
            self.contains(h),
            k > 0,
        ensures
            self.ancestor(h, k) != h,
    {
        self.lemma_ancestors(h, k);
        self.lemma_root();
    }

    /// A tree has a root, which is a node without a parent.
    pub proof fn lemma_root(self)
        requires
            self.wf(),
        ensures
            self.contains(self.root),
            self.root != Handle::none(),
            self.parent(self.root) == Handle::none(),
            !self.contains(Handle::none()),
            self.links.dom().finite(),
    {
        reveal(Tree::wf);
    }

    /// In a tree the root is the one node without a parent, and the parent of
    /// any other node is a node that holds it among its children.
    pub proof fn lemma_parent(self, h: Handle)
        requires
            self.wf(),
            self.contains(h),
        ensures
            h != Handle::none(),
            self.contains(self.root),
            self.parent(h) == Handle::none() <==> h == self.root,
            h != self.root ==> self.contains(self.parent(h)) && self.children(
                self.parent(h),
            ).contains(h) && self.parent(h) != h,
    {
        reveal(Tree::wf);
        if h != self.root {
            assert(self.contains(self.parent(h)));
            self.lemma_depth(h);
        }
    }

    /// In a tree the children of a node are distinct nodes that name it as
    /// their parent.
    pub proof fn lemma_children(self, p: Handle)
        requires
            self.wf(),
            self.contains(p),
        ensures
            self.children(p).no_duplicates(),
            forall|i: int|
                0 <= i < self.children(p).len() ==> self.contains(#[trigger] self.children(p)[i])
                    && self.parent(self.children(p)[i]) == p && self.children(p)[i] != p,
            forall|c: Handle|
                #[trigger] self.children(p).contains(c) <==> self.contains(c)
                    && self.parent(c) == p,
    {
        reveal(Tree::wf);
        assert forall|i: int| 0 <= i < self.children(p).len() implies self.contains(
            #[trigger] self.children(p)[i],
        ) && self.parent(self.children(p)[i]) == p && self.children(p)[i] != p by {
            let c = self.children(p)[i];
            assert(self.contains(c));
            self.lemma_depth(c);
        }
        assert forall|c: Handle| #[trigger]
            self.children(p).contains(c) <==> self.contains(c) && self.parent(c) == p by {
            if self.children(p).contains(c) {
                let j = choose|j: int| 0 <= j < self.children(p).len() && self.children(p)[j] == c;
                assert(self.contains(self.children(p)[j]));
            }
            if self.contains(c) && self.parent(c) == p {
                assert(c != self.root);
                assert(self.contains(self.parent(c)));
            }
        }
    }

    /// A node without children has nothing under it but itself.
    pub proof fn lemma_leaf(self, leaf: Handle, x: Handle)
        requires
            self.wf(),
            self.children(leaf).len() == 0,
            self.in_subtree(x, leaf),
        ensures
            x == leaf,
    {
        if x != leaf {
            self.lemma_in_subtree(x, leaf);
            let k = (self.depth(x) - self.depth(leaf)) as nat;
            if k == 0 {
                assert(self.ancestor(x, 0) == x);
            }
            let c = self.ancestor(x, (k - 1) as nat);
            self.lemma_ancestors(x, (k - 1) as nat);
            self.lemma_ancestor_step(x, (k - 1) as nat);
            self.lemma_depth(leaf);
            self.lemma_parent(c);
            self.lemma_parent(leaf);
            self.lemma_children(leaf);
            assert(self.children(leaf).contains(c));
        }
    }

    /// The hierarchy with the new node `n` as the last child of `p`.
    pub open spec fn with_child(self, n: Handle, p: Handle) -> Tree {
        self.add(n).relink(n, p)
    }

    /// Adding a node below a node of a tree gives a tree in which the new
    /// node has no children and stands last among the children of its parent,
    /// and in which nothing else has changed.
    pub proof fn lemma_with_child(self, n: Handle, p: Handle)
        requires
            self.wf(),
            !self.contains(n),
            n != Handle::none(),
            self.contains(p),
        ensures
            self.with_child(n, p).wf(),
            self.with_child(n, p).root == self.root,
            forall|x: Handle| self.with_child(n, p).contains(x) <==> self.contains(x) || x == n,
            forall|x: Handle| x != n ==> #[trigger] self.with_child(n, p).parent(x)
                == self.parent(x),
            self.with_child(n, p).parent(n) == p,
            forall|x: Handle|
                x != n && x != p ==> #[trigger] self.with_child(n, p).children(x)
                    == self.children(x),
            self.with_child(n, p).children(p) == self.children(p).push(n),
            self.with_child(n, p).children(n) == Seq::<Handle>::empty(),
    {
        let a = self.add(n);
        let t = self.with_child(n, p);
        self.lemma_add_wf(n);
        self.lemma_root();
        assert(a.children(n) =~= Seq::<Handle>::empty());
        if a.in_subtree(p, n) {
            a.lemma_leaf(n, p);
        }
        a.lemma_relink_wf(n, p);
        a.lemma_relink_links(n, p);
        assert forall|x: Handle| x != n implies #[trigger] t.parent(x) == self.parent(x) by {}
        assert forall|x: Handle| x != n && x != self.root implies !(#[trigger] a.children(
            x,
        )).contains(n) && a.children(x) == self.children(x) by {
            if self.contains(x) {
                self.lemma_children(x);
                assert(a.children(x) == self.children(x));
            } else {
                assert(a.children(x) =~= Seq::<Handle>::empty());
                assert(self.children(x) =~= Seq::<Handle>::empty());
            }
        }
        let rc = self.children(self.root);
        assert(a.children(self.root) == rc.push(n));
        assert(rc.push(n).remove_value(n) == rc) by {
            self.lemma_children(self.root);
            assert(!rc.contains(n));
            let s = rc.push(n);
            s.index_of_first_ensures(n);
            assert(s[rc.len() as int] == n);
            let i = s.index_of_first(n).unwrap();
            if i < rc.len() {
                assert(rc[i] == n);
            }
            assert(s.remove(i) =~= rc);
        }
        assert forall|x: Handle| x != n && x != p implies #[trigger] t.children(x) == self.children(
            x,
        ) by {
            if x != self.root {
                assert(!a.children(x).contains(n));
                lemma_remove_value(a.children(x), n);
            }
        }
        if p != self.root {
            assert(!a.children(p).contains(n));
            lemma_remove_value(a.children(p), n);
        }
        lemma_remove_value(a.children(n), n);
        assert(t.children(n) =~= Seq::<Handle>::empty());
    }
}

} // verus!
