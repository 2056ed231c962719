//! Depth-first traversal of a [`Tree`] with an explicit stack.
//!
//! A traversal starts with one node on its stack. Each step takes the top
//! node off, visits it and puts its children on. This module defines the
//! stack and the set of visited nodes after any number of steps, and proves
//! that on a tree the traversal visits the start node and its descendants,
//! each once and each after its parent, and then stops.

use vstd::prelude::*;
use crate::pool::Handle;
use crate::tree::Tree;

verus! {

impl Tree {
    /// The children of `h` as a traversal puts them on its stack. In order,
    /// they go on last to first, so that the first child is visited first;
    /// otherwise first to last, so that the last child is visited first.
    pub open spec fn pushed(self, h: Handle, in_order: bool) -> Seq<Handle> {
        if in_order {
            self.children(h).reverse()
        } else {
            self.children(h)
        }
    }

    /// The stack after one more step: without its top, and with the children
    /// of the top on it.
    pub open spec fn dfs_next(self, stack: Seq<Handle>, in_order: bool) -> Seq<Handle> {
        if stack.len() == 0 {
            stack
        } else {
            stack.drop_last() + self.pushed(stack.last(), in_order)
        }
    }

    /// The stack of the traversal from `start` after `n` steps.
    pub open spec fn dfs_stack(self, start: Handle, n: nat, in_order: bool) -> Seq<Handle>
        decreases n,
    {
        if n == 0 {
            seq![start]
        } else {
            self.dfs_next(self.dfs_stack(start, (n - 1) as nat, in_order), in_order)
        }
    }

    /// The nodes that the traversal from `start` has visited in its first `n`
    /// steps.
    pub open spec fn dfs_visited(self, start: Handle, n: nat, in_order: bool) -> Set<Handle>
        decreases n,
    {
        if n == 0 {
            Set::empty()
        } else {
            let stack = self.dfs_stack(start, (n - 1) as nat, in_order);
            let visited = self.dfs_visited(start, (n - 1) as nat, in_order);
            if stack.len() == 0 {
                visited
            } else {
                visited.insert(stack.last())
            }
        }
    }

    /// What holds of a traversal after `n` steps: it has visited `n` nodes;
    /// they lie under `start`, and each but `start` after its parent; the
    /// nodes on the stack lie under `start`, are distinct and not yet visited,
    /// and their parents are; and every node under `start` is visited or lies
    /// under a node on the stack.
    #[verifier::opaque]
    pub open spec fn dfs_inv(self, start: Handle, n: nat, in_order: bool) -> bool {
        let s = self.dfs_stack(start, n, in_order);
        let v = self.dfs_visited(start, n, in_order);
        &&& v.finite()
        &&& v.len() == n
        &&& forall|x: Handle|
            #[trigger] v.contains(x) ==> self.in_subtree(x, start) && (x == start || v.contains(
                self.parent(x),
            ))
        &&& forall|i: int|
            0 <= i < s.len() ==> {
                &&& self.in_subtree(#[trigger] s[i], start)
                &&& !v.contains(s[i])
                &&& s[i] == start || v.contains(self.parent(s[i]))
            }
        &&& s.no_duplicates()
        &&& forall|x: Handle|
            #[trigger] self.in_subtree(x, start) && !v.contains(x) ==> exists|i: int|
                0 <= i < s.len() && self.in_subtree(x, #[trigger] s[i])
    }

    /// The traversal order from `start`: the node visited first, second, and
    /// so on, as many as lie under `start`.
    pub open spec fn dfs_order(self, start: Handle, in_order: bool) -> Seq<Handle> {
        Seq::new(
            self.subtree(start).len(),
            |k: int| self.dfs_stack(start, k as nat, in_order).last(),
        )
    }

    /// Before its first step a traversal has visited nothing.
    pub proof fn lemma_dfs_start(self, start: Handle, in_order: bool)
        requires
            self.wf(),
            self.contains(start),
        ensures
            self.dfs_inv(start, 0, in_order),
    {
        reveal(Tree::dfs_inv);
        let s = self.dfs_stack(start, 0, in_order);
        self.lemma_subtree_self(start);
        assert(s[0] == start);
        assert forall|x: Handle| #[trigger]
            self.in_subtree(x, start) implies exists|i: int|
            0 <= i < s.len() && self.in_subtree(x, #[trigger] s[i]) by {
            assert(self.in_subtree(x, s[0]));
        }
    }

    /// The children that a traversal pushes are the children of the node.
    pub proof fn lemma_pushed(self, h: Handle, in_order: bool)
        requires
            self.wf(),
            self.contains(h),
        ensures
            self.pushed(h, in_order).len() == self.children(h).len(),
            self.pushed(h, in_order).no_duplicates(),
            forall|i: int|
                0 <= i < self.pushed(h, in_order).len() ==> self.children(h).contains(
                    #[trigger] self.pushed(h, in_order)[i],
                ),
            forall|c: Handle|
                self.children(h).contains(c) ==> self.pushed(h, in_order).contains(c),
    {
        self.lemma_children(h);
        let c = self.children(h);
        let p = self.pushed(h, in_order);
        assert(c.no_duplicates());
        if in_order {
            assert forall|x: Handle| c.contains(x) implies p.contains(x) by {
                let j = choose|j: int| 0 <= j < c.len() && c[j] == x;
                assert(p[c.len() - 1 - j] == x);
            }
            assert forall|i: int| 0 <= i < p.len() implies c.contains(#[trigger] p[i]) by {
                assert(c[c.len() - 1 - i] == p[i]);
            }
        } else {
            assert forall|i: int| 0 <= i < p.len() implies c.contains(#[trigger] p[i]) by {
                assert(c[i] == p[i]);
            }
        }
    }

    /// A child of `h` is a node one level below `h` that is not `h`.
    proof fn lemma_child(self, h: Handle, c: Handle)
        requires
            self.wf(),
            self.contains(h),
            self.children(h).contains(c),
        ensures
            self.contains(c),
            self.parent(c) == h,
            c != self.root,
            self.depth(c) == self.depth(h) + 1,
            self.in_subtree(c, h),
    {
        self.lemma_children(h);
        let j = choose|j: int| 0 <= j < self.children(h).len() && self.children(h)[j] == c;
        assert(self.contains(self.children(h)[j]));
        self.lemma_parent(h);
        self.lemma_parent(c);
        self.lemma_depth(c);
        assert(self.ancestor(c, 1) == self.ancestor(self.parent(c), 0));
    }

    /// A child of the node on top of the stack is neither visited nor on the
    /// stack, and it is not the start.
    pub proof fn lemma_dfs_child_is_new(self, start: Handle, n: nat, in_order: bool, c: Handle)
        requires
            self.wf(),
            self.contains(start),
            self.dfs_inv(start, n, in_order),
            self.dfs_stack(start, n, in_order).len() > 0,
            self.children(self.dfs_stack(start, n, in_order).last()).contains(c),
        ensures
            self.in_subtree(c, start),
            c != start,
            c != self.dfs_stack(start, n, in_order).last(),
            self.parent(c) == self.dfs_stack(start, n, in_order).last(),
            !self.dfs_visited(start, n, in_order).contains(c),
            !self.dfs_stack(start, n, in_order).contains(c),
    {
        self.lemma_dfs_child(start, n, in_order, c);
    }

    proof fn lemma_dfs_child(self, start: Handle, n: nat, in_order: bool, c: Handle)
        requires
            self.wf(),
            self.contains(start),
            self.dfs_inv(start, n, in_order),
            self.dfs_stack(start, n, in_order).len() > 0,
            self.children(self.dfs_stack(start, n, in_order).last()).contains(c),
        ensures
            self.in_subtree(c, start),
            c != start,
            c != self.dfs_stack(start, n, in_order).last(),
            self.parent(c) == self.dfs_stack(start, n, in_order).last(),
            !self.dfs_visited(start, n, in_order).contains(c),
            !self.dfs_stack(start, n, in_order).contains(c),
    {
        let s = self.dfs_stack(start, n, in_order);
        let v = self.dfs_visited(start, n, in_order);
        let h = s.last();
        self.lemma_dfs_top(start, n, in_order);
        self.lemma_child(h, c);
        self.lemma_subtree_trans(c, h, start);
        self.lemma_subtree_depth(h, start);
        assert(c != start);
        reveal(Tree::dfs_inv);
        if v.contains(c) {
            assert(v.contains(self.parent(c)));
            assert(false);
        }
        if s.contains(c) {
            let i = choose|i: int| 0 <= i < s.len() && s[i] == c;
            assert(s[i] == start || v.contains(self.parent(s[i])));
            assert(false);
        }
    }

    /// A node under the node on top of the stack is that node or lies under
    /// one of its children.
    proof fn lemma_under_child(self, h: Handle, x: Handle) -> (c: Handle)
        requires
            self.wf(),
            self.in_subtree(x, h),
            x != h,
        ensures
            self.children(h).contains(c),
            self.in_subtree(x, c),
    {
        self.lemma_in_subtree(x, h);
        let k = (self.depth(x) - self.depth(h)) as nat;
        assert(k > 0) by {
            if k == 0 {
                assert(self.ancestor(x, 0) == x);
            }
        }
        let c = self.ancestor(x, (k - 1) as nat);
        self.lemma_ancestors(x, (k - 1) as nat);
        self.lemma_ancestor_step(x, (k - 1) as nat);
        self.lemma_depth(h);
        assert(self.parent(c) == h);
        self.lemma_parent(c);
        self.lemma_parent(h);
        self.lemma_children(h);
        assert(self.children(h).contains(c));
        assert(self.in_subtree(x, c));
        c
    }

    /// One step of a traversal keeps what holds of it.
    pub proof fn lemma_dfs_step(self, start: Handle, n: nat, in_order: bool)
        requires
            self.wf(),
            self.contains(start),
            self.dfs_inv(start, n, in_order),
            self.dfs_stack(start, n, in_order).len() > 0,
        ensures
            self.dfs_inv(start, n + 1, in_order),
            self.dfs_stack(start, n + 1, in_order) == self.dfs_next(
                self.dfs_stack(start, n, in_order),
                in_order,
            ),
            self.dfs_visited(start, n + 1, in_order) == self.dfs_visited(start, n, in_order).insert(
                self.dfs_stack(start, n, in_order).last(),
            ),
    {
        let s = self.dfs_stack(start, n, in_order);
        let v = self.dfs_visited(start, n, in_order);
        let h = s.last();
        let kids = self.pushed(h, in_order);
        let s2 = self.dfs_stack(start, n + 1, in_order);
        let v2 = self.dfs_visited(start, n + 1, in_order);
        let m = s.len() - 1;
        assert(s2 == s.drop_last() + kids);
        assert(v2 == v.insert(h));
        self.lemma_dfs_top(start, n, in_order);
        self.lemma_pushed(h, in_order);
        assert forall|i: int| 0 <= i < s2.len() implies {
            &&& self.in_subtree(#[trigger] s2[i], start)
            &&& !v2.contains(s2[i])
            &&& s2[i] == start || v2.contains(self.parent(s2[i]))
        } by {
            if i < m {
                assert(s2[i] == s[i]);
                assert(s[i] != s[m]) by {
                    reveal(Tree::dfs_inv);
                }
                assert(self.in_subtree(s[i], start) && !v.contains(s[i]) && (s[i] == start
                    || v.contains(self.parent(s[i])))) by {
                    reveal(Tree::dfs_inv);
                }
            } else {
                let c = kids[i - m];
                assert(s2[i] == c);
                self.lemma_dfs_child(start, n, in_order, c);
            }
        }
        assert forall|i: int, j: int| 0 <= i < s2.len() && 0 <= j < s2.len() && i != j implies s2[i]
            != s2[j] by {
            if i < m && j < m {
                assert(s2[i] == s[i] && s2[j] == s[j]);
                assert(s[i] != s[j]) by {
                    reveal(Tree::dfs_inv);
                }
            } else if i >= m && j >= m {
                assert(s2[i] == kids[i - m] && s2[j] == kids[j - m]);
            } else {
                let (a, b) = if i < m {
                    (i, j)
                } else {
                    (j, i)
                };
                assert(s2[a] == s[a]);
                let c = kids[b - m];
                assert(s2[b] == c);
                self.lemma_dfs_child(start, n, in_order, c);
            }
        }
        assert forall|x: Handle| #[trigger]
            self.in_subtree(x, start) && !v2.contains(x) implies exists|i: int|
            0 <= i < s2.len() && self.in_subtree(x, #[trigger] s2[i]) by {
            let i = choose|i: int| 0 <= i < s.len() && self.in_subtree(x, #[trigger] s[i]);
            assert(0 <= i < s.len() && self.in_subtree(x, s[i])) by {
                reveal(Tree::dfs_inv);
            }
            if i < m {
                assert(s2[i] == s[i]);
                assert(self.in_subtree(x, s2[i]));
            } else {
                let c = self.lemma_under_child(h, x);
                assert(kids.contains(c));
                let j = choose|j: int| 0 <= j < kids.len() && kids[j] == c;
                assert(s2[m + j] == c);
                assert(self.in_subtree(x, s2[m + j]));
            }
        }
        assert forall|x: Handle| #[trigger] v2.contains(x) implies self.in_subtree(x, start) && (x
            == start || v2.contains(self.parent(x))) by {
            if x != h {
                assert(v.contains(x));
                reveal(Tree::dfs_inv);
            }
        }
        assert(v2.finite() && v2.len() == n + 1) by {
            reveal(Tree::dfs_inv);
        }
        assert(self.dfs_inv(start, n + 1, in_order)) by {
            reveal(Tree::dfs_inv);
        }
    }

    /// A traversal whose stack is empty has visited exactly the nodes under
    /// its start, and has taken as many steps as there are such nodes.
    pub proof fn lemma_dfs_end(self, start: Handle, n: nat, in_order: bool)
        requires
            self.wf(),
            self.contains(start),
            self.dfs_inv(start, n, in_order),
            self.dfs_stack(start, n, in_order).len() == 0,
        ensures
            self.dfs_visited(start, n, in_order) == self.subtree(start),
            self.subtree(start).len() == n,
    {
        reveal(Tree::dfs_inv);
        let v = self.dfs_visited(start, n, in_order);
        assert forall|x: Handle| self.subtree(start).contains(x) implies v.contains(x) by {
            if !v.contains(x) {
                assert(self.in_subtree(x, start));
            }
        }
        assert(v =~= self.subtree(start));
    }

    /// The nodes under a node are finitely many.
    pub proof fn lemma_subtree_finite(self, a: Handle)
        requires
            self.wf(),
        ensures
            self.subtree(a).finite(),
            self.subtree(a).len() <= self.links.dom().len(),
    {
        reveal(Tree::wf);
        assert(self.subtree(a).subset_of(self.links.dom()));
        vstd::set_lib::lemma_len_subset(self.subtree(a), self.links.dom());
    }

    /// A traversal goes on for as many steps as there are nodes under its
    /// start, and no further.
    pub proof fn lemma_dfs_runs(self, start: Handle, n: nat, in_order: bool)
        requires
            self.wf(),
            self.contains(start),
            n <= self.subtree(start).len(),
        ensures
            self.dfs_inv(start, n, in_order),
            n < self.subtree(start).len() ==> self.dfs_stack(start, n, in_order).len() > 0,
            n == self.subtree(start).len() ==> self.dfs_stack(start, n, in_order).len() == 0,
        decreases n,
    {
        if n == 0 {
            self.lemma_dfs_start(start, in_order);
        } else {
            self.lemma_dfs_runs(start, (n - 1) as nat, in_order);
            self.lemma_dfs_step(start, (n - 1) as nat, in_order);
        }
        let s = self.dfs_stack(start, n, in_order);
        let v = self.dfs_visited(start, n, in_order);
        self.lemma_subtree_finite(start);
        if s.len() == 0 {
            self.lemma_dfs_end(start, n, in_order);
        } else {
            self.lemma_dfs_top(start, n, in_order);
            self.lemma_dfs_visited(start, n, in_order);
            if n == self.subtree(start).len() {
                vstd::set_lib::lemma_subset_equality(v, self.subtree(start));
                assert(self.subtree(start).contains(s.last()));
                assert(false);
            }
        }
    }

    /// The traversal order holds every node under the start, each once, and
    /// nothing else; and every node but the start comes after its parent.
    pub proof fn lemma_dfs_order(self, start: Handle, in_order: bool)
        requires
            self.wf(),
            self.contains(start),
        ensures
            self.dfs_order(start, in_order).no_duplicates(),
            forall|x: Handle|
                self.dfs_order(start, in_order).contains(x) <==> self.in_subtree(x, start),
            self.dfs_order(start, in_order).len() > 0,
            self.dfs_order(start, in_order)[0] == start,
    {
        let order = self.dfs_order(start, in_order);
        let total = self.subtree(start).len();
        self.lemma_subtree_finite(start);
        self.lemma_subtree_self(start);
        assert(self.subtree(start).contains(start));
        assert(total > 0) by {
            if total == 0 {
                self.subtree(start).lemma_len0_is_empty();
            }
        }
        self.lemma_dfs_runs(start, total, in_order);
        self.lemma_dfs_end(start, total, in_order);
        assert forall|x: Handle| order.contains(x) <==> self.in_subtree(x, start) by {
            self.lemma_visited_is_prefix(start, total, in_order, x);
            assert(self.subtree(start).contains(x) <==> self.in_subtree(x, start));
        }
        assert forall|i: int, j: int| 0 <= i < order.len() && 0 <= j < order.len()
            && i != j implies order[i]
            != order[j] by {
            let (a, b) = if i < j { (i, j) } else { (j, i) };
            self.lemma_visited_is_prefix(start, b as nat, in_order, order[a]);
            self.lemma_dfs_runs(start, b as nat, in_order);
            self.lemma_dfs_top(start, b as nat, in_order);
        }
    }

    /// The nodes visited in the first `k` steps are the first `k` of the
    /// traversal order.
    pub proof fn lemma_visited_is_prefix(self, start: Handle, k: nat, in_order: bool, x: Handle)
        requires
            self.wf(),
            self.contains(start),
            k <= self.subtree(start).len(),
        ensures
            self.dfs_visited(start, k, in_order).contains(x) <==> exists|i: int|
                0 <= i < k && self.dfs_order(start, in_order)[i] == x,
        decreases k,
    {
        let order = self.dfs_order(start, in_order);
        if k > 0 {
            self.lemma_visited_is_prefix(start, (k - 1) as nat, in_order, x);
            self.lemma_dfs_runs(start, (k - 1) as nat, in_order);
            self.lemma_dfs_step(start, (k - 1) as nat, in_order);
            if self.dfs_visited(start, k, in_order).contains(x) {
                if x == order[k - 1] {
                } else {
                    let i = choose|i: int| 0 <= i < k - 1 && order[i] == x;
                    assert(0 <= i < k && order[i] == x);
                }
            }
        }
    }

    /// What a traversal knows of the node on top of its stack: it lies under
    /// the start, it has not been visited, and its parent has, unless it is
    /// the start itself.
    pub proof fn lemma_dfs_top(self, start: Handle, n: nat, in_order: bool)
        requires
            self.dfs_inv(start, n, in_order),
            self.dfs_stack(start, n, in_order).len() > 0,
        ensures
            self.in_subtree(self.dfs_stack(start, n, in_order).last(), start),
            !self.dfs_visited(start, n, in_order).contains(
                self.dfs_stack(start, n, in_order).last(),
            ),
            self.dfs_stack(start, n, in_order).last() == start || self.dfs_visited(
                start,
                n,
                in_order,
            ).contains(self.parent(self.dfs_stack(start, n, in_order).last())),
    {
        reveal(Tree::dfs_inv);
        let s = self.dfs_stack(start, n, in_order);
        assert(self.in_subtree(s[s.len() - 1], start));
    }

    /// What a traversal has visited lies under its start, and is as many
    /// nodes as it has taken steps.
    pub proof fn lemma_dfs_visited(self, start: Handle, n: nat, in_order: bool)
        requires
            self.wf(),
            self.dfs_inv(start, n, in_order),
        ensures
            self.dfs_visited(start, n, in_order).finite(),
            self.dfs_visited(start, n, in_order).len() == n,
            self.dfs_visited(start, n, in_order).subset_of(self.subtree(start)),
            n <= self.subtree(start).len(),
            n <= self.links.dom().len(),
    {
        reveal(Tree::dfs_inv);
        self.lemma_subtree_finite(start);
        vstd::set_lib::lemma_len_subset(self.dfs_visited(start, n, in_order), self.subtree(start));
    }

    /// What holds of the node at place `i` of the stack of a traversal that
    /// takes children in their order, if the node is the child number `a` of
    /// its parent: the child number `b` of that parent has been visited or
    /// stands higher on the stack if it comes before, and stands lower on the
    /// stack if it comes after.
    pub open spec fn sibling_order(self, start: Handle, n: nat, i: int, a: int, b: int) -> bool {
        let s = self.dfs_stack(start, n, true);
        let v = self.dfs_visited(start, n, true);
        let siblings = self.children(self.parent(s[i]));
        0 <= i < s.len() && s[i] != start && 0 <= a < siblings.len() && 0 <= b < siblings.len()
            && siblings[a] == s[i] ==> {
            &&& b < a ==> v.contains(siblings[b]) || exists|j: int|
                i < j < s.len() && s[j] == siblings[b]
            &&& b > a ==> exists|j: int| 0 <= j < i && s[j] == siblings[b]
        }
    }

    /// A traversal that takes children in their order visits the children of
    /// a node in the order in which the node lists them.
    pub open spec fn dfs_ordered(self, start: Handle, n: nat) -> bool {
        forall|i: int, a: int, b: int| #[trigger] self.sibling_order(start, n, i, a, b)
    }

    /// Before its first step a traversal is in order.
    pub proof fn lemma_dfs_ordered_start(self, start: Handle)
        ensures
            self.dfs_ordered(start, 0),
    {
        let s = self.dfs_stack(start, 0, true);
        assert(s[0] == start);
    }

    /// One step of a traversal that takes children in their order keeps it in
    /// order.
    pub proof fn lemma_dfs_ordered_step(self, start: Handle, n: nat)
        requires
            self.wf(),
            self.contains(start),
            self.dfs_inv(start, n, true),
            self.dfs_ordered(start, n),
            self.dfs_stack(start, n, true).len() > 0,
        ensures
            self.dfs_ordered(start, n + 1),
    {
        let s = self.dfs_stack(start, n, true);
        let v = self.dfs_visited(start, n, true);
        let x = s.last();
        let m = s.len() - 1;
        let kids = self.pushed(x, true);
        let count = self.children(x).len() as int;
        self.lemma_dfs_step(start, n, true);
        self.lemma_dfs_top(start, n, true);
        self.lemma_pushed(x, true);
        self.lemma_children(x);
        let s2 = self.dfs_stack(start, n + 1, true);
        let v2 = self.dfs_visited(start, n + 1, true);
        assert(s2 == s.drop_last() + kids);
        assert forall|i: int, a: int, b: int| #[trigger]
            self.sibling_order(start, n + 1, i, a, b) by {
            let siblings = self.children(self.parent(s2[i]));
            if 0 <= i < s2.len() && s2[i] != start && 0 <= a < siblings.len() && 0 <= b
                < siblings.len() && siblings[a] == s2[i] {
                if i < m {
                    assert(s2[i] == s[i]);
                    assert(self.sibling_order(start, n, i, a, b));
                    if b < a {
                        if !v.contains(siblings[b]) {
                            let j = choose|j: int| i < j < s.len() && s[j] == siblings[b];
                            if j < m {
                                assert(s2[j] == s[j]);
                            }
                        }
                    }
                    if b > a {
                        let j = choose|j: int| 0 <= j < i && s[j] == siblings[b];
                        assert(s2[j] == s[j]);
                    }
                } else {
                    let q = i - m;
                    assert(s2[i] == kids[q]);
                    assert(kids[q] == self.children(x)[count - 1 - q]);
                    let c = kids[q];
                    assert(self.children(x).contains(c));
                    assert(self.parent(c) == x);
                    assert(siblings == self.children(x));
                    assert(a == count - 1 - q);
                    if b < a {
                        let j = m + (count - 1 - b);
                        assert(s2[j] == kids[count - 1 - b]);
                        assert(i < j < s2.len() && s2[j] == siblings[b]);
                    }
                    if b > a {
                        let j = m + (count - 1 - b);
                        assert(s2[j] == kids[count - 1 - b]);
                        assert(0 <= j < i && s2[j] == siblings[b]);
                    }
                }
            }
        }
    }

    /// When a traversal that takes children in their order is about to visit
    /// the child number `a` of a node, it has visited the children that come
    /// before and none of those that come after.
    pub proof fn lemma_dfs_next_child(self, start: Handle, n: nat, a: int)
        requires
            self.wf(),
            self.contains(start),
            self.dfs_inv(start, n, true),
            self.dfs_ordered(start, n),
            self.dfs_stack(start, n, true).len() > 0,
            self.dfs_stack(start, n, true).last() != start,
            0 <= a < self.children(self.parent(self.dfs_stack(start, n, true).last())).len(),
            self.children(self.parent(self.dfs_stack(start, n, true).last()))[a]
                == self.dfs_stack(start, n, true).last(),
        ensures
            forall|b: int|
                0 <= b < self.children(self.parent(self.dfs_stack(start, n, true).last())).len()
                    ==> (self.dfs_visited(start, n, true).contains(
                    #[trigger] self.children(
                        self.parent(self.dfs_stack(start, n, true).last()),
                    )[b],
                ) <==> b < a),
    {
        let s = self.dfs_stack(start, n, true);
        let v = self.dfs_visited(start, n, true);
        let x = s.last();
        let i = s.len() - 1;
        let siblings = self.children(self.parent(x));
        self.lemma_dfs_top(start, n, true);
        assert forall|b: int| 0 <= b < siblings.len() implies (v.contains(#[trigger] siblings[b])
            <==> b < a) by {
            assert(self.sibling_order(start, n, i, a, b));
            if b > a {
                let j = choose|j: int| 0 <= j < i && s[j] == siblings[b];
                assert(!v.contains(s[j])) by {
                    reveal(Tree::dfs_inv);
                }
            }
        }
    }
}

} // verus!
