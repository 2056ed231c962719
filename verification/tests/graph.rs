use scene_graph::base::Base;
use scene_graph::graph::Graph;
use scene_graph::math::{Mat4, Vec3};
use scene_graph::node::Node;
use scene_graph::pool::{BorrowError, Handle};

fn named(name: &str) -> Node {
    let mut base = Base::default();
    base.set_name(name);
    Node::Base(base)
}

fn at(name: &str, x: i64, y: i64, z: i64) -> Node {
    let mut base = Base::default();
    base.set_name(name);
    base.set_position(Vec3::new(x, y, z));
    Node::Base(base)
}

fn children(graph: &Graph, h: Handle) -> Vec<Handle> {
    graph.get(h).base().children().clone()
}

fn handles(graph: &Graph, from: Handle) -> Vec<Handle> {
    let mut it = graph.traverse_handle_iter(from);
    let mut out = Vec::new();
    while let Some(h) = it.next() {
        out.push(h);
    }
    out
}

#[test]
fn graph_init_test() {
    let graph = Graph::new();
    assert_ne!(graph.get_root(), Handle::none());
    assert_eq!(graph.alive_count(), 1);
}

#[test]
fn graph_node_test() {
    let mut graph = Graph::new();
    let a = graph.add_node(Node::Base(Base::default()));
    let b = graph.add_node(Node::Base(Base::default()));
    let c = graph.add_node(Node::Base(Base::default()));
    assert_eq!(graph.alive_count(), 4);
    assert!(a != b && b != c && a != c);
}

#[test]
fn the_root_is_named_and_has_no_parent() {
    let graph = Graph::new();
    let root = graph.get(graph.get_root()).base();
    assert_eq!(root.name(), "__ROOT__");
    assert!(root.parent().is_none());
    assert!(root.children().is_empty());
    assert!(graph.is_valid_handle(graph.get_root()));
}

#[test]
fn a_default_graph_has_no_nodes() {
    let graph = Graph::default();
    assert!(graph.get_root().is_none());
    assert_eq!(graph.alive_count(), 0);
    assert_eq!(graph.get_capacity(), 0);
}

#[test]
fn added_nodes_are_children_of_the_root_in_order() {
    let mut graph = Graph::new();
    let root = graph.get_root();
    let a = graph.add_node(named("a"));
    let b = graph.add_node(named("b"));
    assert_eq!(children(&graph, root), vec![a, b]);
    assert_eq!(graph.get(a).base().parent(), root);
    assert_eq!(graph.get(b).base().parent(), root);
    assert_eq!(graph.get(a).base().name(), "a");
}

#[test]
fn add_node_drops_the_links_that_a_node_came_with() {
    let mut graph = Graph::new();
    let root = graph.get_root();
    let a = graph.add_node(named("a"));
    let b = graph.add_node(named("b"));
    graph.link_nodes(b, a);
    let copy = graph.get(a).clone();
    assert_eq!(copy.base().children().len(), 1);
    let c = graph.add_node(copy);
    assert_eq!(graph.get(c).base().parent(), root);
    assert!(graph.get(c).base().children().is_empty());
    assert_eq!(children(&graph, a), vec![b]);
    assert_eq!(children(&graph, root), vec![a, c]);
}

#[test]
fn add_child_puts_a_node_below_its_parent() {
    let mut graph = Graph::new();
    let root = graph.get_root();
    let a = graph.add_node(named("a"));
    let b = graph.add_child(named("b"), a);
    let c = graph.add_child(named("c"), a);
    assert_eq!(children(&graph, root), vec![a]);
    assert_eq!(children(&graph, a), vec![b, c]);
    assert_eq!(graph.get(c).base().parent(), a);
}

#[test]
fn link_nodes_moves_a_node_to_the_end_of_the_new_parent() {
    let mut graph = Graph::new();
    let root = graph.get_root();
    let a = graph.add_node(named("a"));
    let b = graph.add_node(named("b"));
    let c = graph.add_node(named("c"));
    graph.link_nodes(a, c);
    assert_eq!(children(&graph, root), vec![b, c]);
    assert_eq!(children(&graph, c), vec![a]);
    assert_eq!(graph.get(a).base().parent(), c);
    graph.link_nodes(b, c);
    assert_eq!(children(&graph, root), vec![c]);
    assert_eq!(children(&graph, c), vec![a, b]);
}

#[test]
fn link_nodes_under_the_same_parent_moves_to_the_end() {
    let mut graph = Graph::new();
    let root = graph.get_root();
    let a = graph.add_node(named("a"));
    let b = graph.add_node(named("b"));
    graph.link_nodes(a, root);
    assert_eq!(children(&graph, root), vec![b, a]);
}

#[test]
fn link_nodes_takes_the_subtree_along() {
    let mut graph = Graph::new();
    let a = graph.add_node(named("a"));
    let b = graph.add_node(named("b"));
    let c = graph.add_node(named("c"));
    graph.link_nodes(b, a);
    graph.link_nodes(a, c);
    assert_eq!(children(&graph, a), vec![b]);
    assert_eq!(graph.get(b).base().parent(), a);
    assert_eq!(graph.get(a).base().parent(), c);
    assert_eq!(graph.alive_count(), 4);
}

#[test]
fn unlink_node_goes_back_to_the_root_at_the_origin() {
    let mut graph = Graph::new();
    let root = graph.get_root();
    let a = graph.add_node(named("a"));
    let b = graph.add_node(at("b", 1, 2, 3));
    graph.link_nodes(b, a);
    graph.unlink_node(b);
    assert_eq!(graph.get(b).base().parent(), root);
    assert_eq!(children(&graph, root), vec![a, b]);
    assert!(children(&graph, a).is_empty());
    assert_eq!(graph.get(b).base().local_transform().position(), Vec3::zero());
    assert_eq!(graph.get(b).base().name(), "b");
}

#[test]
fn remove_node_takes_the_subtree_and_nothing_else() {
    let mut graph = Graph::new();
    let root = graph.get_root();
    let a = graph.add_node(named("a"));
    let b = graph.add_child(named("b"), a);
    let c = graph.add_child(named("c"), b);
    let d = graph.add_child(named("d"), a);
    let e = graph.add_node(named("e"));
    assert_eq!(graph.alive_count(), 6);
    graph.remove_node(b);
    assert_eq!(graph.alive_count(), 4);
    assert!(!graph.is_valid_handle(b));
    assert!(!graph.is_valid_handle(c));
    assert!(graph.is_valid_handle(a));
    assert!(graph.is_valid_handle(d));
    assert!(graph.is_valid_handle(e));
    assert!(graph.is_valid_handle(root));
    assert_eq!(children(&graph, a), vec![d]);
    assert_eq!(children(&graph, root), vec![a, e]);
}

#[test]
fn remove_node_of_a_leaf_removes_one_node() {
    let mut graph = Graph::new();
    let a = graph.add_node(named("a"));
    let b = graph.add_node(named("b"));
    graph.remove_node(a);
    assert_eq!(graph.alive_count(), 2);
    assert_eq!(children(&graph, graph.get_root()), vec![b]);
}

#[test]
fn remove_node_of_the_root_empties_the_graph() {
    let mut graph = Graph::new();
    let a = graph.add_node(named("a"));
    graph.add_child(named("b"), a);
    let root = graph.get_root();
    graph.remove_node(root);
    assert_eq!(graph.alive_count(), 0);
    assert!(!graph.is_valid_handle(root));
    assert!(!graph.is_valid_handle(a));
}

#[test]
fn a_removed_handle_stays_dead_when_its_slot_is_reused() {
    let mut graph = Graph::new();
    let a = graph.add_node(named("a"));
    graph.remove_node(a);
    let b = graph.add_node(named("b"));
    assert_eq!(a.index(), b.index());
    assert!(!graph.is_valid_handle(a));
    assert!(graph.is_valid_handle(b));
}

#[test]
fn the_tree_holds_after_a_run_of_changes() {
    let mut graph = Graph::new();
    let root = graph.get_root();
    let a = graph.add_node(named("a"));
    let b = graph.add_node(named("b"));
    let c = graph.add_node(named("c"));
    let d = graph.add_node(named("d"));
    graph.link_nodes(b, a);
    graph.link_nodes(c, b);
    graph.link_nodes(d, a);
    graph.unlink_node(c);
    graph.remove_node(b);
    let e = graph.add_node(named("e"));
    graph.link_nodes(a, e);
    let pairs = graph.pair_iter();
    let mut without_parent = 0;
    for (h, node) in pairs.iter() {
        let parent = node.base().parent();
        if parent.is_none() {
            without_parent += 1;
            assert_eq!(*h, root);
        } else {
            assert!(graph.is_valid_handle(parent));
            let times = children(&graph, parent).iter().filter(|x| **x == *h).count();
            assert_eq!(times, 1);
        }
        for child in node.base().children().iter() {
            assert!(graph.is_valid_handle(*child));
            assert_eq!(graph.get(*child).base().parent(), *h);
        }
    }
    assert_eq!(without_parent, 1);
    assert_eq!(handles(&graph, root).len(), graph.alive_count());
}

#[test]
fn find_by_name_finds_the_node() {
    let mut graph = Graph::new();
    let a = graph.add_node(named("a"));
    let b = graph.add_child(named("b"), a);
    assert_eq!(graph.find_by_name(graph.get_root(), "b"), b);
    assert_eq!(graph.find_by_name(a, "a"), a);
    assert_eq!(graph.find_by_name_from_root("a"), a);
    assert_eq!(graph.find_by_name_from_root("__ROOT__"), graph.get_root());
}

#[test]
fn find_by_name_gives_none_when_no_node_has_the_name() {
    let mut graph = Graph::new();
    let a = graph.add_node(named("a"));
    let b = graph.add_node(named("b"));
    assert_eq!(graph.find_by_name_from_root("c"), Handle::none());
    assert_eq!(graph.find_by_name(a, "b"), Handle::none());
    assert_eq!(graph.find_by_name(b, "b"), b);
    assert_eq!(graph.find_by_name_from_root("A"), Handle::none());
}

#[test]
fn find_by_name_takes_the_first_in_depth_first_order() {
    let mut graph = Graph::new();
    let a = graph.add_node(named("a"));
    let deep = graph.add_child(named("x"), a);
    let b = graph.add_node(named("b"));
    let shallow = graph.add_node(named("x"));
    let under_b = graph.add_child(named("x"), b);
    assert_eq!(graph.find_by_name_from_root("x"), deep);
    assert_eq!(graph.find_by_name(b, "x"), under_b);
    graph.remove_node(deep);
    assert_eq!(graph.find_by_name_from_root("x"), under_b);
    graph.remove_node(under_b);
    assert_eq!(graph.find_by_name_from_root("x"), shallow);
}

#[test]
fn find_copy_of_finds_nothing_in_a_graph_made_by_hand() {
    let mut graph = Graph::new();
    let a = graph.add_node(named("a"));
    assert_eq!(graph.find_copy_of(graph.get_root(), a), Handle::none());
    assert_eq!(graph.find_copy_of(graph.get_root(), Handle::none()), graph.get_root());
}

#[test]
fn find_model_root_stops_at_a_marked_node_or_at_the_root() {
    let mut graph = Graph::new();
    let root = graph.get_root();
    let a = graph.add_node(named("a"));
    let b = graph.add_child(named("b"), a);
    let c = graph.add_child(named("c"), b);
    assert_eq!(graph.find_model_root(c), root);
    graph.get_mut(a).base_mut().set_is_resource_instance(true);
    assert_eq!(graph.find_model_root(c), a);
    assert_eq!(graph.find_model_root(a), a);
    assert_eq!(graph.find_model_root(root), root);
}

#[test]
fn traversal_hands_out_the_last_child_first() {
    let mut graph = Graph::new();
    let root = graph.get_root();
    let a = graph.add_node(named("a"));
    let a1 = graph.add_child(named("a1"), a);
    let a2 = graph.add_child(named("a2"), a);
    let b = graph.add_node(named("b"));
    let b1 = graph.add_child(named("b1"), b);
    assert_eq!(handles(&graph, root), vec![root, b, b1, a, a2, a1]);
    assert_eq!(handles(&graph, a), vec![a, a2, a1]);
    assert_eq!(handles(&graph, b1), vec![b1]);
}

#[test]
fn traversal_of_nodes_follows_the_traversal_of_handles() {
    let mut graph = Graph::new();
    let a = graph.add_node(named("a"));
    graph.add_child(named("a1"), a);
    graph.add_child(named("a2"), a);
    let mut it = graph.traverse_iter(a);
    let mut names = Vec::new();
    while let Some(node) = it.next() {
        names.push(node.base().name().to_string());
    }
    assert_eq!(names, vec!["a", "a2", "a1"]);
    assert!(it.next().is_none());
}

#[test]
fn update_transforms_multiplies_down_a_chain() {
    let mut graph = Graph::new();
    let root = graph.get_root();
    let a = graph.add_node(at("a", 1, 0, 0));
    let b = graph.add_child(at("b", 0, 2, 0), a);
    let c = graph.add_child(at("c", 0, 0, 3), b);
    graph.update_transforms();
    assert_eq!(graph.get(root).base().global_transform(), Mat4::identity());
    assert_eq!(graph.get(a).base().global_transform(), Mat4::translation(Vec3::new(1, 0, 0)));
    assert_eq!(graph.get(b).base().global_transform(), Mat4::translation(Vec3::new(1, 2, 0)));
    assert_eq!(graph.get(c).base().global_transform(), Mat4::translation(Vec3::new(1, 2, 3)));
    let la = graph.get(a).base().local_transform().matrix();
    let lb = graph.get(b).base().local_transform().matrix();
    let lc = graph.get(c).base().local_transform().matrix();
    let lr = graph.get(root).base().local_transform().matrix();
    assert_eq!(graph.get(c).base().global_transform(), lr.mul(la).mul(lb).mul(lc));
}

#[test]
fn update_transforms_puts_the_parent_on_the_left() {
    let mut graph = Graph::new();
    let mut base = Base::default();
    let mut t = base.local_transform();
    t.set_scale(Vec3::new(2, 2, 2));
    base.set_local_transform(t);
    let a = graph.add_node(Node::Base(base));
    let b = graph.add_child(at("b", 1, 1, 1), a);
    graph.update_transforms();
    let got = graph.get(b).base().global_transform();
    assert_eq!(got.r0.w, 2);
    assert_eq!(got.r1.w, 2);
    assert_eq!(got.r2.w, 2);
    assert_eq!(got.r0.x, 2);
}

#[test]
fn update_transforms_follows_a_move() {
    let mut graph = Graph::new();
    let a = graph.add_node(at("a", 1, 0, 0));
    let b = graph.add_node(at("b", 0, 5, 0));
    let c = graph.add_child(at("c", 0, 0, 3), a);
    graph.update_transforms();
    assert_eq!(graph.get(c).base().global_transform(), Mat4::translation(Vec3::new(1, 0, 3)));
    graph.link_nodes(c, b);
    graph.update_transforms();
    assert_eq!(graph.get(c).base().global_transform(), Mat4::translation(Vec3::new(0, 5, 3)));
}

#[test]
fn a_node_is_seen_only_if_all_above_it_are() {
    let mut graph = Graph::new();
    let a = graph.add_node(named("a"));
    let b = graph.add_child(named("b"), a);
    let c = graph.add_node(named("c"));
    graph.get_mut(a).base_mut().set_visibility(false);
    graph.update_transforms();
    assert!(!graph.get(a).base().global_visibility());
    assert!(!graph.get(b).base().global_visibility());
    assert!(graph.get(b).base().visibility());
    assert!(graph.get(c).base().global_visibility());
    graph.get_mut(a).base_mut().set_visibility(true);
    graph.update_transforms();
    assert!(graph.get(b).base().global_visibility());
}

#[test]
fn get_mut_changes_the_node() {
    let mut graph = Graph::new();
    let a = graph.add_node(named("a"));
    graph.get_mut(a).base_mut().set_name("z");
    graph.get_mut(a).base_mut().set_lifetime(7);
    assert_eq!(graph.get(a).base().name(), "z");
    assert_eq!(graph.get(a).base().lifetime(), Some(7));
    assert_eq!(graph.get(a).base().parent(), graph.get_root());
}

#[test]
fn linear_iter_goes_by_slot() {
    let mut graph = Graph::new();
    let a = graph.add_node(named("a"));
    let b = graph.add_node(named("b"));
    graph.remove_node(a);
    let names: Vec<String> =
        graph.linear_iter().iter().map(|n| n.base().name().to_string()).collect();
    assert_eq!(names, vec!["__ROOT__", "b"]);
    let pairs: Vec<Handle> = graph.pair_iter().iter().map(|p| p.0).collect();
    assert_eq!(pairs, vec![graph.get_root(), b]);
    assert_eq!(graph.handle_from_index(1), Handle::none());
    assert_eq!(graph.handle_from_index(2), b);
    assert_eq!(graph.handle_from_index(9), Handle::none());
}

#[test]
fn first_named_goes_by_slot() {
    let mut graph = Graph::new();
    let a = graph.add_node(named("a"));
    let x1 = graph.add_child(named("x"), a);
    let x2 = graph.add_node(named("x"));
    graph.link_nodes(a, x2);
    let mut probe = Base::default();
    probe.set_name("x");
    assert_eq!(graph.first_named(&probe), x1);
    assert_eq!(graph.find_by_name_from_root("x"), x2);
    probe.set_name("none");
    assert_eq!(graph.first_named(&probe), Handle::none());
}

#[test]
fn two_nodes_can_be_changed_at_once() {
    let mut graph = Graph::new();
    let a = graph.add_node(named("a"));
    let b = graph.add_node(named("b"));
    {
        let (na, nb) = graph.get_two_mut((a, b)).unwrap();
        na.base_mut().set_name("first");
        nb.base_mut().set_name("second");
    }
    assert_eq!(graph.get(a).base().name(), "first");
    assert_eq!(graph.get(b).base().name(), "second");
    {
        let (nb, na) = graph.get_two_mut((b, a)).unwrap();
        assert_eq!(nb.base().name(), "second");
        assert_eq!(na.base().name(), "first");
    }
    assert_eq!(graph.get_two_mut((a, a)).err(), Some(BorrowError::Overlap));
}

#[test]
fn three_and_four_nodes_can_be_changed_at_once() {
    let mut graph = Graph::new();
    let a = graph.add_node(named("a"));
    let b = graph.add_node(named("b"));
    let c = graph.add_node(named("c"));
    let d = graph.add_node(named("d"));
    for order in [(c, a, b), (a, b, c), (b, c, a), (a, c, b), (c, b, a), (b, a, c)] {
        let (x, y, z) = graph.get_three_mut(order).unwrap();
        let got = (x.base().name().to_string(), y.base().name().to_string(),
            z.base().name().to_string());
        let want = |h: Handle| {
            if h == a {
                "a"
            } else if h == b {
                "b"
            } else {
                "c"
            }
        };
        assert_eq!(got.0, want(order.0));
        assert_eq!(got.1, want(order.1));
        assert_eq!(got.2, want(order.2));
    }
    {
        let (x, y, z, w) = graph.get_four_mut((d, b, a, c)).unwrap();
        assert_eq!(x.base().name(), "d");
        assert_eq!(y.base().name(), "b");
        assert_eq!(z.base().name(), "a");
        assert_eq!(w.base().name(), "c");
        w.base_mut().set_name("changed");
    }
    {
        let (x, y, z, w) = graph.get_four_mut((a, b, c, d)).unwrap();
        assert_eq!(x.base().name(), "a");
        assert_eq!(y.base().name(), "b");
        assert_eq!(z.base().name(), "changed");
        assert_eq!(w.base().name(), "d");
    }
    assert_eq!(graph.get_three_mut((a, b, a)).err(), Some(BorrowError::Overlap));
    assert_eq!(graph.get_three_mut((a, a, b)).err(), Some(BorrowError::Overlap));
    assert_eq!(graph.get_three_mut((b, a, a)).err(), Some(BorrowError::Overlap));
    assert_eq!(graph.get_four_mut((a, b, c, a)).err(), Some(BorrowError::Overlap));
    assert_eq!(graph.get_four_mut((a, b, c, c)).err(), Some(BorrowError::Overlap));
    assert_eq!(graph.get_four_mut((a, d, d, c)).err(), Some(BorrowError::Overlap));
}

#[test]
fn the_nodes_can_be_changed_slot_by_slot() {
    let mut graph = Graph::new();
    let a = graph.add_node(named("a"));
    let b = graph.add_node(named("b"));
    graph.remove_node(a);
    let mut seen = Vec::new();
    for i in 0..graph.get_capacity() {
        if let Some(node) = graph.linear_iter_mut(i) {
            node.base_mut().set_lifetime(i as i64);
        }
        if let Some((h, node)) = graph.pair_iter_mut(i) {
            seen.push((h, node.base().lifetime()));
        }
    }
    assert_eq!(seen, vec![(graph.get_root(), Some(0)), (b, Some(2))]);
    assert!(graph.linear_iter_mut(1).is_none());
    assert!(graph.pair_iter_mut(7).is_none());
}

#[test]
fn the_slots_of_removed_nodes_are_used_again_last_freed_first() {
    let mut graph = Graph::new();
    let a = graph.add_node(named("a"));
    let b = graph.add_child(named("b"), a);
    let c = graph.add_child(named("c"), a);
    let keep = graph.add_node(named("keep"));
    // the traversal frees a, then c, then b
    graph.remove_node(a);
    let x = graph.add_node(named("x"));
    let y = graph.add_node(named("y"));
    let z = graph.add_node(named("z"));
    let w = graph.add_node(named("w"));
    assert_eq!((x.index(), x.generation()), (b.index(), 2));
    assert_eq!((y.index(), y.generation()), (c.index(), 2));
    assert_eq!((z.index(), z.generation()), (a.index(), 2));
    assert_eq!((w.index(), w.generation()), (keep.index() + 1, 1));
    assert!(!graph.is_valid_handle(a));
    assert!(!graph.is_valid_handle(b));
    assert!(!graph.is_valid_handle(c));
}

#[test]
fn lies_under_follows_the_parents() {
    let mut graph = Graph::new();
    let root = graph.get_root();
    let a = graph.add_node(named("a"));
    let b = graph.add_child(named("b"), a);
    let c = graph.add_child(named("c"), b);
    let d = graph.add_node(named("d"));
    assert!(graph.lies_under(c, a));
    assert!(graph.lies_under(c, c));
    assert!(graph.lies_under(c, root));
    assert!(graph.lies_under(b, a));
    assert!(!graph.lies_under(a, c));
    assert!(!graph.lies_under(c, d));
    assert!(!graph.lies_under(root, a));
    assert!(!graph.lies_under(a, Handle::none()));
    graph.remove_node(d);
    assert!(!graph.lies_under(c, d));
    graph.link_nodes(a, graph.get_root());
    assert!(graph.lies_under(c, a));
}
