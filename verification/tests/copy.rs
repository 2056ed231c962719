use scene_graph::base::Base;
use scene_graph::graph::Graph;
use scene_graph::math::Vec3;
use scene_graph::node::{Mesh, Node, Surface};
use scene_graph::pool::Handle;

fn named(name: &str) -> Node {
    let mut base = Base::default();
    base.set_name(name);
    Node::Base(base)
}

fn mesh(name: &str, data: u64, bones: &[Handle]) -> Node {
    let mut base = Base::default();
    base.set_name(name);
    let mut mesh = Mesh::new(base);
    let mut surface = Surface::new(data);
    for bone in bones {
        surface.add_bone(*bone);
    }
    mesh.add_surface(surface);
    Node::Mesh(mesh)
}

fn children(graph: &Graph, h: Handle) -> Vec<Handle> {
    graph.get(h).base().children().clone()
}

fn names_below(graph: &Graph, h: Handle) -> Vec<String> {
    children(graph, h).iter().map(|c| graph.get(*c).base().name().to_string()).collect()
}

#[test]
fn copy_of_a_single_node_hangs_below_the_root() {
    let mut src = Graph::new();
    let a = src.add_node(named("a"));
    let mut dest = Graph::new();
    let old = dest.add_node(named("old"));
    let copy = src.copy_node(a, &mut dest);
    assert!(dest.is_valid_handle(copy));
    assert_eq!(dest.alive_count(), 3);
    assert_eq!(children(&dest, dest.get_root()), vec![old, copy]);
    assert_eq!(dest.get(copy).base().parent(), dest.get_root());
    assert_eq!(dest.get(copy).base().name(), "a");
    assert_eq!(dest.get(copy).base().original_handle(), a);
    assert_eq!(src.alive_count(), 2);
}

#[test]
fn copy_keeps_the_shape_and_the_order() {
    let mut src = Graph::new();
    let a = src.add_node(named("a"));
    let b = src.add_child(named("b"), a);
    let c = src.add_child(named("c"), a);
    let b1 = src.add_child(named("b1"), b);
    let b2 = src.add_child(named("b2"), b);
    let c1 = src.add_child(named("c1"), c);
    src.add_node(named("outside"));
    let mut dest = Graph::new();
    let copy = src.copy_node(a, &mut dest);
    assert_eq!(dest.alive_count(), 7);
    assert_eq!(names_below(&dest, dest.get_root()), vec!["a"]);
    assert_eq!(names_below(&dest, copy), vec!["b", "c"]);
    let cb = children(&dest, copy)[0];
    let cc = children(&dest, copy)[1];
    assert_eq!(names_below(&dest, cb), vec!["b1", "b2"]);
    assert_eq!(names_below(&dest, cc), vec!["c1"]);
    assert_eq!(dest.get(cb).base().parent(), copy);
    assert_eq!(dest.get(cb).base().original_handle(), b);
    assert_eq!(dest.get(cc).base().original_handle(), c);
    let cb1 = children(&dest, cb)[0];
    let cb2 = children(&dest, cb)[1];
    let cc1 = children(&dest, cc)[0];
    assert_eq!(dest.get(cb1).base().original_handle(), b1);
    assert_eq!(dest.get(cb2).base().original_handle(), b2);
    assert_eq!(dest.get(cc1).base().original_handle(), c1);
    assert!(children(&dest, cb1).is_empty());
    assert_eq!(dest.find_copy_of(copy, b2), cb2);
    assert_eq!(dest.find_copy_of(dest.get_root(), a), copy);
}

#[test]
fn copy_carries_what_the_nodes_carry() {
    let mut src = Graph::new();
    let mut base = Base::default();
    base.set_name("a");
    base.set_position(Vec3::new(1, 2, 3));
    base.set_lifetime(9);
    base.set_visibility(false);
    let a = src.add_node(Node::Base(base));
    let mut dest = Graph::new();
    let copy = src.copy_node(a, &mut dest);
    let got = dest.get(copy).base();
    assert_eq!(got.local_transform().position(), Vec3::new(1, 2, 3));
    assert_eq!(got.lifetime(), Some(9));
    assert!(!got.visibility());
}

#[test]
fn copy_translates_the_bones_that_were_copied() {
    let mut src = Graph::new();
    let model = src.add_node(named("model"));
    let bone1 = src.add_child(named("bone1"), model);
    let bone2 = src.add_child(named("bone2"), bone1);
    let outside = src.add_node(named("outside"));
    let skin = src.add_child(mesh("skin", 42, &[bone2, outside, bone1, Handle::none()]), model);
    let mut dest = Graph::new();
    dest.add_node(named("x"));
    dest.add_node(named("y"));
    let copy = src.copy_node(model, &mut dest);
    let c_bone1 = dest.find_copy_of(copy, bone1);
    let c_bone2 = dest.find_copy_of(copy, bone2);
    let c_skin = dest.find_copy_of(copy, skin);
    assert!(dest.is_valid_handle(c_bone1));
    assert!(dest.is_valid_handle(c_bone2));
    assert_ne!(c_bone1, bone1);
    let surfaces = dest.get(c_skin).surfaces().unwrap();
    assert_eq!(surfaces.len(), 1);
    assert_eq!(surfaces[0].data(), 42);
    assert_eq!(surfaces[0].bones(), &vec![c_bone2, outside, c_bone1, Handle::none()]);
    let original = src.get(skin).surfaces().unwrap();
    assert_eq!(original[0].bones(), &vec![bone2, outside, bone1, Handle::none()]);
}

#[test]
fn copy_into_the_same_shape_twice_gives_two_copies() {
    let mut src = Graph::new();
    let a = src.add_node(named("a"));
    src.add_child(named("b"), a);
    let mut dest = Graph::new();
    let first = src.copy_node(a, &mut dest);
    let second = src.copy_node(a, &mut dest);
    assert_ne!(first, second);
    assert_eq!(dest.alive_count(), 5);
    assert_eq!(children(&dest, dest.get_root()), vec![first, second]);
    assert_eq!(names_below(&dest, first), vec!["b"]);
    assert_eq!(names_below(&dest, second), vec!["b"]);
}

#[test]
fn copy_leaves_the_nodes_of_the_destination_alone() {
    let mut src = Graph::new();
    let a = src.add_node(named("a"));
    let mut dest = Graph::new();
    let x = dest.add_node(named("x"));
    let y = dest.add_child(named("y"), x);
    src.copy_node(a, &mut dest);
    assert_eq!(children(&dest, x), vec![y]);
    assert_eq!(dest.get(y).base().parent(), x);
    assert_eq!(dest.get(x).base().name(), "x");
    assert!(dest.get(x).base().original_handle().is_none());
}

#[test]
fn copy_of_the_root_copies_the_whole_graph() {
    let mut src = Graph::new();
    let a = src.add_node(named("a"));
    src.add_child(named("b"), a);
    let mut dest = Graph::new();
    let copy = src.copy_node(src.get_root(), &mut dest);
    assert_eq!(dest.alive_count(), 4);
    assert_eq!(dest.get(copy).base().name(), "__ROOT__");
    assert_eq!(dest.get(copy).base().parent(), dest.get_root());
    assert_eq!(names_below(&dest, copy), vec!["a"]);
}

#[test]
fn copy_makes_a_node_before_its_children_and_the_children_in_order() {
    let mut src = Graph::new();
    let a = src.add_node(named("a"));
    let b = src.add_child(named("b"), a);
    let c = src.add_child(named("c"), a);
    let b1 = src.add_child(named("b1"), b);
    let c1 = src.add_child(named("c1"), c);
    let mut dest = Graph::new();
    let copy = src.copy_node(a, &mut dest);
    let order: Vec<Handle> = vec![a, b, b1, c, c1];
    let mut slots = Vec::new();
    for original in order {
        slots.push(dest.find_copy_of(copy, original).index());
    }
    assert_eq!(slots, vec![1, 2, 3, 4, 5]);
}

#[test]
fn a_copy_shares_the_model_of_its_original() {
    let model = std::sync::Arc::new(Graph::new());
    let mut src = Graph::new();
    let mut base = Base::default();
    base.set_resource(Some(model.clone()));
    let a = src.add_node(Node::Base(base));
    assert_eq!(std::sync::Arc::strong_count(&model), 2);
    let mut dest = Graph::new();
    let copy = src.copy_node(a, &mut dest);
    assert_eq!(std::sync::Arc::strong_count(&model), 3);
    let shared = dest.get(copy).base().resource().unwrap();
    assert!(std::sync::Arc::ptr_eq(shared, &model));
    let clone = src.get(a).clone();
    assert_eq!(std::sync::Arc::strong_count(&model), 4);
    assert!(std::sync::Arc::ptr_eq(clone.base().resource().unwrap(), &model));
}
