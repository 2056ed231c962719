use scene_graph::base::Base;
use scene_graph::graph::Graph;
use scene_graph::math::{Mat4, Vec3};
use scene_graph::node::{Mesh, Node, Surface};
use scene_graph::pool::Handle;
use std::sync::Arc;

fn named(name: &str, model: Option<&Arc<Graph>>) -> Node {
    let mut base = Base::default();
    base.set_name(name);
    base.set_resource(model.cloned());
    Node::Base(base)
}

fn mesh(name: &str, model: Option<&Arc<Graph>>, surfaces: Vec<Surface>) -> Node {
    let mut base = Base::default();
    base.set_name(name);
    base.set_resource(model.cloned());
    let mut mesh = Mesh::new(base);
    for surface in surfaces {
        mesh.add_surface(surface);
    }
    Node::Mesh(mesh)
}

fn surface(data: u64, bones: &[Handle]) -> Surface {
    let mut surface = Surface::new(data);
    for bone in bones {
        surface.add_bone(*bone);
    }
    surface
}

struct Model {
    graph: Arc<Graph>,
    bone: Handle,
    mesh: Handle,
}

fn model() -> Model {
    let mut graph = Graph::new();
    let mut base = Base::default();
    base.set_name("Bone");
    base.set_inv_bind_pose_transform(Mat4::translation(Vec3::new(7, 8, 9)));
    let bone = graph.add_node(Node::Base(base));
    let pad = graph.add_node(named("Pad", None));
    graph.remove_node(pad);
    let mesh_handle = graph.add_child(mesh("Mesh", None, vec![surface(5, &[bone])]), bone);
    Model { graph: Arc::new(graph), bone, mesh: mesh_handle }
}

fn bones_of(graph: &Graph, h: Handle) -> Vec<Vec<Handle>> {
    graph.get(h).surfaces().unwrap().iter().map(|s| s.bones().clone()).collect()
}

fn data_of(graph: &Graph, h: Handle) -> Vec<u64> {
    graph.get(h).surfaces().unwrap().iter().map(|s| s.data()).collect()
}

#[test]
fn resolve_takes_the_surfaces_and_points_the_bone_at_the_live_node() {
    let m = model();
    let mut graph = Graph::new();
    graph.add_node(named("Pad", None));
    let a = graph.add_node(named("Bone", Some(&m.graph)));
    let b = graph.add_child(mesh("Mesh", Some(&m.graph), vec![]), a);
    assert_ne!(a, m.bone);
    graph.resolve();
    assert_eq!(data_of(&graph, b), data_of(&m.graph, m.mesh));
    assert_eq!(data_of(&graph, b), vec![5]);
    assert_eq!(bones_of(&graph, b), vec![vec![a]]);
    assert_eq!(bones_of(&m.graph, m.mesh), vec![vec![m.bone]]);
    assert_eq!(graph.get(a).base().original_handle(), m.bone);
    assert_eq!(graph.get(b).base().original_handle(), m.mesh);
    assert_eq!(
        graph.get(a).base().inv_bind_pose_transform(),
        Mat4::translation(Vec3::new(7, 8, 9))
    );
}

#[test]
fn resolve_twice_is_resolve_once() {
    let m = model();
    let mut graph = Graph::new();
    let a = graph.add_node(named("Bone", Some(&m.graph)));
    let b = graph.add_child(mesh("Mesh", Some(&m.graph), vec![surface(1, &[])]), a);
    graph.get_mut(a).base_mut().set_position(Vec3::new(1, 1, 1));
    graph.resolve();
    let original_a = graph.get(a).base().original_handle();
    let original_b = graph.get(b).base().original_handle();
    let bones = bones_of(&graph, b);
    let data = data_of(&graph, b);
    let inv = graph.get(a).base().inv_bind_pose_transform();
    let global = graph.get(b).base().global_transform();
    graph.resolve();
    assert_eq!(graph.get(a).base().original_handle(), original_a);
    assert_eq!(graph.get(b).base().original_handle(), original_b);
    assert_eq!(bones_of(&graph, b), bones);
    assert_eq!(data_of(&graph, b), data);
    assert_eq!(graph.get(a).base().inv_bind_pose_transform(), inv);
    assert_eq!(graph.get(b).base().global_transform(), global);
    assert_eq!(bones, vec![vec![a]]);
}

#[test]
fn resolve_brings_the_transforms_up_to_date() {
    let mut graph = Graph::new();
    let a = graph.add_node(named("a", None));
    graph.get_mut(a).base_mut().set_position(Vec3::new(4, 5, 6));
    graph.resolve();
    assert_eq!(graph.get(a).base().global_transform(), Mat4::translation(Vec3::new(4, 5, 6)));
}

#[test]
fn resolve_skips_a_node_that_the_model_does_not_know() {
    let m = model();
    let mut graph = Graph::new();
    let a = graph.add_node(named("Other", Some(&m.graph)));
    let b = graph.add_node(mesh("Unknown", Some(&m.graph), vec![surface(1, &[a])]));
    graph.resolve();
    assert!(graph.get(a).base().original_handle().is_none());
    assert_eq!(graph.get(a).base().inv_bind_pose_transform(), Mat4::identity());
    assert_eq!(data_of(&graph, b), vec![1]);
    assert_eq!(bones_of(&graph, b), vec![vec![a]]);
}

#[test]
fn resolve_leaves_nodes_without_a_model_alone() {
    let mut graph = Graph::new();
    let a = graph.add_node(named("Bone", None));
    let b = graph.add_node(mesh("Mesh", None, vec![surface(3, &[a])]));
    graph.resolve();
    assert!(graph.get(a).base().original_handle().is_none());
    assert_eq!(bones_of(&graph, b), vec![vec![a]]);
}

#[test]
fn resolve_gives_no_bone_where_no_live_node_stands_for_it() {
    let m = model();
    let mut graph = Graph::new();
    let b = graph.add_node(mesh("Mesh", Some(&m.graph), vec![]));
    graph.resolve();
    assert_eq!(data_of(&graph, b), vec![5]);
    assert_eq!(bones_of(&graph, b), vec![vec![Handle::none()]]);
}

#[test]
fn resolve_looks_for_bones_below_the_root_of_the_instance() {
    let m = model();
    let mut graph = Graph::new();
    let first = graph.add_node(named("first", None));
    let second = graph.add_node(named("second", None));
    graph.get_mut(first).base_mut().set_is_resource_instance(true);
    graph.get_mut(second).base_mut().set_is_resource_instance(true);
    let bone1 = graph.add_child(named("Bone", Some(&m.graph)), first);
    let mesh1 = graph.add_child(mesh("Mesh", Some(&m.graph), vec![]), bone1);
    let bone2 = graph.add_child(named("Bone", Some(&m.graph)), second);
    let mesh2 = graph.add_child(mesh("Mesh", Some(&m.graph), vec![]), bone2);
    graph.resolve();
    assert_eq!(bones_of(&graph, mesh1), vec![vec![bone1]]);
    assert_eq!(bones_of(&graph, mesh2), vec![vec![bone2]]);
}

#[test]
fn resolve_takes_a_mesh_only_from_a_mesh() {
    let m = model();
    let mut graph = Graph::new();
    let b = graph.add_node(mesh("Bone", Some(&m.graph), vec![surface(2, &[])]));
    graph.resolve();
    assert_eq!(graph.get(b).base().original_handle(), m.bone);
    assert_eq!(data_of(&graph, b), vec![2]);
}

#[test]
fn a_copy_of_a_model_resolves_to_itself() {
    let m = model();
    let mut graph = Graph::new();
    let copy = m.graph.copy_node(m.bone, &mut graph);
    let skin = graph.find_copy_of(copy, m.mesh);
    graph.get_mut(copy).base_mut().set_resource(Some(m.graph.clone()));
    graph.get_mut(skin).base_mut().set_resource(Some(m.graph.clone()));
    assert_eq!(bones_of(&graph, skin), vec![vec![copy]]);
    graph.resolve();
    assert_eq!(bones_of(&graph, skin), vec![vec![copy]]);
    assert_eq!(graph.get(skin).base().original_handle(), m.mesh);
}
