use scene_graph::base::Base;
use scene_graph::graph::Graph;
use scene_graph::math::{Mat4, Vec2, Vec3};
use scene_graph::node::{advance_time, elapse_time, Camera, Light, Node, ParticleSystem, Sprite};

fn named(name: &str) -> Node {
    let mut base = Base::default();
    base.set_name(name);
    Node::Base(base)
}

fn mortal(name: &str, lifetime: i64) -> Node {
    let mut base = Base::default();
    base.set_name(name);
    base.set_lifetime(lifetime);
    Node::Base(base)
}

#[test]
fn a_node_whose_lifetime_runs_out_is_removed() {
    // half a second to live, a step of one second, in milliseconds
    let mut graph = Graph::new();
    let a = graph.add_node(mortal("a", 500));
    let b = graph.add_node(named("b"));
    graph.update_nodes(Vec2::new(800, 600), 1000);
    assert!(!graph.is_valid_handle(a));
    assert!(graph.is_valid_handle(b));
    assert_eq!(graph.alive_count(), 2);
}

#[test]
fn a_node_lives_on_while_it_has_time_left() {
    let mut graph = Graph::new();
    let a = graph.add_node(mortal("a", 2500));
    graph.update_nodes(Vec2::new(1, 1), 1000);
    assert!(graph.is_valid_handle(a));
    assert_eq!(graph.get(a).base().lifetime(), Some(1500));
    graph.update_nodes(Vec2::new(1, 1), 1000);
    assert_eq!(graph.get(a).base().lifetime(), Some(500));
    graph.update_nodes(Vec2::new(1, 1), 1000);
    assert!(!graph.is_valid_handle(a));
}

#[test]
fn a_lifetime_of_exactly_nothing_has_run_out() {
    let mut graph = Graph::new();
    let a = graph.add_node(mortal("a", 1000));
    graph.update_nodes(Vec2::new(1, 1), 1000);
    assert!(!graph.is_valid_handle(a));
}

#[test]
fn a_node_without_a_lifetime_stays() {
    let mut graph = Graph::new();
    let a = graph.add_node(named("a"));
    graph.update_nodes(Vec2::new(1, 1), i64::MAX);
    assert!(graph.is_valid_handle(a));
    assert_eq!(graph.get(a).base().lifetime(), None);
}

#[test]
fn what_lies_under_a_dead_node_goes_with_it() {
    let mut graph = Graph::new();
    let keep = graph.add_node(named("keep"));
    let a = graph.add_node(mortal("a", 1));
    let b = graph.add_child(named("b"), a);
    let c = graph.add_child(mortal("c", 100), b);
    let d = graph.add_child(mortal("d", 1), keep);
    let e = graph.add_child(mortal("e", 100), keep);
    graph.update_nodes(Vec2::new(1, 1), 10);
    assert!(!graph.is_valid_handle(a));
    assert!(!graph.is_valid_handle(b));
    assert!(!graph.is_valid_handle(c));
    assert!(!graph.is_valid_handle(d));
    assert!(graph.is_valid_handle(e));
    assert!(graph.is_valid_handle(keep));
    assert_eq!(graph.get(keep).base().children(), &vec![e]);
    assert_eq!(graph.get(e).base().lifetime(), Some(90));
    assert_eq!(graph.alive_count(), 3);
}

#[test]
fn a_dead_parent_in_a_later_slot_takes_an_earlier_child() {
    let mut graph = Graph::new();
    let child = graph.add_node(named("child"));
    let parent = graph.add_node(mortal("parent", 1));
    graph.link_nodes(child, parent);
    assert!(child.index() < parent.index());
    graph.update_nodes(Vec2::new(1, 1), 5);
    assert!(!graph.is_valid_handle(child));
    assert!(!graph.is_valid_handle(parent));
}

#[test]
fn update_nodes_brings_the_transforms_up_to_date() {
    let mut graph = Graph::new();
    let mut base = Base::default();
    base.set_position(Vec3::new(1, 2, 3));
    let a = graph.add_node(Node::Base(base));
    graph.update_nodes(Vec2::new(1, 1), 0);
    assert_eq!(graph.get(a).base().global_transform(), Mat4::translation(Vec3::new(1, 2, 3)));
}

#[test]
fn a_camera_is_fitted_to_the_frame() {
    let mut graph = Graph::new();
    let camera = Camera::new(Base::default());
    assert_eq!(camera.frame_size(), Vec2::new(0, 0));
    let c = graph.add_node(Node::Camera(camera));
    graph.update_nodes(Vec2::new(800, 600), 16);
    match graph.get(c) {
        Node::Camera(camera) => assert_eq!(camera.frame_size(), Vec2::new(800, 600)),
        _ => panic!("the node is a camera"),
    }
}

#[test]
fn a_particle_system_runs_on() {
    let mut graph = Graph::new();
    let p = graph.add_node(Node::ParticleSystem(ParticleSystem::new(Base::default())));
    graph.update_nodes(Vec2::new(1, 1), 16);
    graph.update_nodes(Vec2::new(1, 1), 4);
    match graph.get(p) {
        Node::ParticleSystem(particles) => assert_eq!(particles.elapsed(), 20),
        _ => panic!("the node is a particle system"),
    }
}

#[test]
fn lights_and_sprites_only_age() {
    let mut graph = Graph::new();
    let mut base = Base::default();
    base.set_lifetime(100);
    let l = graph.add_node(Node::Light(Light::new(base)));
    let s = graph.add_node(Node::Sprite(Sprite::new(Base::default())));
    graph.update_nodes(Vec2::new(1, 1), 30);
    assert_eq!(graph.get(l).base().lifetime(), Some(70));
    assert_eq!(graph.get(s).base().lifetime(), None);
    assert!(matches!(graph.get(l), Node::Light(_)));
    assert!(matches!(graph.get(s), Node::Sprite(_)));
}

#[test]
fn a_dead_root_takes_everything() {
    let mut graph = Graph::new();
    let root = graph.get_root();
    graph.add_node(named("a"));
    graph.get_mut(root).base_mut().set_lifetime(0);
    graph.update_nodes(Vec2::new(1, 1), 1);
    assert_eq!(graph.alive_count(), 0);
}

#[test]
fn time_stops_at_the_ends_of_its_range() {
    assert_eq!(elapse_time(10, 3), 7);
    assert_eq!(elapse_time(i64::MIN, 1), i64::MIN);
    assert_eq!(elapse_time(i64::MAX, -1), i64::MAX);
    assert_eq!(elapse_time(0, i64::MIN), i64::MAX);
    assert_eq!(elapse_time(-1, i64::MIN), i64::MAX);
    assert_eq!(elapse_time(-2, i64::MAX), i64::MIN);
    assert_eq!(advance_time(10, 3), 13);
    assert_eq!(advance_time(i64::MAX, 1), i64::MAX);
    assert_eq!(advance_time(i64::MIN, -1), i64::MIN);
    assert_eq!(advance_time(i64::MAX, i64::MIN), -1);
}

#[test]
fn tick_moves_one_node_on() {
    let mut node = mortal("a", 5);
    node.tick(Vec2::new(1, 1), 5);
    assert_eq!(node.base().lifetime(), Some(0));
    assert!(node.is_expired());
    let mut other = mortal("b", 6);
    other.tick(Vec2::new(1, 1), 5);
    assert!(!other.is_expired());
    assert!(!named("c").is_expired());
}
