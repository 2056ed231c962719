use scene_graph::animation::{Animation, AnimationContainer, Track};
use scene_graph::base::Base;
use scene_graph::graph::Graph;
use scene_graph::math::{Mat4, Vec2, Vec3};
use scene_graph::node::Node;
use scene_graph::physics::{Physics, RigidBody};
use scene_graph::pool::Handle;
use scene_graph::scene::{PhysicsBinder, Scene, SceneContainer};

fn named(name: &str) -> Node {
    let mut base = Base::default();
    base.set_name(name);
    Node::Base(base)
}

fn animation_on(nodes: &[Handle]) -> Animation {
    let mut animation = Animation::default();
    for node in nodes {
        animation.add_track(Track::new(*node));
    }
    animation
}

#[test]
fn a_new_scene_has_a_root_and_nothing_else() {
    let scene = Scene::new();
    assert_eq!(scene.graph.alive_count(), 1);
    assert!(scene.graph.is_valid_handle(scene.graph.get_root()));
    assert_eq!(scene.animations.alive_count(), 0);
    assert_eq!(scene.physics_binder.len(), 0);
}

#[test]
fn a_default_scene_has_no_root() {
    let scene = Scene::default();
    assert_eq!(scene.graph.alive_count(), 0);
    assert!(scene.graph.get_root().is_none());
}

#[test]
fn bind_returns_the_body_that_was_bound_before() {
    let mut binder = PhysicsBinder::default();
    let mut graph = Graph::new();
    let mut physics = Physics::new();
    let n = graph.add_node(named("n"));
    let m = graph.add_node(named("m"));
    let h1 = physics.add_body(RigidBody::new(Vec3::zero()));
    let h2 = physics.add_body(RigidBody::new(Vec3::zero()));
    assert_eq!(binder.bind(n, h1), None);
    assert_eq!(binder.bind(m, h1), None);
    assert_eq!(binder.bind(n, h2), Some(h1));
    assert_eq!(binder.body_of(n), Some(h2));
    assert_eq!(binder.body_of(m), Some(h1));
    assert_eq!(binder.len(), 2);
}

#[test]
fn unbind_returns_the_body_and_forgets_the_node() {
    let mut binder = PhysicsBinder::default();
    let mut graph = Graph::new();
    let mut physics = Physics::new();
    let n = graph.add_node(named("n"));
    let m = graph.add_node(named("m"));
    let h = physics.add_body(RigidBody::new(Vec3::zero()));
    binder.bind(n, h);
    binder.bind(m, h);
    assert_eq!(binder.unbind(n), Some(h));
    assert_eq!(binder.unbind(n), None);
    assert_eq!(binder.body_of(n), None);
    assert_eq!(binder.body_of(m), Some(h));
    assert_eq!(binder.len(), 1);
}

#[test]
fn a_binding_to_a_freed_body_is_dropped() {
    let mut scene = Scene::new();
    let n = scene.graph.add_node(named("n"));
    let h = scene.physics.add_body(RigidBody::new(Vec3::new(1, 2, 3)));
    scene.physics_binder.bind(n, h);
    scene.physics.remove_body(h);
    scene.update_physics(1);
    assert_eq!(scene.physics_binder.body_of(n), None);
    assert_eq!(scene.physics_binder.len(), 0);
    assert_eq!(scene.graph.get(n).base().local_transform().position(), Vec3::zero());
}

#[test]
fn a_binding_of_a_removed_node_is_dropped() {
    let mut scene = Scene::new();
    let n = scene.graph.add_node(named("n"));
    let under = scene.graph.add_child(named("under"), n);
    let m = scene.graph.add_node(named("m"));
    let h = scene.physics.add_body(RigidBody::new(Vec3::new(1, 2, 3)));
    let g = scene.physics.add_body(RigidBody::new(Vec3::new(4, 5, 6)));
    let f = scene.physics.add_body(RigidBody::new(Vec3::new(7, 8, 9)));
    scene.physics_binder.bind(n, h);
    scene.physics_binder.bind(m, g);
    scene.physics_binder.bind(under, f);
    scene.remove_node(n);
    assert_eq!(scene.physics_binder.body_of(n), None);
    assert_eq!(scene.physics_binder.body_of(under), None);
    assert_eq!(scene.physics_binder.body_of(m), Some(g));
    assert_eq!(scene.physics_binder.len(), 1);
    assert_eq!(scene.physics_binder.unbind(n), None);
    assert!(scene.physics.is_valid_body_handle(h));
    assert!(scene.physics.is_valid_body_handle(f));
    scene.update_physics(1);
    assert_eq!(scene.physics_binder.body_of(m), Some(g));
}

#[test]
fn removing_a_node_also_drops_a_binding_to_a_freed_body() {
    let mut scene = Scene::new();
    let n = scene.graph.add_node(named("n"));
    let m = scene.graph.add_node(named("m"));
    let h = scene.physics.add_body(RigidBody::new(Vec3::zero()));
    scene.physics_binder.bind(m, h);
    scene.physics.remove_body(h);
    scene.remove_node(n);
    assert_eq!(scene.physics_binder.body_of(m), None);
    assert!(scene.graph.is_valid_handle(m));
}

#[test]
fn a_binding_of_a_node_whose_lifetime_runs_out_is_dropped_in_the_same_step() {
    let mut scene = Scene::new();
    let mut dying = Base::default();
    dying.set_lifetime(5);
    let d = scene.graph.add_node(Node::Base(dying));
    let under = scene.graph.add_child(named("under"), d);
    let stays = scene.graph.add_node(named("stays"));
    let a = scene.physics.add_body(RigidBody::new(Vec3::new(1, 1, 1)));
    let b = scene.physics.add_body(RigidBody::new(Vec3::new(2, 2, 2)));
    let c = scene.physics.add_body(RigidBody::new(Vec3::new(3, 3, 3)));
    scene.physics_binder.bind(d, a);
    scene.physics_binder.bind(under, b);
    scene.physics_binder.bind(stays, c);
    scene.update(Vec2::new(1, 1), 10);
    assert!(!scene.graph.is_valid_handle(d));
    assert!(!scene.graph.is_valid_handle(under));
    assert_eq!(scene.physics_binder.body_of(d), None);
    assert_eq!(scene.physics_binder.body_of(under), None);
    assert_eq!(scene.physics_binder.body_of(stays), Some(c));
    assert_eq!(scene.physics_binder.len(), 1);
    assert_eq!(scene.graph.get(stays).base().local_transform().position(), Vec3::new(3, 3, 3));
}

#[test]
fn a_body_moves_the_node_that_it_is_bound_to() {
    let mut scene = Scene::new();
    let n = scene.graph.add_node(named("n"));
    let free = scene.graph.add_node(named("free"));
    let mut body = RigidBody::new(Vec3::new(1, 2, 3));
    body.set_velocity(Vec3::new(10, 0, -1));
    let h = scene.physics.add_body(body);
    scene.physics_binder.bind(n, h);
    scene.update_physics(2);
    assert_eq!(scene.physics.borrow_body(h).get_position(), Vec3::new(21, 2, 1));
    assert_eq!(scene.graph.get(n).base().local_transform().position(), Vec3::new(21, 2, 1));
    assert_eq!(scene.graph.get(free).base().local_transform().position(), Vec3::zero());
    scene.update_physics(1);
    assert_eq!(scene.graph.get(n).base().local_transform().position(), Vec3::new(31, 2, 0));
}

#[test]
fn the_physics_world_steps_every_body() {
    let mut physics = Physics::new();
    let mut body = RigidBody::new(Vec3::new(0, 0, 0));
    body.set_velocity(Vec3::new(1, 2, 3));
    let a = physics.add_body(body);
    let b = physics.add_body(RigidBody::new(Vec3::new(5, 5, 5)));
    physics.step(10);
    assert_eq!(physics.borrow_body(a).get_position(), Vec3::new(10, 20, 30));
    assert_eq!(physics.borrow_body(b).get_position(), Vec3::new(5, 5, 5));
    physics.borrow_body_mut(b).set_position(Vec3::new(1, 1, 1));
    assert_eq!(physics.borrow_body(b).get_position(), Vec3::new(1, 1, 1));
    physics.remove_body(a);
    assert!(!physics.is_valid_body_handle(a));
    physics.step(1);
    assert_eq!(physics.borrow_body(b).get_position(), Vec3::new(1, 1, 1));
}

#[test]
fn removing_a_node_removes_the_animations_that_drive_it() {
    let mut scene = Scene::new();
    let a = scene.graph.add_node(named("a"));
    let b = scene.graph.add_child(named("b"), a);
    let c = scene.graph.add_node(named("c"));
    let on_a = scene.animations.add(animation_on(&[a]));
    let on_b_and_c = scene.animations.add(animation_on(&[c, b]));
    let on_c = scene.animations.add(animation_on(&[c]));
    let on_none = scene.animations.add(animation_on(&[]));
    scene.remove_node(a);
    assert!(!scene.graph.is_valid_handle(a));
    assert!(!scene.graph.is_valid_handle(b));
    assert!(scene.graph.is_valid_handle(c));
    assert!(!scene.animations.is_valid_handle(on_a));
    assert!(!scene.animations.is_valid_handle(on_b_and_c));
    assert!(scene.animations.is_valid_handle(on_c));
    assert!(scene.animations.is_valid_handle(on_none));
    assert_eq!(scene.animations.alive_count(), 2);
}

#[test]
fn remove_targeting_removes_whole_animations() {
    let mut graph = Graph::new();
    let a = graph.add_node(named("a"));
    let b = graph.add_node(named("b"));
    let mut animations = AnimationContainer::new();
    let x = animations.add(animation_on(&[a, b]));
    let y = animations.add(animation_on(&[b]));
    animations.remove_targeting(a);
    assert!(!animations.is_valid_handle(x));
    assert!(animations.is_valid_handle(y));
    assert_eq!(animations.get(y).get_tracks().len(), 1);
    assert!(animations.get(y).targets(b));
    assert!(!animations.get(y).targets(a));
}

#[test]
fn animations_play_on() {
    let mut animations = AnimationContainer::new();
    let x = animations.add(Animation::default());
    animations.update_animations(16);
    animations.update_animations(4);
    assert_eq!(animations.get(x).get_time_position(), 20);
    animations.remove(x);
    assert_eq!(animations.alive_count(), 0);
}

#[test]
fn resolve_fits_the_tracks_to_the_copies() {
    let mut model = Graph::new();
    let bone = model.add_node(named("bone"));
    let tip = model.add_child(named("tip"), bone);
    let mut scene = Scene::new();
    let copy = model.copy_node(bone, &mut scene.graph);
    let copy_of_tip = scene.graph.find_copy_of(copy, tip);
    let mut animation = Animation::new(copy);
    animation.add_track(Track { node: Handle::none(), original: tip });
    animation.add_track(Track { node: Handle::none(), original: bone });
    animation.add_track(Track { node: copy, original: Handle::none() });
    let x = scene.animations.add(animation);
    let mut loose = Animation::new(Handle::none());
    loose.add_track(Track { node: copy, original: tip });
    let y = scene.animations.add(loose);
    scene.resolve();
    let tracks = scene.animations.get(x).get_tracks();
    assert_eq!(tracks[0].get_node(), copy_of_tip);
    assert_eq!(tracks[1].get_node(), copy);
    assert_eq!(tracks[2].get_node(), Handle::none());
    assert_eq!(scene.animations.get(x).get_root(), copy);
    assert_eq!(scene.animations.get(y).get_tracks()[0].get_node(), copy);
}

#[test]
fn update_runs_physics_then_animations_then_the_graph() {
    let mut scene = Scene::new();
    let n = scene.graph.add_node(named("n"));
    let child = scene.graph.add_child(named("child"), n);
    let mut dying = Base::default();
    dying.set_lifetime(5);
    let d = scene.graph.add_node(Node::Base(dying));
    let mut body = RigidBody::new(Vec3::zero());
    body.set_velocity(Vec3::new(1, 0, 0));
    let h = scene.physics.add_body(body);
    scene.physics_binder.bind(n, h);
    let x = scene.animations.add(Animation::default());
    scene.update(Vec2::new(640, 480), 10);
    assert_eq!(scene.graph.get(n).base().local_transform().position(), Vec3::new(10, 0, 0));
    assert_eq!(
        scene.graph.get(child).base().global_transform(),
        Mat4::translation(Vec3::new(10, 0, 0))
    );
    assert_eq!(scene.animations.get(x).get_time_position(), 10);
    assert!(!scene.graph.is_valid_handle(d));
}

#[test]
fn scenes_live_in_their_container() {
    let mut scenes = SceneContainer::new();
    let a = scenes.add(Scene::new());
    let b = scenes.add(Scene::new());
    assert!(scenes.is_valid_handle(a));
    scenes.get_mut(a).graph.add_node(named("x"));
    assert_eq!(scenes.get(a).graph.alive_count(), 2);
    assert_eq!(scenes.get(b).graph.alive_count(), 1);
    assert_eq!(scenes.iter().len(), 2);
    scenes.remove(a);
    assert!(!scenes.is_valid_handle(a));
    assert_eq!(scenes.iter().len(), 1);
    scenes.clear();
    assert!(!scenes.is_valid_handle(b));
    assert_eq!(scenes.iter().len(), 0);
    let empty = SceneContainer::default();
    assert_eq!(empty.iter().len(), 0);
}

#[test]
fn scenes_can_be_changed_slot_by_slot() {
    let mut scenes = SceneContainer::new();
    let a = scenes.add(Scene::new());
    let b = scenes.add(Scene::new());
    scenes.remove(a);
    for i in 0..scenes.get_capacity() {
        if let Some(scene) = scenes.iter_mut(i) {
            scene.graph.add_node(named("x"));
        }
    }
    assert_eq!(scenes.get(b).graph.alive_count(), 2);
    assert!(scenes.iter_mut(0).is_none());
    assert!(scenes.iter_mut(5).is_none());
}

#[test]
fn the_parts_of_a_scene_are_stored_in_a_fixed_order() {
    let names: Vec<&str> = Scene::regions().iter().map(|r| r.name()).collect();
    assert_eq!(names, vec!["PhysicsBinder", "Graph", "Animations", "Physics"]);
}

#[test]
fn a_graph_can_be_loaded_only_into_an_empty_arena() {
    assert!(Graph::default().can_load());
    assert!(!Graph::new().can_load());
    let mut graph = Graph::new();
    let root = graph.get_root();
    graph.remove_node(root);
    assert!(!graph.can_load());
}

#[test]
fn a_new_scene_starts_every_arena_at_its_first_slot() {
    let mut scene = Scene::new();
    let root = scene.graph.get_root();
    assert_eq!((root.index(), root.generation()), (0, 1));
    assert_eq!(scene.graph.get(root).base().name(), "__ROOT__");
    assert_eq!(scene.graph.get_capacity(), 1);
    let n = scene.graph.add_node(named("n"));
    assert_eq!((n.index(), n.generation()), (1, 1));
    let a = scene.animations.add(Animation::default());
    assert_eq!((a.index(), a.generation()), (0, 1));
    let b = scene.physics.add_body(RigidBody::new(Vec3::zero()));
    assert_eq!((b.index(), b.generation()), (0, 1));
    let mut animations = AnimationContainer::new();
    assert_eq!(animations.alive_count(), 0);
    let first = animations.add(Animation::default());
    let second = animations.add(Animation::default());
    assert_eq!((first.index(), first.generation()), (0, 1));
    assert_eq!((second.index(), second.generation()), (1, 1));
}
