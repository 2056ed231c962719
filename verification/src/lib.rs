//! A scene graph: the nodes of a scene, held in a generation-checked arena
//! and linked into one tree.
//!
//! - [`pool`]: the arena and its handles.
//! - [`math`], [`transform`]: vectors, matrices and the placement of a node,
//!   in integers.
//! - [`base`], [`node`]: what every node shares, and the kinds of node.
//! - [`tree`], [`traversal`]: the shape of a hierarchy, what makes it a tree,
//!   and depth-first traversal with an explicit stack.
//! - [`graph`]: the graph itself: adding, moving and removing nodes,
//!   searches, traversals, and the propagation of transforms.
//! - [`copy`]: copying a node with all that lies under it into another graph.
//! - [`resolve`]: bringing nodes back in line with the models they were made
//!   from.
//! - [`lifecycle`]: the passing of time and the removal of nodes whose
//!   lifetime has run out.
//! - [`physics`], [`animation`]: the bodies and the animations that move the
//!   nodes of a scene.
//! - [`scene`]: a graph with its animations, its physics world and the
//!   binding of nodes to bodies; and the container of scenes.
//! - [`state`]: the cache of the state of the graphics pipeline.

pub mod animation;
pub mod base;
pub mod copy;
pub mod graph;
pub mod lifecycle;
pub mod math;
pub mod node;
pub mod physics;
pub mod pool;
pub mod resolve;
pub mod scene;
pub mod state;
pub mod transform;
pub mod traversal;
pub mod tree;
