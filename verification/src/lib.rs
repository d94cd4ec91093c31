use vstd::prelude::*;

pub mod aspect;
pub mod blueprint;
pub mod construct;
pub mod cost;
pub mod crossover;
pub mod geometry;
pub mod mutation;
mod rng;
pub mod tree;

pub use aspect::LeafPlacement;
pub use blueprint::{BlueprintError, LayoutBlueprint};
pub use crossover::Subtree;
pub use geometry::{
    orientation_transform, page_orientation_of, Dimensions, ImageForProcessing,
    OrientationTransform, PageOrientation, Rotation,
};
pub use tree::{ChildSide, ImageHandle, Layout, LogicalEqError, Node, NodeLabel, SliceDirection};
