//! Minecraft world generation: decoration ordering, material rules, feature
//! placement and the integer side of the density nodes.

pub mod feature;
pub mod jmath;
pub mod material;
pub mod node;
pub mod plan;
pub mod program;
pub mod proto;
