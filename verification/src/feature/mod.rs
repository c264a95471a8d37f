pub mod block_predicate;
pub mod config;
pub mod placement;
pub mod placer;
pub mod sort;
pub mod tree;

use vstd::prelude::*;

verus! {

/// The ore feature. Its vein is traced with floating-point geometry outside
/// the verified part; which state each block of the vein becomes is
/// [`config::OreConfig::replacement`].
#[derive(Clone, Copy, Debug, PartialEq, Eq, Structural)]
pub struct OreFeature;

} // verus!
