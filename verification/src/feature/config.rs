use crate::material::proto::VoxelId;
use vstd::prelude::*;

verus! {

/// A state an ore may replace, and what it replaces it with.
#[derive(Clone, Copy, Debug, PartialEq, Eq, Structural)]
pub struct TargetBlockState {
    pub target: VoxelId,
    pub state: VoxelId,
}

/// Which way the vein's origin is shifted vertically.
#[derive(Clone, Copy, Debug, PartialEq, Eq, Structural)]
pub enum OreYOffset {
    BetaPlus2,
    ModernMinus2,
}

impl OreYOffset {
    /// The shift in blocks.
    pub fn blocks(self) -> (shift: i32)
        ensures
            shift == (match self {
                OreYOffset::BetaPlus2 => 2int,
                OreYOffset::ModernMinus2 => -2int,
            }),
    {
        match self {
            OreYOffset::BetaPlus2 => 2,
            OreYOffset::ModernMinus2 => -2,
        }
    }
}

pub struct OreConfig {
    pub targets: Vec<TargetBlockState>,
    pub size: i32,
    pub y_offset: OreYOffset,
}

impl OreConfig {
    /// What the ore puts where `current` stands: the state of the first
    /// target naming it, if any.
    pub fn replacement(&self, current: VoxelId) -> (res: Option<VoxelId>)
        ensures
            match res {
                Some(state) => exists|i: int|
                    0 <= i < self.targets@.len() && self.targets@[i].target == current
                        && self.targets@[i].state == state && forall|j: int|
                        0 <= j < i ==> self.targets@[j].target != current,
                None => forall|i: int|
                    0 <= i < self.targets@.len() ==> self.targets@[i].target != current,
            },
    {
        let mut i: usize = 0;
        while i < self.targets.len()
            invariant
                i <= self.targets@.len(),
                forall|j: int| 0 <= j < i ==> self.targets@[j].target != current,
            decreases self.targets.len() - i,
        {
            if self.targets[i].target == current {
                return Some(self.targets[i].state);
            }
            i += 1;
        }
        None
    }
}

} // verus!
