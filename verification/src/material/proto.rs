use vstd::prelude::*;
use vstd::wrapping::i32_specs;

verus! {

/// Whether a flag is off: such a flag is left out when a rule is written.
pub fn is_false(value: &bool) -> (res: bool)
    ensures
        res == !*value,
{
    !*value
}

/// A resource location, interned by the caller: two equal ids name the same
/// location. Every registry below is indexed by it.
pub type NameId = u32;

/// A block state as the datapack names it, interned by the caller; the
/// block registry of [`crate::material::compile::MaterialInputs`] resolves it.
pub type BlockStateId = u32;

/// A block state id as the chunk stores it.
pub type VoxelId = u16;

/// A density function already compiled into the shared program.
pub type DensityNode = u32;

/// The vertical bounds generation runs in.
#[derive(Clone, Copy, Debug, PartialEq, Eq)]
pub struct HeightContext {
    pub min_y: i32,
    pub depth: i32,
    pub sea_level: i32,
}

impl HeightContext {
    /// Whether `y` lies inside the bounds: at or above the bottom, below the
    /// first height past the top.
    pub fn contains(&self, y: i32) -> (res: bool)
        ensures
            res == (self.min_y <= y < self.min_y + self.depth),
    {
        (self.min_y as i64) <= (y as i64) && (y as i64) < (self.min_y as i64) + (self.depth as i64)
    }
}

/// A height written relative to the world's bounds.
#[derive(Clone, Copy, Debug, PartialEq, Eq)]
pub enum VerticalAnchor {
    Absolute(i32),
    AboveBottom(i32),
    BelowTop(i32),
    RelativeToSeaLevel(i32),
}

/// The height an anchor names, in Java's wrapping `int` arithmetic.
pub open spec fn anchor_y(anchor: VerticalAnchor, height: HeightContext) -> i32 {
    match anchor {
        VerticalAnchor::Absolute(y) => y,
        VerticalAnchor::AboveBottom(offset) => i32_specs::wrapping_add(height.min_y, offset),
        VerticalAnchor::BelowTop(offset) => i32_specs::wrapping_sub(
            i32_specs::wrapping_sub(i32_specs::wrapping_add(height.min_y, height.depth), 1),
            offset,
        ),
        VerticalAnchor::RelativeToSeaLevel(offset) => i32_specs::wrapping_add(
            height.sea_level,
            offset,
        ),
    }
}

impl VerticalAnchor {
    pub fn resolve_y(self, height: HeightContext) -> (y: i32)
        ensures
            y == anchor_y(self, height),
    {
        match self {
            VerticalAnchor::Absolute(y) => y,
            VerticalAnchor::AboveBottom(offset) => height.min_y.wrapping_add(offset),
            VerticalAnchor::BelowTop(offset) => height.min_y.wrapping_add(height.depth).wrapping_sub(
                1,
            ).wrapping_sub(offset),
            VerticalAnchor::RelativeToSeaLevel(offset) => height.sea_level.wrapping_add(offset),
        }
    }
}

pub enum MaterialRuleHolder {
    Reference(NameId),
    Owned(Box<MaterialRule>),
}

pub enum MaterialConditionHolder {
    Reference(NameId),
    Owned(Box<MaterialCondition>),
}

pub enum MaterialRule {
    Block { result_state: BlockStateId },
    Sequence { sequence: Vec<MaterialRuleHolder> },
    Condition { if_true: MaterialConditionHolder, then_run: MaterialRuleHolder },
    Bandlands,
    /// `raw_ore_chance` holds the bits of the `f64` chance.
    OreVein {
        ore_block: BlockStateId,
        raw_ore_block: BlockStateId,
        filler_block: BlockStateId,
        raw_ore_chance: u64,
        density: DensityNode,
        richness: DensityNode,
        filler_gap: DensityNode,
    },
}

/// `min_threshold` and `max_threshold` hold the bits of the `f64` bounds.
pub enum MaterialCondition {
    Biome { biome_is: BiomeSet },
    NoiseThreshold { noise: NameId, min_threshold: u64, max_threshold: u64, is_3d: bool },
    VerticalGradient {
        random_name: NameId,
        true_at_and_below: VerticalAnchor,
        false_at_and_above: VerticalAnchor,
    },
    YAbove { anchor: VerticalAnchor, surface_depth_multiplier: i32, add_stone_depth: bool },
    Water { offset: i32, surface_depth_multiplier: i32, add_stone_depth: bool },
    Temperature,
    Steep,
    Not { invert: MaterialConditionHolder },
    Hole,
    AbovePreliminarySurface,
    StoneDepth {
        offset: i32,
        add_surface_depth: bool,
        secondary_depth_range: i32,
        surface_type: CaveSurface,
    },
}

#[derive(Clone, Copy, Debug, PartialEq, Eq)]
pub enum CaveSurface {
    Ceiling,
    Floor,
}

/// The biomes a `biome_is` names: one bare id or a list of them.
pub enum BiomeSet {
    One(NameId),
    Many(Vec<NameId>),
}

pub open spec fn biome_set_ids(set: BiomeSet) -> Seq<NameId> {
    match set {
        BiomeSet::One(id) => seq![id],
        BiomeSet::Many(ids) => ids@,
    }
}

impl BiomeSet {
    pub fn ids(&self) -> (ids: Vec<NameId>)
        ensures
            ids@ == biome_set_ids(*self),
    {
        match self {
            BiomeSet::One(id) => {
                let mut ids = Vec::new();
                ids.push(*id);
                proof {
                    assert(ids@ =~= seq![*id]);
                }
                ids
            },
            BiomeSet::Many(ids) => {
                let mut out = Vec::new();
                let mut i: usize = 0;
                while i < ids.len()
                    invariant
                        i <= ids.len(),
                        out@ == ids@.take(i as int),
                    decreases ids.len() - i,
                {
                    out.push(ids[i]);
                    proof {
                        assert(out@ =~= ids@.take(i + 1));
                    }
                    i += 1;
                }
                proof {
                    assert(ids@.take(ids@.len() as int) =~= ids@);
                }
                out
            },
        }
    }
}

} // verus!
