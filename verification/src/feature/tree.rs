use crate::feature::block_predicate::Direction;
use vstd::prelude::*;

verus! {

/// An inclusive range of integers, written as one value, a pair, or with
/// named bounds.
#[derive(Clone, Copy, Debug, PartialEq, Eq, Structural)]
pub enum IntRange {
    Point(i32),
    Pair(i32, i32),
    Named { min_inclusive: i32, max_inclusive: i32 },
}

pub open spec fn range_min(range: IntRange) -> i32 {
    match range {
        IntRange::Point(value) => value,
        IntRange::Pair(min, _) => min,
        IntRange::Named { min_inclusive, .. } => min_inclusive,
    }
}

pub open spec fn range_max(range: IntRange) -> i32 {
    match range {
        IntRange::Point(value) => value,
        IntRange::Pair(_, max) => max,
        IntRange::Named { max_inclusive, .. } => max_inclusive,
    }
}

impl IntRange {
    pub fn min_inclusive(self) -> (min: i32)
        ensures
            min == range_min(self),
    {
        match self {
            IntRange::Point(value) => value,
            IntRange::Pair(min, _) => min,
            IntRange::Named { min_inclusive, .. } => min_inclusive,
        }
    }

    pub fn max_inclusive(self) -> (max: i32)
        ensures
            max == range_max(self),
    {
        match self {
            IntRange::Point(value) => value,
            IntRange::Pair(_, max) => max,
            IntRange::Named { max_inclusive, .. } => max_inclusive,
        }
    }
}

/// A uniform integer provider's bounds, both inclusive.
#[derive(Clone, Copy, Debug, PartialEq, Eq, Structural)]
pub struct UniformIntRange {
    pub min_inclusive: i32,
    pub max_inclusive: i32,
}

/// Why a range a tree configuration names was refused.
#[derive(Clone, Copy, Debug, PartialEq, Eq, Structural)]
pub enum RangeError {
    /// The maximum lies below the minimum.
    MaxBelowMin { min_inclusive: i32, max_inclusive: i32 },
    /// A variety range starts below one.
    TooLow { min_inclusive: i32, max_inclusive: i32 },
    /// A variety range ends above sixty-four.
    TooHigh { min_inclusive: i32, max_inclusive: i32 },
    /// A branch start offset lies outside `-16..=0`.
    OutsideBranchOffsets { min_inclusive: i32, max_inclusive: i32 },
    /// A branch start offset spans fewer than two blocks.
    TooNarrow,
}

impl UniformIntRange {
    /// The maximum must be at least the minimum.
    pub fn validate(&self) -> (res: Result<(), RangeError>)
        ensures
            self.max_inclusive < self.min_inclusive ==> res == Err::<(), RangeError>(
                RangeError::MaxBelowMin {
                    min_inclusive: self.min_inclusive,
                    max_inclusive: self.max_inclusive,
                },
            ),
            self.max_inclusive >= self.min_inclusive ==> res is Ok,
    {
        if self.max_inclusive < self.min_inclusive {
            return Err(
                RangeError::MaxBelowMin {
                    min_inclusive: self.min_inclusive,
                    max_inclusive: self.max_inclusive,
                },
            );
        }
        Ok(())
    }
}

/// A variety range: it must lie within `1..=64`; the lower bound is checked
/// first.
pub fn variety_range(range: IntRange) -> (res: Result<IntRange, RangeError>)
    ensures
        range_min(range) < 1 ==> res == Err::<IntRange, RangeError>(
            RangeError::TooLow {
                min_inclusive: range_min(range),
                max_inclusive: range_max(range),
            },
        ),
        range_min(range) >= 1 && range_max(range) > 64 ==> res == Err::<IntRange, RangeError>(
            RangeError::TooHigh {
                min_inclusive: range_min(range),
                max_inclusive: range_max(range),
            },
        ),
        range_min(range) >= 1 && range_max(range) <= 64 ==> res == Ok::<IntRange, RangeError>(
            range,
        ),
{
    if range.min_inclusive() < 1 {
        return Err(
            RangeError::TooLow {
                min_inclusive: range.min_inclusive(),
                max_inclusive: range.max_inclusive(),
            },
        );
    }
    if range.max_inclusive() > 64 {
        return Err(
            RangeError::TooHigh {
                min_inclusive: range.min_inclusive(),
                max_inclusive: range.max_inclusive(),
            },
        );
    }
    Ok(range)
}

/// A branch start offset: both bounds within `-16..=0`, at least two blocks
/// apart.
pub fn branch_start_offset(range: UniformIntRange) -> (res: Result<UniformIntRange, RangeError>)
    ensures
        !(-16 <= range.min_inclusive <= 0 && -16 <= range.max_inclusive <= 0) ==> res == Err::<
            UniformIntRange,
            RangeError,
        >(
            RangeError::OutsideBranchOffsets {
                min_inclusive: range.min_inclusive,
                max_inclusive: range.max_inclusive,
            },
        ),
        -16 <= range.min_inclusive <= 0 && -16 <= range.max_inclusive <= 0 ==> (if range.max_inclusive
            - range.min_inclusive < 1 {
            res == Err::<UniformIntRange, RangeError>(RangeError::TooNarrow)
        } else {
            res == Ok::<UniformIntRange, RangeError>(range)
        }),
{
    if !(-16 <= range.min_inclusive && range.min_inclusive <= 0) || !(-16 <= range.max_inclusive
        && range.max_inclusive <= 0) {
        return Err(
            RangeError::OutsideBranchOffsets {
                min_inclusive: range.min_inclusive,
                max_inclusive: range.max_inclusive,
            },
        );
    }
    if range.max_inclusive - range.min_inclusive < 1 {
        return Err(RangeError::TooNarrow);
    }
    Ok(range)
}

/// What a tree places around itself once grown, with its block provider of
/// type `P`. Every probability is held as the bits of its `f32`, each bounded
/// count as the integer it was read as.
pub enum TreeDecorator<P> {
    TrunkVine,
    LeaveVine { probability: u32 },
    PaleMoss { leaves_probability: u32, trunk_probability: u32, ground_probability: u32 },
    CreakingHeart { probability: u32 },
    Cocoa { probability: u32 },
    ShelfMushroom { probability: u32 },
    Beehive { probability: u32 },
    AlterGround { provider: P },
    AttachedToLeaves {
        probability: u32,
        exclusion_radius_xz: i32,
        exclusion_radius_y: i32,
        block_provider: P,
        required_empty_blocks: i32,
        directions: Vec<Direction>,
    },
    PlaceOnGround { tries: i32, radius: i32, height: i32, block_state_provider: P },
    AttachedToLogs { probability: u32, block_provider: P, directions: Vec<Direction> },
}

/// The provider a decorator carries, where it carries one.
pub open spec fn provider_of<P>(decorator: TreeDecorator<P>) -> Option<P> {
    match decorator {
        TreeDecorator::AlterGround { provider } => Some(provider),
        TreeDecorator::AttachedToLeaves { block_provider, .. } => Some(block_provider),
        TreeDecorator::PlaceOnGround { block_state_provider, .. } => Some(block_state_provider),
        TreeDecorator::AttachedToLogs { block_provider, .. } => Some(block_provider),
        _ => None,
    }
}

/// `to` is `from` with its provider, if it carries one, replaced by `provider`:
/// the same kind, every other field the same.
pub open spec fn same_but_provider<P, Q>(from: TreeDecorator<P>, to: TreeDecorator<Q>, provider: Q) -> bool {
    match (from, to) {
        (TreeDecorator::TrunkVine, TreeDecorator::TrunkVine) => true,
        (TreeDecorator::LeaveVine { probability: a }, TreeDecorator::LeaveVine { probability: b }) => a
            == b,
        (
            TreeDecorator::PaleMoss {
                leaves_probability: a1,
                trunk_probability: a2,
                ground_probability: a3,
            },
            TreeDecorator::PaleMoss {
                leaves_probability: b1,
                trunk_probability: b2,
                ground_probability: b3,
            },
        ) => a1 == b1 && a2 == b2 && a3 == b3,
        (
            TreeDecorator::CreakingHeart { probability: a },
            TreeDecorator::CreakingHeart { probability: b },
        ) => a == b,
        (TreeDecorator::Cocoa { probability: a }, TreeDecorator::Cocoa { probability: b }) => a == b,
        (
            TreeDecorator::ShelfMushroom { probability: a },
            TreeDecorator::ShelfMushroom { probability: b },
        ) => a == b,
        (TreeDecorator::Beehive { probability: a }, TreeDecorator::Beehive { probability: b }) => a
            == b,
        (TreeDecorator::AlterGround { .. }, TreeDecorator::AlterGround { provider: b }) => b
            == provider,
        (
            TreeDecorator::AttachedToLeaves {
                probability: a1,
                exclusion_radius_xz: a2,
                exclusion_radius_y: a3,
                required_empty_blocks: a4,
                directions: a5,
                ..
            },
            TreeDecorator::AttachedToLeaves {
                probability: b1,
                exclusion_radius_xz: b2,
                exclusion_radius_y: b3,
                block_provider: b,
                required_empty_blocks: b4,
                directions: b5,
            },
        ) => a1 == b1 && a2 == b2 && a3 == b3 && a4 == b4 && a5@ == b5@ && b == provider,
        (
            TreeDecorator::PlaceOnGround { tries: a1, radius: a2, height: a3, .. },
            TreeDecorator::PlaceOnGround {
                tries: b1,
                radius: b2,
                height: b3,
                block_state_provider: b,
            },
        ) => a1 == b1 && a2 == b2 && a3 == b3 && b == provider,
        (
            TreeDecorator::AttachedToLogs { probability: a1, directions: a2, .. },
            TreeDecorator::AttachedToLogs { probability: b1, block_provider: b, directions: b2 },
        ) => a1 == b1 && a2@ == b2@ && b == provider,
        _ => false,
    }
}

/// The bounds a datapack's decorator must keep: the leaf exclusion radii
/// within `0..=16`, at least one and at most sixteen empty blocks required,
/// at least one try, no negative radius or height, and a direction to attach
/// on wherever directions are listed.
pub open spec fn decorator_in_bounds<P>(decorator: TreeDecorator<P>) -> bool {
    match decorator {
        TreeDecorator::AttachedToLeaves {
            exclusion_radius_xz,
            exclusion_radius_y,
            required_empty_blocks,
            directions,
            ..
        } => 0 <= exclusion_radius_xz <= 16 && 0 <= exclusion_radius_y <= 16 && 1
            <= required_empty_blocks <= 16 && directions@.len() > 0,
        TreeDecorator::PlaceOnGround { tries, radius, height, .. } => tries >= 1 && radius >= 0
            && height >= 0,
        TreeDecorator::AttachedToLogs { directions, .. } => directions@.len() > 0,
        _ => true,
    }
}

fn copy_directions(directions: &Vec<Direction>) -> (copy: Vec<Direction>)
    ensures
        copy@ == directions@,
{
    let mut copy: Vec<Direction> = Vec::new();
    let mut i: usize = 0;
    while i < directions.len()
        invariant
            i <= directions@.len(),
            copy@ == directions@.take(i as int),
        decreases directions.len() - i,
    {
        copy.push(directions[i]);
        proof {
            assert(directions@.take(i + 1) =~= directions@.take(i as int).push(directions@[i as int]));
        }
        i += 1;
    }
    assert(directions@.take(directions@.len() as int) =~= directions@);
    copy
}

impl<P> TreeDecorator<P> {
    /// Whether the decorator keeps the bounds its codec reads it within.
    pub fn in_bounds(&self) -> (ok: bool)
        ensures
            ok == decorator_in_bounds(*self),
    {
        match self {
            TreeDecorator::AttachedToLeaves {
                exclusion_radius_xz,
                exclusion_radius_y,
                required_empty_blocks,
                directions,
                ..
            } => 0 <= *exclusion_radius_xz && *exclusion_radius_xz <= 16 && 0 <= *exclusion_radius_y
                && *exclusion_radius_y <= 16 && 1 <= *required_empty_blocks && *required_empty_blocks
                <= 16 && directions.len() > 0,
            TreeDecorator::PlaceOnGround { tries, radius, height, .. } => *tries >= 1 && *radius >= 0
                && *height >= 0,
            TreeDecorator::AttachedToLogs { directions, .. } => directions.len() > 0,
            _ => true,
        }
    }

    /// The same decorator with its provider, if it carries one, resolved by
    /// `f`; the first error `f` answers is the result.
    pub fn map_provider<Q, E, F: Fn(&P) -> Result<Q, E>>(&self, f: F) -> (res: Result<TreeDecorator<Q>, E>)
        requires
            forall|provider: &P| f.requires((provider,)),
        ensures
            match provider_of(*self) {
                None => match res {
                    Ok(mapped) => provider_of(mapped) is None && same_but_provider(
                        *self,
                        mapped,
                        arbitrary::<Q>(),
                    ),
                    Err(_) => false,
                },
                Some(provider) => match res {
                    Ok(mapped) => exists|resolved: Q|
                        {
                            &&& f.ensures((&provider,), Ok::<Q, E>(resolved))
                            &&& same_but_provider(*self, mapped, resolved)
                        },
                    Err(error) => f.ensures((&provider,), Err::<Q, E>(error)),
                },
            },
    {
        match self {
            TreeDecorator::TrunkVine => Ok(TreeDecorator::TrunkVine),
            TreeDecorator::LeaveVine { probability } => Ok(
                TreeDecorator::LeaveVine { probability: *probability },
            ),
            TreeDecorator::PaleMoss { leaves_probability, trunk_probability, ground_probability } => Ok(
                TreeDecorator::PaleMoss {
                    leaves_probability: *leaves_probability,
                    trunk_probability: *trunk_probability,
                    ground_probability: *ground_probability,
                },
            ),
            TreeDecorator::CreakingHeart { probability } => Ok(
                TreeDecorator::CreakingHeart { probability: *probability },
            ),
            TreeDecorator::Cocoa { probability } => Ok(TreeDecorator::Cocoa { probability: *probability }),
            TreeDecorator::ShelfMushroom { probability } => Ok(
                TreeDecorator::ShelfMushroom { probability: *probability },
            ),
            TreeDecorator::Beehive { probability } => Ok(
                TreeDecorator::Beehive { probability: *probability },
            ),
            TreeDecorator::AlterGround { provider } => {
                match f(provider) {
                    Ok(resolved) => {
                        let mapped = TreeDecorator::AlterGround { provider: resolved };
                        assert(same_but_provider(*self, mapped, resolved));
                        Ok(mapped)
                    },
                    Err(error) => Err(error),
                }
            },
            TreeDecorator::AttachedToLeaves {
                probability,
                exclusion_radius_xz,
                exclusion_radius_y,
                block_provider,
                required_empty_blocks,
                directions,
            } => {
                match f(block_provider) {
                    Ok(resolved) => {
                        let mapped = TreeDecorator::AttachedToLeaves {
                            probability: *probability,
                            exclusion_radius_xz: *exclusion_radius_xz,
                            exclusion_radius_y: *exclusion_radius_y,
                            block_provider: resolved,
                            required_empty_blocks: *required_empty_blocks,
                            directions: copy_directions(directions),
                        };
                        assert(same_but_provider(*self, mapped, resolved));
                        Ok(mapped)
                    },
                    Err(error) => Err(error),
                }
            },
            TreeDecorator::PlaceOnGround { tries, radius, height, block_state_provider } => {
                match f(block_state_provider) {
                    Ok(resolved) => {
                        let mapped = TreeDecorator::PlaceOnGround {
                            tries: *tries,
                            radius: *radius,
                            height: *height,
                            block_state_provider: resolved,
                        };
                        assert(same_but_provider(*self, mapped, resolved));
                        Ok(mapped)
                    },
                    Err(error) => Err(error),
                }
            },
            TreeDecorator::AttachedToLogs { probability, block_provider, directions } => {
                match f(block_provider) {
                    Ok(resolved) => {
                        let mapped = TreeDecorator::AttachedToLogs {
                            probability: *probability,
                            block_provider: resolved,
                            directions: copy_directions(directions),
                        };
                        assert(same_but_provider(*self, mapped, resolved));
                        Ok(mapped)
                    },
                    Err(error) => Err(error),
                }
            },
        }
    }
}

} // verus!
