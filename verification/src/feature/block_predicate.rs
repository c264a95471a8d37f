use crate::material::proto::{BlockStateId, NameId, VerticalAnchor};
use vstd::prelude::*;

verus! {

/// How far an offset may reach along each axis.
pub const OFFSET_LIMIT: i32 = 16;

/// A block offset of at most sixteen along each axis.
#[derive(Clone, Copy, Debug, PartialEq, Eq)]
pub struct Offset(pub [i32; 3]);

/// Whether one axis of an offset is out of range.
pub open spec fn out_of_range(axis: i32) -> bool {
    axis < -OFFSET_LIMIT || axis > OFFSET_LIMIT
}

impl Offset {
    /// The zero offset.
    pub fn zero() -> (offset: Offset)
        ensures
            offset.0@ == seq![0i32, 0i32, 0i32],
    {
        let offset = Offset([0, 0, 0]);
        assert(offset.0@ =~= seq![0i32, 0i32, 0i32]);
        offset
    }

    /// The offset of these axes; the first axis out of range is refused.
    pub fn new(axes: [i32; 3]) -> (res: Result<Offset, i32>)
        ensures
            match res {
                Ok(offset) => offset.0 == axes && forall|i: int| 0 <= i < 3 ==> !out_of_range(
                    #[trigger] axes@[i],
                ),
                Err(axis) => exists|i: int|
                    0 <= i < 3 && axes@[i] == axis && out_of_range(axis) && forall|j: int|
                        0 <= j < i ==> !out_of_range(#[trigger] axes@[j]),
            },
    {
        let mut i: usize = 0;
        while i < 3
            invariant
                i <= 3,
                forall|j: int| 0 <= j < i ==> !out_of_range(#[trigger] axes@[j]),
            decreases 3 - i,
        {
            let axis = axes[i];
            if axis < -OFFSET_LIMIT || axis > OFFSET_LIMIT {
                assert(axes@[i as int] == axis);
                return Err(axis);
            }
            i += 1;
        }
        Ok(Offset(axes))
    }
}

/// A registry element set: a `#tag`, one entry, or a list of entries, kept
/// apart so a value writes back the way it came. With `ALWAYS_LIST` a bare
/// entry is refused when a set is read, and only a tag or a list reads.
pub enum HolderSet<T, const ALWAYS_LIST: bool> {
    Tag(NameId),
    One(T),
    List(Vec<T>),
}

/// `std::slice::from_ref`: the slice of length one over a reference.
#[verifier::external_body]
fn slice_of_one<T>(entry: &T) -> (slice: &[T])
    ensures
        slice@ == seq![*entry],
{
    std::slice::from_ref(entry)
}

impl<T, const ALWAYS_LIST: bool> HolderSet<T, ALWAYS_LIST> {
    /// The entries a tag-less set names; a tag names none until it is
    /// expanded.
    pub fn entries(&self) -> (entries: &[T])
        ensures
            match self {
                HolderSet::Tag(_) => entries@.len() == 0,
                HolderSet::One(entry) => entries@ == seq![*entry],
                HolderSet::List(list) => entries@ == list@,
            },
    {
        match self {
            HolderSet::Tag(_) => {
                let none: &[T] = &[];
                none
            },
            HolderSet::One(entry) => slice_of_one(entry),
            HolderSet::List(list) => list.as_slice(),
        }
    }
}

/// A face of a block.
#[derive(Clone, Copy, Debug, PartialEq, Eq, Structural)]
pub enum Direction {
    Down,
    Up,
    North,
    South,
    West,
    East,
}

/// A test of the blocks around a position, as a feature configuration
/// writes it: every block, fluid, biome and tag by its interned name.
pub enum BlockPredicate {
    MatchingBlocks { offset: Offset, blocks: HolderSet<NameId, false> },
    MatchingBlockTag { offset: Offset, tag: NameId },
    MatchingFluids { offset: Offset, fluids: HolderSet<NameId, false> },
    MatchingBiomes { biomes: HolderSet<NameId, false> },
    HasSturdyFace { offset: Offset, direction: Direction },
    Solid { offset: Offset },
    Replaceable { offset: Offset },
    WouldSurvive { offset: Offset, state: BlockStateId },
    InsideWorldBounds { offset: Offset },
    AnyOf { predicates: Vec<BlockPredicate> },
    AllOf { predicates: Vec<BlockPredicate> },
    Not { predicate: Box<BlockPredicate> },
    True,
    /// The one offset not bounded to sixteen blocks per axis.
    Unobstructed { offset: [i32; 3] },
    HeightRange { min_inclusive: VerticalAnchor, max_inclusive: VerticalAnchor },
    VolumeMatch(VolumeMatch),
}

/// A predicate asked at every block of a box of offsets.
pub struct VolumeMatch {
    pub min: Offset,
    pub max: Offset,
    pub matches: Box<BlockPredicate>,
}

/// A volume whose minimum bound lies above its maximum on some axis.
#[derive(Clone, Copy, Debug, PartialEq, Eq, Structural)]
pub struct InvertedVolume;

impl VolumeMatch {
    /// The minimum bound may not be larger than the maximum on any axis.
    pub fn validate(&self) -> (res: Result<(), InvertedVolume>)
        ensures
            res is Ok <==> forall|axis: int| 0 <= axis < 3 ==> self.min.0@[axis] <= self.max.0@[axis],
    {
        let mut axis: usize = 0;
        while axis < 3
            invariant
                axis <= 3,
                forall|a: int| 0 <= a < axis ==> self.min.0@[a] <= self.max.0@[a],
            decreases 3 - axis,
        {
            if self.min.0[axis] > self.max.0[axis] {
                return Err(InvertedVolume);
            }
            axis += 1;
        }
        Ok(())
    }
}

} // verus!
