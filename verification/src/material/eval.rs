use crate::material::compile::{
    jumps_within, run_within, tables_wf, tape_refs, BiomeMask, CompiledCondition, Condition,
    ConditionTables, MaterialProgram, Op, Scope, Tri,
};
use crate::jmath::{floor_div_spec, floor_mod};
use vstd::arithmetic::div_mod::lemma_fundamental_div_mod;
use crate::material::proto::VoxelId;
use crate::program::Vec3i;
use vstd::prelude::*;

verus! {

/// The water level of a strip in which no fluid has been seen from above.
pub const NO_WATER: i32 = i32::MIN;

/// What the rules read of one block position, besides its samples.
#[derive(Clone, Copy, Debug, PartialEq, Eq, Structural)]
pub struct Position {
    pub block_y: i32,
    /// How deep the block lies below the first air above it.
    pub depth_above: i32,
    /// How high the block lies above the first air below it.
    pub depth_below: i32,
    pub water_level: i32,
    pub surface_depth: i32,
    pub min_surface_level: i32,
    pub gradient_x: i32,
    pub gradient_z: i32,
    pub biome: u32,
}

/// How deep a stone-depth condition reaches.
pub open spec fn stone_depth_limit(
    offset: i32,
    add_surface_depth: bool,
    secondary: i32,
    surface_depth: i32,
) -> int {
    1 + offset + (if add_surface_depth {
        surface_depth as int
    } else {
        0
    }) + secondary
}

/// What a condition answers at a position, where `sampled` is the noise
/// reading or random draw only floats decide and `secondary` the extra depth
/// the secondary surface noise gives a stone-depth condition. Biome and
/// negation conditions are answered by [`position_answer`].
pub open spec fn local_holds(kind: Condition, pos: Position, sampled: bool, secondary: i32) -> bool {
    match kind {
        Condition::StoneDepth { offset, add_surface_depth, ceiling, .. } => (if ceiling {
            pos.depth_below
        } else {
            pos.depth_above
        }) <= stone_depth_limit(offset, add_surface_depth, secondary, pos.surface_depth),
        Condition::Water { offset, surface_depth_multiplier, add_stone_depth } => pos.water_level
            == NO_WATER || pos.block_y + (if add_stone_depth {
            pos.depth_above as int
        } else {
            0
        }) >= pos.water_level + offset + pos.surface_depth * surface_depth_multiplier,
        Condition::YAbove { anchor, surface_depth_multiplier, add_stone_depth } => pos.block_y + (
        if add_stone_depth {
            pos.depth_above as int
        } else {
            0
        }) >= anchor + pos.surface_depth * surface_depth_multiplier,
        Condition::NoiseThreshold { .. } => sampled,
        Condition::VerticalGradient { true_at_and_below, false_at_and_above, .. } => if pos.block_y
            <= true_at_and_below {
            true
        } else if pos.block_y >= false_at_and_above {
            false
        } else {
            sampled
        },
        Condition::Steep => pos.gradient_x <= -4 || pos.gradient_z >= 4,
        Condition::Hole => pos.surface_depth <= 0,
        Condition::AbovePreliminarySurface => pos.block_y >= pos.min_surface_level,
        _ => false,
    }
}

/// What compiled condition `c` answers at a position.
pub open spec fn position_answer(
    t: ConditionTables,
    c: int,
    pos: Position,
    sampled: Seq<bool>,
    secondary: Seq<i32>,
) -> bool
    decreases c,
{
    if c < 0 || c >= t.conditions@.len() {
        false
    } else {
        match t.conditions@[c].kind {
            Condition::Not(inner) => if inner < c {
                !position_answer(t, inner as int, pos, sampled, secondary)
            } else {
                false
            },
            Condition::Biome { set } => t.biome_sets@[set as int]@.contains(pos.biome),
            kind => local_holds(kind, pos, sampled[c], secondary[c]),
        }
    }
}

fn local_answer(kind: Condition, pos: &Position, sampled: bool, secondary: i32) -> (res: bool)
    ensures
        res == local_holds(kind, *pos, sampled, secondary),
{
    let above = pos.depth_above as i64;
    let y = pos.block_y as i64;
    let depth = pos.surface_depth as i64;
    match kind {
        Condition::StoneDepth { offset, add_surface_depth, ceiling, .. } => {
            let reached = if ceiling {
                pos.depth_below as i64
            } else {
                above
            };
            let limit = 1 + offset as i64 + (if add_surface_depth {
                depth
            } else {
                0
            }) + secondary as i64;
            reached <= limit
        },
        Condition::Water { offset, surface_depth_multiplier, add_stone_depth } => {
            if pos.water_level == NO_WATER {
                return true;
            }
            assert(-0x8000_0000 * 0x8000_0000 <= depth * surface_depth_multiplier <= 0x8000_0000
                * 0x8000_0000) by (nonlinear_arith)
                requires
                    -0x8000_0000 <= depth < 0x8000_0000,
                    -0x8000_0000 <= surface_depth_multiplier < 0x8000_0000,
            ;
            y + (if add_stone_depth {
                above
            } else {
                0
            }) >= pos.water_level as i64 + offset as i64 + depth * surface_depth_multiplier as i64
        },
        Condition::YAbove { anchor, surface_depth_multiplier, add_stone_depth } => {
            assert(-0x8000_0000 * 0x8000_0000 <= depth * surface_depth_multiplier <= 0x8000_0000
                * 0x8000_0000) by (nonlinear_arith)
                requires
                    -0x8000_0000 <= depth < 0x8000_0000,
                    -0x8000_0000 <= surface_depth_multiplier < 0x8000_0000,
            ;
            y + (if add_stone_depth {
                above
            } else {
                0
            }) >= anchor as i64 + depth * surface_depth_multiplier as i64
        },
        Condition::NoiseThreshold { .. } => sampled,
        Condition::VerticalGradient { true_at_and_below, false_at_and_above, .. } => {
            if pos.block_y <= true_at_and_below {
                true
            } else if pos.block_y >= false_at_and_above {
                false
            } else {
                sampled
            }
        },
        Condition::Steep => pos.gradient_x <= -4 || pos.gradient_z >= 4,
        Condition::Hole => pos.surface_depth <= 0,
        Condition::AbovePreliminarySurface => pos.block_y >= pos.min_surface_level,
        _ => false,
    }
}

/// Every condition's answer at a position, in id order: a negation reads the
/// answer of its operand, which comes earlier.
pub fn answers_at(program: &MaterialProgram, pos: &Position, sampled: &[bool], secondary: &[i32]) -> (answers:
    Vec<bool>)
    requires
        program.tables_view().conditions@.len() <= sampled@.len(),
        program.tables_view().conditions@.len() <= secondary@.len(),
    ensures
        answers@.len() == program.tables_view().conditions@.len(),
        forall|c: int|
            0 <= c < answers@.len() ==> #[trigger] answers@[c] == position_answer(
                program.tables_view(),
                c,
                *pos,
                sampled@,
                secondary@,
            ),
{
    let conditions = program.conditions();
    let sets = program.biome_sets();
    let ghost t = program.tables_view();
    let mut answers: Vec<bool> = Vec::new();
    let mut c: usize = 0;
    while c < conditions.len()
        invariant
            c <= conditions@.len(),
            conditions@ == t.conditions@,
            sets@ == t.biome_sets@,
            tables_wf(t),
            t.conditions@.len() <= sampled@.len(),
            t.conditions@.len() <= secondary@.len(),
            answers@.len() == c,
            forall|k: int|
                0 <= k < c ==> #[trigger] answers@[k] == position_answer(
                    t,
                    k,
                    *pos,
                    sampled@,
                    secondary@,
                ),
        decreases conditions.len() - c,
    {
        let kind = conditions[c].kind;
        assert(t.conditions@[c as int] == conditions@[c as int]);
        let answer = match kind {
            Condition::Not(inner) => !answers[inner as usize],
            Condition::Biome { set } => sets[set as usize].contains(pos.biome),
            _ => local_answer(kind, pos, sampled[c], secondary[c]),
        };
        answers.push(answer);
        c += 1;
    }
    answers
}

/// What each kind of condition answers at a position, read off the position
/// alone: a block is steep where the surface falls four or more blocks
/// towards negative x or rises four or more towards positive z; a hole where
/// the surface depth is not positive; above the preliminary surface at or
/// above its level; within stone depth where the block lies no deeper below
/// the air above (or, for a ceiling, no higher above the air below) than one
/// block plus the offset, the surface depth if added and the secondary
/// depth; above a y or water level where its height, plus its depth below
/// the air if added, reaches the level plus the offset and the multiplied
/// surface depth, and anywhere when no water was seen; on a vertical
/// gradient always at and below its true height, never at and above its
/// false height, and by draw between; by noise or draw where only a float
/// decides; in a biome set where the position's biome is in it; and a
/// negation where its earlier operand does not hold.
pub proof fn lemma_condition_meaning(
    t: ConditionTables,
    c: int,
    pos: Position,
    sampled: Seq<bool>,
    secondary: Seq<i32>,
)
    requires
        0 <= c < t.conditions@.len(),
    ensures
        match t.conditions@[c].kind {
            Condition::Steep => position_answer(t, c, pos, sampled, secondary) <==> (pos.gradient_x <= -4
                || pos.gradient_z >= 4),
            Condition::Hole => position_answer(t, c, pos, sampled, secondary) <==> pos.surface_depth <= 0,
            Condition::AbovePreliminarySurface => position_answer(t, c, pos, sampled, secondary) <==> pos.block_y
                >= pos.min_surface_level,
            Condition::StoneDepth { offset, add_surface_depth, ceiling, .. } => position_answer(
                t,
                c,
                pos,
                sampled,
                secondary,
            ) <==> (if ceiling {
                pos.depth_below as int
            } else {
                pos.depth_above as int
            }) <= 1 + offset + secondary[c] + (if add_surface_depth {
                pos.surface_depth as int
            } else {
                0int
            }),
            Condition::Water { offset, surface_depth_multiplier, add_stone_depth } => position_answer(
                t,
                c,
                pos,
                sampled,
                secondary,
            ) <==> (pos.water_level == i32::MIN || pos.block_y + (if add_stone_depth {
                pos.depth_above as int
            } else {
                0int
            }) >= pos.water_level + offset + pos.surface_depth * surface_depth_multiplier),
            Condition::YAbove { anchor, surface_depth_multiplier, add_stone_depth } => position_answer(
                t,
                c,
                pos,
                sampled,
                secondary,
            ) <==> pos.block_y + (if add_stone_depth {
                pos.depth_above as int
            } else {
                0int
            }) >= anchor + pos.surface_depth * surface_depth_multiplier,
            Condition::NoiseThreshold { .. } => position_answer(t, c, pos, sampled, secondary) == sampled[c],
            Condition::VerticalGradient { true_at_and_below, false_at_and_above, .. } => {
                &&& pos.block_y <= true_at_and_below ==> position_answer(t, c, pos, sampled, secondary)
                &&& true_at_and_below < pos.block_y && pos.block_y >= false_at_and_above ==> !position_answer(
                    t,
                    c,
                    pos,
                    sampled,
                    secondary,
                )
                &&& true_at_and_below < pos.block_y < false_at_and_above ==> position_answer(
                    t,
                    c,
                    pos,
                    sampled,
                    secondary,
                ) == sampled[c]
            },
            Condition::Biome { set } => position_answer(t, c, pos, sampled, secondary) == t.biome_sets@[set as int]@.contains(
                pos.biome,
            ),
            Condition::Not(inner) => inner < c ==> position_answer(t, c, pos, sampled, secondary)
                == !position_answer(t, inner as int, pos, sampled, secondary),
        },
{
}

/// Whether a vein can be present anywhere in `lo..=hi` of a strip: some
/// cell of its lattice meeting the piece is open, or the piece reaches above
/// the lattice, where nothing is known. `cells[at..]` holds the strip's
/// cells from the bottom, `size_y` of them, each `cell_y` blocks high from
/// `min_y`.
pub fn vein_open_in(
    cells: &[bool],
    at: usize,
    size_y: i32,
    cell_y: i32,
    min_y: i32,
    lo: i32,
    hi: i32,
) -> (open: bool)
    requires
        cell_y > 0,
        min_y <= lo <= hi,
        hi - min_y <= i32::MAX,
        at + size_y <= cells@.len(),
    ensures
        open == ((hi - min_y) / (cell_y as int) >= size_y || exists|c: int|
            (lo - min_y) / (cell_y as int) <= c <= (hi - min_y) / (cell_y as int) && #[trigger] cells@[at + c]),
{
    let first = (lo - min_y) / cell_y;
    let last = (hi - min_y) / cell_y;
    if last >= size_y {
        return true;
    }
    let count: usize = cells.len();
    proof {
        let (a, b, d) = ((lo - min_y) as int, (hi - min_y) as int, cell_y as int);
        assert(0 <= a / d <= b / d) by (nonlinear_arith)
            requires
                0 <= a <= b,
                d > 0,
        ;
    }
    let mut c = first;
    while c <= last
        invariant
            count == cells@.len(),
            first == (lo - min_y) / (cell_y as int),
            last == (hi - min_y) / (cell_y as int),
            0 <= first <= c <= last + 1,
            last < size_y,
            at + size_y <= cells@.len(),
            forall|k: int| first <= k < c ==> !#[trigger] cells@[at + k],
        decreases last + 1 - c,
    {
        if cells[at + c as usize] {
            return true;
        }
        c += 1;
    }
    false
}

/// How a vein's lattice divides a column sixteen blocks square and `height`
/// high: the size of one cell, and how many cells it has along each axis.
#[derive(Clone, Copy, Debug, PartialEq, Eq, Structural)]
pub struct VeinLattice {
    pub cell: Vec3i,
    pub size: Vec3i,
}

/// Whether cells of `cell` tile a column sixteen blocks square and `height`
/// high.
pub open spec fn tiles_column(cell: Vec3i, height: i32) -> bool {
    16int % (cell.x as int) == 0 && 16int % (cell.z as int) == 0 && height % cell.y == 0
}

/// The lattice of a vein whose bounds come in cells of `cell_size`: that
/// cell where it tiles the column; otherwise one cell, the whole column,
/// which is filled block by block. The column's height is that of the noise
/// settings, never negative.
pub fn vein_lattice(cell_size: Option<Vec3i>, height: i32) -> (lattice: VeinLattice)
    requires
        height >= 0,
        cell_size matches Some(c) ==> c.x > 0 && c.y > 0 && c.z > 0,
    ensures
        match cell_size {
            Some(c) => if tiles_column(c, height) {
                lattice == (VeinLattice {
                    cell: c,
                    size: Vec3i { x: (16i32 / c.x) as i32, y: (height / c.y) as i32, z: (16i32 / c.z) as i32 },
                })
            } else {
                lattice == (VeinLattice {
                    cell: Vec3i { x: 16, y: height, z: 16 },
                    size: Vec3i { x: 1, y: 1, z: 1 },
                })
            },
            None => lattice == (VeinLattice {
                cell: Vec3i { x: 16, y: height, z: 16 },
                size: Vec3i { x: 1, y: 1, z: 1 },
            }),
        },
{
    match cell_size {
        Some(c) => {
            if 16 % c.x == 0 && 16 % c.z == 0 && height % c.y == 0 {
                return VeinLattice { cell: c, size: Vec3i { x: 16 / c.x, y: height / c.y, z: 16 / c.z } };
            }
        },
        None => {},
    }
    VeinLattice { cell: Vec3i { x: 16, y: height, z: 16 }, size: Vec3i { x: 1, y: 1, z: 1 } }
}

/// How many rows of a cell starting at `cell_min_y` the column, topped at
/// `max_y`, covers: none where the cell starts above it, at most the cell's
/// own height.
pub fn covered_rows(max_y: i32, cell_min_y: i32, cell_y: i32) -> (rows: i32)
    requires
        i32::MIN <= max_y - cell_min_y,
        max_y - cell_min_y + 1 <= i32::MAX,
    ensures
        rows == (if max_y - cell_min_y + 1 < cell_y {
            max_y - cell_min_y + 1
        } else {
            cell_y as int
        }),
{
    let above = max_y - cell_min_y + 1;
    if above < cell_y {
        above
    } else {
        cell_y
    }
}

/// The clay band at height `y`: the band table shifted by `offset`, wrapping
/// round.
pub fn band_at(bands: &[VoxelId], y: i32, offset: i32) -> (band: VoxelId)
    requires
        0 < bands@.len() <= i32::MAX,
        i32::MIN <= y + offset <= i32::MAX,
    ensures
        band == bands@[(y + offset) % (bands@.len() as int)],
{
    let len = bands.len() as i32;
    let at = floor_mod(y + offset, len);
    proof {
        lemma_fundamental_div_mod((y + offset) as int, len as int);
        assert(floor_div_spec((y + offset) as int, len as int) == (y + offset) / (len as int));
    }
    bands[at as usize]
}

// ---------------------------------------------------------------------------
// Settling runs
// ---------------------------------------------------------------------------
/// A stretch of solid blocks of one strip, from `top` down to `bottom`; its
/// top block lies `depth` deep. Along it the depths are affine in y.
#[derive(Clone, Copy, Debug, PartialEq, Eq, Structural)]
pub struct Run {
    pub top: i32,
    pub bottom: i32,
    pub depth: i32,
    pub water_level: i32,
    pub surface_depth: i32,
    pub min_surface_level: i32,
    pub gradient_x: i32,
    pub gradient_z: i32,
}

/// The run's depths fit in 32 bits at every block of it.
pub open spec fn run_wf(run: Run) -> bool {
    &&& run.bottom <= run.top
    &&& run.depth >= 1
    &&& run.depth + run.top - run.bottom <= i32::MAX
    &&& run.top - run.bottom + 1 <= i32::MAX
}

/// The position at height `y` of the run, in biome `biome`.
pub open spec fn position_in(run: Run, y: int, biome: u32) -> Position {
    Position {
        block_y: y as i32,
        depth_above: (run.depth + run.top - y) as i32,
        depth_below: (y - run.bottom + 1) as i32,
        water_level: run.water_level,
        surface_depth: run.surface_depth,
        min_surface_level: run.min_surface_level,
        gradient_x: run.gradient_x,
        gradient_z: run.gradient_z,
        biome,
    }
}

/// How a condition answers along a run.
#[derive(Clone, Copy, Debug, PartialEq, Eq, Structural)]
pub enum Split {
    Always(bool),
    /// True at and above this y.
    At(i64),
    /// True at and below this y.
    AtOrBelow(i64),
}

pub open spec fn split_holds(split: Split, y: int) -> bool {
    match split {
        Split::Always(value) => value,
        Split::At(at) => y >= at,
        Split::AtOrBelow(at) => y <= at,
    }
}

/// How a depth, water or height condition answers along a run; the others
/// do not split.
pub open spec fn split_spec(kind: Condition, run: Run, secondary: i32) -> Option<Split> {
    match kind {
        Condition::StoneDepth { offset, add_surface_depth, ceiling, .. } => {
            let limit = stone_depth_limit(offset, add_surface_depth, secondary, run.surface_depth);
            if ceiling {
                Some(Split::AtOrBelow((run.bottom + limit - 1) as i64))
            } else {
                Some(Split::At((run.top + run.depth - limit) as i64))
            }
        },
        Condition::Water { offset, surface_depth_multiplier, add_stone_depth } => if run.water_level
            == NO_WATER {
            Some(Split::Always(true))
        } else {
            let at = run.water_level + offset + run.surface_depth * surface_depth_multiplier;
            if add_stone_depth {
                Some(Split::Always(run.top + run.depth >= at))
            } else {
                Some(Split::At(at as i64))
            }
        },
        Condition::YAbove { anchor, surface_depth_multiplier, add_stone_depth } => {
            let at = anchor + run.surface_depth * surface_depth_multiplier;
            if add_stone_depth {
                Some(Split::Always(run.top + run.depth >= at))
            } else {
                Some(Split::At(at as i64))
            }
        },
        Condition::AbovePreliminarySurface => Some(Split::At(run.min_surface_level as i64)),
        _ => None,
    }
}

/// Every split answers as the condition does at each block of the run.
pub proof fn lemma_split_sound(kind: Condition, run: Run, secondary: i32, y: int, biome: u32, sampled: bool)
    requires
        run_wf(run),
        run.bottom <= y <= run.top,
        split_spec(kind, run, secondary) is Some,
    ensures
        local_holds(kind, position_in(run, y, biome), sampled, secondary) == split_holds(
            split_spec(kind, run, secondary)->0,
            y,
        ),
{
    let pos = position_in(run, y, biome);
    assert(pos.block_y == y);
    assert(pos.depth_above == run.depth + run.top - y);
    assert(pos.depth_below == y - run.bottom + 1);
    match kind {
        Condition::Water { surface_depth_multiplier, .. } => {
            assert(-0x8000_0000 * 0x8000_0000 <= run.surface_depth * surface_depth_multiplier
                <= 0x8000_0000 * 0x8000_0000) by (nonlinear_arith)
                requires
                    -0x8000_0000 <= run.surface_depth < 0x8000_0000,
                    -0x8000_0000 <= surface_depth_multiplier < 0x8000_0000,
            ;
        },
        Condition::YAbove { surface_depth_multiplier, .. } => {
            assert(-0x8000_0000 * 0x8000_0000 <= run.surface_depth * surface_depth_multiplier
                <= 0x8000_0000 * 0x8000_0000) by (nonlinear_arith)
                requires
                    -0x8000_0000 <= run.surface_depth < 0x8000_0000,
                    -0x8000_0000 <= surface_depth_multiplier < 0x8000_0000,
            ;
        },
        _ => {},
    }
}

/// How a condition answers along a run, if the split decides it.
pub fn split(kind: Condition, run: &Run, secondary: i32) -> (res: Option<Split>)
    ensures
        res == split_spec(kind, *run, secondary),
{
    let depth = run.surface_depth as i64;
    match kind {
        Condition::StoneDepth { offset, add_surface_depth, ceiling, .. } => {
            let limit = 1 + offset as i64 + (if add_surface_depth {
                depth
            } else {
                0
            }) + secondary as i64;
            if ceiling {
                Some(Split::AtOrBelow(run.bottom as i64 + limit - 1))
            } else {
                Some(Split::At(run.top as i64 + run.depth as i64 - limit))
            }
        },
        Condition::Water { offset, surface_depth_multiplier, add_stone_depth } => {
            if run.water_level == NO_WATER {
                return Some(Split::Always(true));
            }
            assert(-0x8000_0000 * 0x8000_0000 <= depth * surface_depth_multiplier <= 0x8000_0000
                * 0x8000_0000) by (nonlinear_arith)
                requires
                    -0x8000_0000 <= depth < 0x8000_0000,
                    -0x8000_0000 <= surface_depth_multiplier < 0x8000_0000,
            ;
            let at = run.water_level as i64 + offset as i64 + depth * surface_depth_multiplier as i64;
            if add_stone_depth {
                Some(Split::Always(run.top as i64 + run.depth as i64 >= at))
            } else {
                Some(Split::At(at))
            }
        },
        Condition::YAbove { anchor, surface_depth_multiplier, add_stone_depth } => {
            assert(-0x8000_0000 * 0x8000_0000 <= depth * surface_depth_multiplier <= 0x8000_0000
                * 0x8000_0000) by (nonlinear_arith)
                requires
                    -0x8000_0000 <= depth < 0x8000_0000,
                    -0x8000_0000 <= surface_depth_multiplier < 0x8000_0000,
            ;
            let at = anchor as i64 + depth * surface_depth_multiplier as i64;
            if add_stone_depth {
                Some(Split::Always(run.top as i64 + run.depth as i64 >= at))
            } else {
                Some(Split::At(at))
            }
        },
        Condition::AbovePreliminarySurface => Some(Split::At(run.min_surface_level as i64)),
        _ => None,
    }
}

/// What a strip knows of its conditions before walking a run of it.
pub struct Column {
    /// A condition the whole column answers alike, folded in advance.
    pub folded: Vec<Option<bool>>,
    /// The column's answer to each condition of scope `Xz`.
    pub xz: Vec<bool>,
    /// Every biome the run can select, if `reachable_ok`.
    pub reachable: Vec<u32>,
    pub reachable_ok: bool,
    /// The secondary depth each stone-depth condition adds in this column.
    pub secondary: Vec<i32>,
    /// Whether each vein can be present anywhere in the piece being settled.
    pub vein_open: Vec<bool>,
}

/// How a biome set answers over the biomes a run can select.
pub open spec fn fold_spec(set: Set<u32>, biomes: Seq<u32>) -> Tri {
    if !(exists|i: int| 0 <= i < biomes.len() && set.contains(#[trigger] biomes[i])) {
        Tri::Never
    } else if forall|i: int| 0 <= i < biomes.len() ==> set.contains(#[trigger] biomes[i]) {
        Tri::Always
    } else {
        Tri::Maybe
    }
}

/// A condition's answer, if it is the same for every y in `lo..=hi` of the run.
pub open spec fn over_spec(t: ConditionTables, c: int, lo: int, hi: int, run: Run, column: Column) -> Option<
    bool,
>
    decreases c,
{
    if c < 0 || c >= t.conditions@.len() {
        None
    } else if column.folded@[c] is Some {
        column.folded@[c]
    } else {
        match t.conditions@[c].kind {
            Condition::VerticalGradient { true_at_and_below, false_at_and_above, .. } => if hi
                <= true_at_and_below {
                Some(true)
            } else if lo >= false_at_and_above {
                Some(false)
            } else {
                None
            },
            Condition::Not(inner) => if inner < c {
                match over_spec(t, inner as int, lo, hi, run, column) {
                    Some(value) => Some(!value),
                    None => None,
                }
            } else {
                None
            },
            Condition::Biome { set } => if !column.reachable_ok {
                None
            } else {
                match fold_spec(t.biome_sets@[set as int]@, column.reachable@) {
                    Tri::Never => Some(false),
                    Tri::Always => Some(true),
                    Tri::Maybe => None,
                }
            },
            kind => match split_spec(kind, run, column.secondary@[c]) {
                Some(Split::Always(value)) => Some(value),
                Some(Split::At(at)) => if lo >= at {
                    Some(true)
                } else if hi < at {
                    Some(false)
                } else {
                    None
                },
                Some(Split::AtOrBelow(at)) => if hi <= at {
                    Some(true)
                } else if lo > at {
                    Some(false)
                } else {
                    None
                },
                None => if t.conditions@[c].scope == Scope::Xz {
                    Some(column.xz@[c])
                } else {
                    None
                },
            },
        }
    }
}

/// What the column tells of a condition holds at height `y`: a folded
/// answer, a column-wide answer, the biome being reachable.
pub open spec fn column_fits(
    t: ConditionTables,
    column: Column,
    run: Run,
    y: int,
    biome: u32,
    sampled: Seq<bool>,
) -> bool {
    &&& t.conditions@.len() <= column.folded@.len()
    &&& t.conditions@.len() <= column.xz@.len()
    &&& t.conditions@.len() <= column.secondary@.len()
    &&& forall|c: int|
        0 <= c < t.conditions@.len() && column.folded@[c] is Some ==> position_answer(
            t,
            c,
            position_in(run, y, biome),
            sampled,
            column.secondary@,
        ) == column.folded@[c]->0
    &&& forall|c: int|
        0 <= c < t.conditions@.len() && t.conditions@[c].scope == Scope::Xz ==> position_answer(
            t,
            c,
            position_in(run, y, biome),
            sampled,
            column.secondary@,
        ) == column.xz@[c]
    &&& column.reachable_ok ==> column.reachable@.contains(biome)
}

/// Every vertical gradient turns from true to false going up. An inverted
/// one is answered true up to its first bound by a position, but settled as
/// false over a piece starting above its second.
pub open spec fn gradients_ordered(t: ConditionTables) -> bool {
    forall|c: int|
        0 <= c < t.conditions@.len() ==> match #[trigger] t.conditions@[c].kind {
            Condition::VerticalGradient { true_at_and_below, false_at_and_above, .. } =>
                true_at_and_below < false_at_and_above,
            _ => true,
        }
}

/// A condition that answers alike over `lo..=hi` answers so at every y there.
pub proof fn lemma_over_sound(
    t: ConditionTables,
    c: int,
    lo: int,
    hi: int,
    run: Run,
    column: Column,
    y: int,
    biome: u32,
    sampled: Seq<bool>,
)
    requires
        tables_wf(t),
        gradients_ordered(t),
        run_wf(run),
        run.bottom <= lo <= y <= hi <= run.top,
        column_fits(t, column, run, y, biome, sampled),
        over_spec(t, c, lo, hi, run, column) is Some,
    ensures
        position_answer(t, c, position_in(run, y, biome), sampled, column.secondary@) == over_spec(
            t,
            c,
            lo,
            hi,
            run,
            column,
        )->0,
    decreases c,
{
    let pos = position_in(run, y, biome);
    let answer = over_spec(t, c, lo, hi, run, column)->0;
    assert(pos.block_y == y);
    if column.folded@[c] is None {
        match t.conditions@[c].kind {
            Condition::Not(inner) => {
                lemma_over_sound(t, inner as int, lo, hi, run, column, y, biome, sampled);
                assert(position_answer(t, c, pos, sampled, column.secondary@) == answer);
            },
            Condition::Biome { set } => {
                let members = t.biome_sets@[set as int]@;
                assert(column.reachable@.contains(biome));
                let k = choose|k: int|
                    0 <= k < column.reachable@.len() && column.reachable@[k] == biome;
                assert(members.contains(column.reachable@[k]) == members.contains(biome));
                assert(position_answer(t, c, pos, sampled, column.secondary@) == members.contains(
                    biome,
                ));
                assert(position_answer(t, c, pos, sampled, column.secondary@) == answer);
            },
            Condition::VerticalGradient { .. } => {
                assert(position_answer(t, c, pos, sampled, column.secondary@) == answer);
            },
            kind => {
                if split_spec(kind, run, column.secondary@[c]) is Some {
                    lemma_split_sound(kind, run, column.secondary@[c], y, biome, sampled[c]);
                }
                assert(position_answer(t, c, pos, sampled, column.secondary@) == answer);
            },
        }
    }
}

/// Where a condition's answer may change along a run: on both sides of a
/// vertical gradient's band and of a split's threshold. A condition that
/// does not split, or answers alike all along, breaks nowhere.
pub open spec fn breaks_of(t: ConditionTables, c: int, run: Run, column: Column) -> Seq<i64> {
    match t.conditions@[c].kind {
        Condition::VerticalGradient { true_at_and_below, false_at_and_above, .. } => seq![
            (true_at_and_below + 1) as i64,
            false_at_and_above as i64,
        ],
        kind => match split_spec(kind, run, column.secondary@[c]) {
            Some(Split::At(at)) => seq![at, (at + 1) as i64],
            Some(Split::AtOrBelow(at)) => seq![at, (at + 1) as i64],
            _ => Seq::empty(),
        },
    }
}

/// The breaks of the first `n` conditions, in condition order.
pub open spec fn breaks_spec(t: ConditionTables, n: int, run: Run, column: Column) -> Seq<i64>
    decreases n,
{
    if n <= 0 {
        Seq::empty()
    } else {
        breaks_spec(t, n - 1, run, column) + breaks_of(t, n - 1, run, column)
    }
}

/// A threshold a split finds lies well inside 64 bits.
proof fn lemma_split_bounded(kind: Condition, run: Run, secondary: i32)
    ensures
        match split_spec(kind, run, secondary) {
            Some(Split::At(at)) => at < 0x4000_0004_0000_0000,
            Some(Split::AtOrBelow(at)) => at < 0x4000_0004_0000_0000,
            _ => true,
        },
{
    match kind {
        Condition::Water { offset, surface_depth_multiplier, .. } => {
            assert(-0x8000_0000 * 0x8000_0000 <= run.surface_depth * surface_depth_multiplier
                <= 0x8000_0000 * 0x8000_0000) by (nonlinear_arith)
                requires
                    -0x8000_0000 <= run.surface_depth < 0x8000_0000,
                    -0x8000_0000 <= surface_depth_multiplier < 0x8000_0000,
            ;
            let at = run.water_level + offset + run.surface_depth * surface_depth_multiplier;
            assert(i64::MIN <= at <= i64::MAX);
            assert(at as i64 == at);
        },
        Condition::YAbove { anchor, surface_depth_multiplier, .. } => {
            assert(-0x8000_0000 * 0x8000_0000 <= run.surface_depth * surface_depth_multiplier
                <= 0x8000_0000 * 0x8000_0000) by (nonlinear_arith)
                requires
                    -0x8000_0000 <= run.surface_depth < 0x8000_0000,
                    -0x8000_0000 <= surface_depth_multiplier < 0x8000_0000,
            ;
            let at = anchor + run.surface_depth * surface_depth_multiplier;
            assert(at as i64 == at);
        },
        _ => {},
    }
}

/// Every y at which some condition may change its answer along the run.
pub fn condition_breaks(program: &MaterialProgram, run: &Run, column: &Column) -> (breaks: Vec<i64>)
    requires
        program.tables_view().conditions@.len() <= column.secondary@.len(),
    ensures
        breaks@ == breaks_spec(
            program.tables_view(),
            program.tables_view().conditions@.len() as int,
            *run,
            *column,
        ),
{
    let conditions = program.conditions();
    let ghost t = program.tables_view();
    let mut breaks: Vec<i64> = Vec::new();
    let mut c: usize = 0;
    while c < conditions.len()
        invariant
            t == program.tables_view(),
            conditions@ == t.conditions@,
            t.conditions@.len() <= column.secondary@.len(),
            c <= conditions@.len(),
            breaks@ == breaks_spec(t, c as int, *run, *column),
        decreases conditions@.len() - c,
    {
        let ghost before = breaks@;
        match conditions[c].kind {
            Condition::VerticalGradient { true_at_and_below, false_at_and_above, .. } => {
                breaks.push(true_at_and_below as i64 + 1);
                breaks.push(false_at_and_above as i64);
            },
            kind => {
                let found = split(kind, run, column.secondary[c]);
                proof {
                    lemma_split_bounded(kind, *run, column.secondary@[c as int]);
                }
                match found {
                    Some(Split::At(at)) => {
                        breaks.push(at);
                        breaks.push(at + 1);
                    },
                    Some(Split::AtOrBelow(at)) => {
                        breaks.push(at);
                        breaks.push(at + 1);
                    },
                    _ => {},
                }
            },
        }
        assert(breaks@ =~= before + breaks_of(t, c as int, *run, *column));
        c += 1;
    }
    breaks
}

/// How condition `c` folds over the biomes a column can select: a biome set
/// by where those biomes fall, a negation as its operand does; no other
/// condition folds.
pub open spec fn folded_spec(t: ConditionTables, c: int, biomes: Seq<u32>) -> Option<bool>
    decreases c,
{
    if c < 0 || c >= t.conditions@.len() {
        None
    } else {
        match t.conditions@[c].kind {
            Condition::Biome { set } => match fold_spec(t.biome_sets@[set as int]@, biomes) {
                Tri::Never => Some(false),
                Tri::Always => Some(true),
                Tri::Maybe => None,
            },
            Condition::Not(inner) => if inner < c {
                match folded_spec(t, inner as int, biomes) {
                    Some(value) => Some(!value),
                    None => None,
                }
            } else {
                None
            },
            _ => None,
        }
    }
}

/// The fold of every condition over the biomes a column can select.
pub fn fold_conditions(program: &MaterialProgram, biomes: &[u32]) -> (folded: Vec<Option<bool>>)
    ensures
        folded@.len() == program.tables_view().conditions@.len(),
        forall|c: int|
            0 <= c < folded@.len() ==> #[trigger] folded@[c] == folded_spec(
                program.tables_view(),
                c,
                biomes@,
            ),
{
    let conditions = program.conditions();
    let sets = program.biome_sets();
    let ghost t = program.tables_view();
    let mut folded: Vec<Option<bool>> = Vec::new();
    let mut c: usize = 0;
    while c < conditions.len()
        invariant
            t == program.tables_view(),
            conditions@ == t.conditions@,
            sets@ == t.biome_sets@,
            tables_wf(t),
            c <= conditions@.len(),
            folded@.len() == c,
            forall|k: int| 0 <= k < c ==> #[trigger] folded@[k] == folded_spec(t, k, biomes@),
        decreases conditions@.len() - c,
    {
        assert(tables_wf(t));
        let ghost cc = t.conditions@[c as int];
        let value = match conditions[c].kind {
            Condition::Biome { set } => match sets[set as usize].fold(biomes) {
                Tri::Never => Some(false),
                Tri::Always => Some(true),
                Tri::Maybe => None,
            },
            Condition::Not(inner) => match folded[inner as usize] {
                Some(value) => Some(!value),
                None => None,
            },
            _ => None,
        };
        assert(value == folded_spec(t, c as int, biomes@));
        folded.push(value);
        c += 1;
    }
    folded
}

/// A folded answer is the answer at every position whose biome the column
/// can select.
pub proof fn lemma_folded_sound(
    t: ConditionTables,
    c: int,
    biomes: Seq<u32>,
    pos: Position,
    sampled: Seq<bool>,
    secondary: Seq<i32>,
)
    requires
        tables_wf(t),
        biomes.contains(pos.biome),
        folded_spec(t, c, biomes) is Some,
    ensures
        position_answer(t, c, pos, sampled, secondary) == folded_spec(t, c, biomes)->0,
    decreases c,
{
    assert(tables_wf(t));
    let k = choose|k: int| 0 <= k < biomes.len() && biomes[k] == pos.biome;
    match t.conditions@[c].kind {
        Condition::Not(inner) => {
            lemma_folded_sound(t, inner as int, biomes, pos, sampled, secondary);
        },
        Condition::Biome { set } => {
            let members = t.biome_sets@[set as int]@;
            if members.contains(pos.biome) {
                assert(members.contains(biomes[k]));
            } else {
                assert(!members.contains(biomes[k]));
            }
        },
        _ => {},
    }
}

/// Where settling a piece of a run stopped: on an answer, on a guard that
/// could still go either way, or on a rule no piece can settle.
#[derive(Clone, Copy, Debug, PartialEq, Eq, Structural)]
pub enum Settled {
    Answer(Option<VoxelId>),
    Open { condition: u32, on_true: usize, on_false: usize },
    Blocked,
}

/// What the tape from `pc` gives for every y in `lo..=hi`, if it is the same.
pub open spec fn settle_spec(
    tape: Seq<Op>,
    t: ConditionTables,
    pc: int,
    lo: int,
    hi: int,
    run: Run,
    column: Column,
) -> Settled
    decreases tape.len() - pc,
{
    if pc < 0 || pc >= tape.len() {
        Settled::Answer(None)
    } else {
        match tape[pc] {
            Op::Guard { condition, skip_to } => match over_spec(
                t,
                condition as int,
                lo,
                hi,
                run,
                column,
            ) {
                Some(true) => settle_spec(tape, t, pc + 1, lo, hi, run, column),
                Some(false) => if pc < skip_to && skip_to <= tape.len() {
                    settle_spec(tape, t, skip_to as int, lo, hi, run, column)
                } else {
                    Settled::Blocked
                },
                None => Settled::Open {
                    condition,
                    on_true: #[verifier::truncate] ((pc + 1) as usize),
                    on_false: skip_to as usize,
                },
            },
            Op::Block { state } => Settled::Answer(Some(state)),
            Op::Bandlands => Settled::Blocked,
            Op::OreVein { vein } => if column.vein_open@[vein as int] {
                Settled::Blocked
            } else {
                settle_spec(tape, t, pc + 1, lo, hi, run, column)
            },
        }
    }
}

/// A settled piece gives every y in it what the tape gives there.
pub proof fn lemma_settle_sound(
    tape: Seq<Op>,
    t: ConditionTables,
    pc: int,
    lo: int,
    hi: int,
    run: Run,
    column: Column,
    y: int,
    biome: u32,
    sampled: Seq<bool>,
    answers: Seq<bool>,
    band: VoxelId,
    veins: Seq<Option<VoxelId>>,
)
    requires
        tables_wf(t),
        gradients_ordered(t),
        run_wf(run),
        run.bottom <= lo <= y <= hi <= run.top,
        jumps_within(tape, 0, tape.len() as int),
        tape_refs(tape, t.conditions@.len(), column.vein_open@.len()),
        column_fits(t, column, run, y, biome, sampled),
        t.conditions@.len() <= answers.len(),
        forall|c: int|
            0 <= c < t.conditions@.len() ==> #[trigger] answers[c] == position_answer(
                t,
                c,
                position_in(run, y, biome),
                sampled,
                column.secondary@,
            ),
        column.vein_open@.len() <= veins.len(),
        forall|v: int| 0 <= v < column.vein_open@.len() && !column.vein_open@[v] ==> (#[trigger] veins[v]) is None,
        settle_spec(tape, t, pc, lo, hi, run, column) is Answer,
    ensures
        run_within(tape, pc, tape.len() as int, answers, band, veins) == settle_spec(
            tape,
            t,
            pc,
            lo,
            hi,
            run,
            column,
        )->Answer_0,
    decreases tape.len() - pc,
{
    if 0 <= pc < tape.len() {
        assert(tape_refs(tape, t.conditions@.len(), column.vein_open@.len()));
        match tape[pc] {
            Op::Guard { condition, skip_to } => {
                lemma_over_sound(t, condition as int, lo, hi, run, column, y, biome, sampled);
                if answers[condition as int] {
                    lemma_settle_sound(
                        tape,
                        t,
                        pc + 1,
                        lo,
                        hi,
                        run,
                        column,
                        y,
                        biome,
                        sampled,
                        answers,
                        band,
                        veins,
                    );
                } else {
                    lemma_settle_sound(
                        tape,
                        t,
                        skip_to as int,
                        lo,
                        hi,
                        run,
                        column,
                        y,
                        biome,
                        sampled,
                        answers,
                        band,
                        veins,
                    );
                }
            },
            Op::OreVein { vein } => {
                lemma_settle_sound(
                    tape,
                    t,
                    pc + 1,
                    lo,
                    hi,
                    run,
                    column,
                    y,
                    biome,
                    sampled,
                    answers,
                    band,
                    veins,
                );
            },
            _ => {},
        }
    }
}

/// A condition's answer, if it is the same for every y in `lo..=hi` of the run.
pub fn over(program: &MaterialProgram, c: u32, lo: i32, hi: i32, run: &Run, column: &Column) -> (res:
    Option<bool>)
    requires
        c < program.tables_view().conditions@.len(),
        program.tables_view().conditions@.len() <= column.folded@.len(),
        program.tables_view().conditions@.len() <= column.xz@.len(),
        program.tables_view().conditions@.len() <= column.secondary@.len(),
    ensures
        res == over_spec(program.tables_view(), c as int, lo as int, hi as int, *run, *column),
    decreases c,
{
    let conditions = program.conditions();
    if let Some(value) = column.folded[c as usize] {
        return Some(value);
    }
    let compiled = conditions[c as usize];
    assert(compiled == program.tables_view().conditions@[c as int]);
    match compiled.kind {
        Condition::VerticalGradient { true_at_and_below, false_at_and_above, .. } => {
            if hi <= true_at_and_below {
                Some(true)
            } else if lo >= false_at_and_above {
                Some(false)
            } else {
                None
            }
        },
        Condition::Not(inner) => match over(program, inner, lo, hi, run, column) {
            Some(value) => Some(!value),
            None => None,
        },
        Condition::Biome { set } => {
            if !column.reachable_ok {
                return None;
            }
            let sets = program.biome_sets();
            match sets[set as usize].fold(column.reachable.as_slice()) {
                Tri::Never => Some(false),
                Tri::Always => Some(true),
                Tri::Maybe => None,
            }
        },
        kind => match split(kind, run, column.secondary[c as usize]) {
            Some(Split::Always(value)) => Some(value),
            Some(Split::At(at)) => {
                if lo as i64 >= at {
                    Some(true)
                } else if (hi as i64) < at {
                    Some(false)
                } else {
                    None
                }
            },
            Some(Split::AtOrBelow(at)) => {
                if hi as i64 <= at {
                    Some(true)
                } else if lo as i64 > at {
                    Some(false)
                } else {
                    None
                }
            },
            None => {
                if compiled.scope == Scope::Xz {
                    Some(column.xz[c as usize])
                } else {
                    None
                }
            },
        },
    }
}

/// What the tape from `pc` gives for every y in `lo..=hi` of the run, if it
/// is the same block, or the same nothing, throughout.
pub fn settle(program: &MaterialProgram, from: usize, lo: i32, hi: i32, run: &Run, column: &Column) -> (res:
    Settled)
    requires
        program.tables_view().conditions@.len() <= column.folded@.len(),
        program.tables_view().conditions@.len() <= column.xz@.len(),
        program.tables_view().conditions@.len() <= column.secondary@.len(),
        program.veins_view().len() <= column.vein_open@.len(),
    ensures
        res == settle_spec(
            program.tape_view(),
            program.tables_view(),
            from as int,
            lo as int,
            hi as int,
            *run,
            *column,
        ),
{
    let tape = program.tape();
    let ghost t = program.tables_view();
    let mut pc = from;
    let ghost start = from;
    while pc < tape.len()
        invariant
            start == from,
            tape@ == program.tape_view(),
            tape_refs(tape@, t.conditions@.len(), program.veins_view().len()),
            jumps_within(tape@, 0, tape@.len() as int),
            t == program.tables_view(),
            t.conditions@.len() <= column.folded@.len(),
            t.conditions@.len() <= column.xz@.len(),
            t.conditions@.len() <= column.secondary@.len(),
            program.veins_view().len() <= column.vein_open@.len(),
            settle_spec(tape@, t, start as int, lo as int, hi as int, *run, *column) == settle_spec(
                tape@,
                t,
                pc as int,
                lo as int,
                hi as int,
                *run,
                *column,
            ),
        decreases tape@.len() - pc,
    {
        match tape[pc] {
            Op::Guard { condition, skip_to } => {
                match over(program, condition, lo, hi, run, column) {
                    Some(true) => {
                        pc += 1;
                    },
                    Some(false) => {
                        pc = skip_to as usize;
                    },
                    None => {
                        return Settled::Open {
                            condition,
                            on_true: pc + 1,
                            on_false: skip_to as usize,
                        };
                    },
                }
            },
            Op::Block { state } => {
                return Settled::Answer(Some(state));
            },
            Op::Bandlands => {
                return Settled::Blocked;
            },
            Op::OreVein { vein } => {
                if column.vein_open[vein as usize] {
                    return Settled::Blocked;
                }
                pc += 1;
            },
        }
    }
    Settled::Answer(None)
}

/// The block the rules give a position: the tape walked with every guard
/// answered at the position.
pub fn apply(
    program: &MaterialProgram,
    pos: &Position,
    sampled: &[bool],
    secondary: &[i32],
    band: VoxelId,
    veins: &[Option<VoxelId>],
) -> (res: Option<VoxelId>)
    requires
        program.tables_view().conditions@.len() <= sampled@.len(),
        program.tables_view().conditions@.len() <= secondary@.len(),
        program.veins_view().len() <= veins@.len(),
    ensures
        res == run_within(
            program.tape_view(),
            0,
            program.tape_view().len() as int,
            Seq::new(
                program.tables_view().conditions@.len(),
                |c: int| position_answer(program.tables_view(), c, *pos, sampled@, secondary@),
            ),
            band,
            veins@,
        ),
{
    let answers = answers_at(program, pos, sampled, secondary);
    proof {
        assert(answers@ =~= Seq::new(
            program.tables_view().conditions@.len(),
            |c: int| position_answer(program.tables_view(), c, *pos, sampled@, secondary@),
        ));
    }
    program.run(answers.as_slice(), band, veins)
}

// ---------------------------------------------------------------------------
// Cutting a run into pieces
// ---------------------------------------------------------------------------
/// `items` descend strictly.
pub open spec fn descending(items: Seq<i64>) -> bool {
    forall|i: int, j: int| 0 <= i < j < items.len() ==> items[i] > items[j]
}

/// Inserts `value` into a strictly descending list, unless it is there.
#[verifier::spinoff_prover]
fn insert_descending(items: &mut Vec<i64>, value: i64)
    requires
        descending(old(items)@),
    ensures
        descending(final(items)@),
        forall|v: i64| final(items)@.contains(v) <==> (old(items)@.contains(v) || v == value),
{
    let mut i: usize = 0;
    while i < items.len() && items[i] > value
        invariant
            i <= items@.len(),
            items@ == old(items)@,
            forall|k: int| 0 <= k < i ==> items@[k] > value,
        decreases items@.len() - i,
    {
        i += 1;
    }
    if i < items.len() && items[i] == value {
        assert(items@[i as int] == value);
        return;
    }
    let ghost before = items@;
    items.insert(i, value);
    proof {
        assert forall|a: int, b: int| 0 <= a < b < items@.len() implies items@[a] > items@[b] by {
            if b < i {
                assert(items@[a] == before[a] && items@[b] == before[b]);
            } else if b == i {
                assert(items@[a] == before[a]);
            } else if a < i {
                assert(items@[a] == before[a] && items@[b] == before[b - 1]);
                assert(before[a] > value);
                assert(before[i as int] <= value);
                if b - 1 > i {
                    assert(before[i as int] > before[b - 1]);
                }
            } else if a == i {
                assert(items@[b] == before[b - 1]);
                assert(before[i as int] < value);
                if b - 1 > i {
                    assert(before[i as int] > before[b - 1]);
                }
            } else {
                assert(items@[a] == before[a - 1] && items@[b] == before[b - 1]);
            }
        }
        lemma_insert_contains(before, i as int, value);
    }
}

/// Inserting `value` adds it and keeps every other element.
proof fn lemma_insert_contains(before: Seq<i64>, i: int, value: i64)
    requires
        0 <= i <= before.len(),
    ensures
        forall|v: i64| #[trigger] before.insert(i, value).contains(v) <==> (before.contains(v) || v == value),
{
    let items = before.insert(i, value);
    assert forall|v: i64| #[trigger] items.contains(v) <==> (before.contains(v) || v == value) by {
        if items.contains(v) {
            let k = choose|k: int| 0 <= k < items.len() && items[k] == v;
            if k < i {
                assert(before[k] == v);
            } else if k > i {
                assert(before[k - 1] == v);
            }
        }
        if before.contains(v) {
            let k = choose|k: int| 0 <= k < before.len() && before[k] == v;
            if k < i {
                assert(items[k] == v);
            } else {
                assert(items[k + 1] == v);
            }
        }
        if v == value {
            assert(items[i] == v);
        }
    }
}

/// A piece of a run, `lo..=hi`.
#[derive(Clone, Copy, Debug, PartialEq, Eq, Structural)]
pub struct Piece {
    pub lo: i32,
    pub hi: i32,
}

/// `pieces` cut `bottom..=top` top first, each piece just below the one
/// before, and every piece but the last starts at a break.
#[verifier::opaque]
pub open spec fn cuts(pieces: Seq<Piece>, bottom: int, top: int, breaks: Set<int>) -> bool {
    &&& pieces.len() > 0
    &&& pieces[0].hi == top
    &&& pieces.last().lo == bottom
    &&& forall|i: int| 0 <= i < pieces.len() ==> (#[trigger] pieces[i]).lo <= pieces[i].hi
    &&& forall|i: int| 0 < i < pieces.len() ==> (#[trigger] pieces[i]).hi == pieces[i - 1].lo - 1
    &&& forall|y: int|
        bottom < y <= top ==> (breaks.contains(y) <==> exists|i: int|
            0 <= i < pieces.len() && (#[trigger] pieces[i]).lo == y)
}

/// The pieces of a cut lie ever lower: each starts above where any later
/// one ends.
proof fn lemma_cuts_descend(pieces: Seq<Piece>, bottom: int, top: int, breaks: Set<int>, i: int, j: int)
    requires
        cuts(pieces, bottom, top, breaks),
        0 <= i < j < pieces.len(),
    ensures
        pieces[j].hi < pieces[i].lo,
    decreases j - i,
{
    reveal(cuts);
    if j > i + 1 {
        lemma_cuts_descend(pieces, bottom, top, breaks, i, j - 1);
    }
    assert(pieces[j].hi == pieces[j - 1].lo - 1);
    assert(pieces[j - 1].lo <= pieces[j - 1].hi);
}

/// Every piece of a cut lies inside the run.
proof fn lemma_cuts_inside(pieces: Seq<Piece>, bottom: int, top: int, breaks: Set<int>, i: int)
    requires
        cuts(pieces, bottom, top, breaks),
        0 <= i < pieces.len(),
    ensures
        bottom <= pieces[i].lo <= pieces[i].hi <= top,
{
    reveal(cuts);
    let last = pieces.len() - 1;
    if i < last {
        lemma_cuts_descend(pieces, bottom, top, breaks, i, last);
        assert(pieces[last].lo <= pieces[last].hi);
    }
    if i > 0 {
        lemma_cuts_descend(pieces, bottom, top, breaks, 0, i);
        assert(pieces[0].lo <= pieces[0].hi);
    }
    assert(pieces[i].lo <= pieces[i].hi);
}

/// Where two cuts agree on where a piece ends, they agree on where it
/// starts.
proof fn lemma_cuts_same_lo(
    p: Seq<Piece>,
    q: Seq<Piece>,
    bottom: int,
    top: int,
    breaks: Set<int>,
    i: int,
)
    requires
        cuts(p, bottom, top, breaks),
        cuts(q, bottom, top, breaks),
        0 <= i < p.len(),
        i < q.len(),
        p[i].hi == q[i].hi,
    ensures
        p[i].lo >= q[i].lo,
{
    reveal(cuts);
    if p[i].lo < q[i].lo {
        let l = q[i].lo as int;
        lemma_cuts_inside(p, bottom, top, breaks, i);
        lemma_cuts_inside(q, bottom, top, breaks, i);
        assert(bottom < l <= top);
        assert(exists|k: int| 0 <= k < q.len() && (#[trigger] q[k]).lo == l);
        assert(breaks.contains(l));
        let j = choose|j: int| 0 <= j < p.len() && (#[trigger] p[j]).lo == l;
        if j < i {
            lemma_cuts_descend(p, bottom, top, breaks, j, i);
        } else if j > i {
            lemma_cuts_descend(p, bottom, top, breaks, i, j);
            assert(p[j].lo <= p[j].hi);
        }
    }
}

/// Where a piece of a cut ends: at the top of the run, or just below the
/// piece before.
proof fn lemma_cuts_hi(pieces: Seq<Piece>, bottom: int, top: int, breaks: Set<int>, i: int)
    requires
        cuts(pieces, bottom, top, breaks),
        0 <= i < pieces.len(),
    ensures
        pieces[i].hi == if i == 0 {
            top
        } else {
            pieces[i - 1].lo - 1
        },
{
    reveal(cuts);
}

/// Two cuts at the same breaks agree on their first `n` pieces.
#[verifier::spinoff_prover]
proof fn lemma_cuts_prefix(p: Seq<Piece>, q: Seq<Piece>, bottom: int, top: int, breaks: Set<int>, n: int)
    requires
        cuts(p, bottom, top, breaks),
        cuts(q, bottom, top, breaks),
        0 <= n <= p.len(),
        n <= q.len(),
    ensures
        forall|k: int| 0 <= k < n ==> p[k] == q[k],
    decreases n,
{
    if n > 0 {
        let i = n - 1;
        lemma_cuts_prefix(p, q, bottom, top, breaks, i);
        lemma_cuts_hi(p, bottom, top, breaks, i);
        lemma_cuts_hi(q, bottom, top, breaks, i);
        if i > 0 {
            assert(p[i - 1] == q[i - 1]);
        }
        lemma_cuts_same_lo(p, q, bottom, top, breaks, i);
        lemma_cuts_same_lo(q, p, bottom, top, breaks, i);
    }
}

/// A run has one cut at a given set of breaks.
pub proof fn lemma_cuts_unique(p: Seq<Piece>, q: Seq<Piece>, bottom: int, top: int, breaks: Set<int>)
    requires
        cuts(p, bottom, top, breaks),
        cuts(q, bottom, top, breaks),
    ensures
        p == q,
{
    reveal(cuts);
    let n = if p.len() < q.len() {
        p.len() as int
    } else {
        q.len() as int
    };
    lemma_cuts_prefix(p, q, bottom, top, breaks, n);
    if p.len() > q.len() {
        let m = q.len() - 1;
        assert(p[m] == q[m]);
        assert(p[m + 1].hi == p[m].lo - 1);
        lemma_cuts_inside(p, bottom, top, breaks, m + 1);
    }
    if q.len() > p.len() {
        let m = p.len() - 1;
        assert(p[m] == q[m]);
        assert(q[m + 1].hi == q[m].lo - 1);
        lemma_cuts_inside(q, bottom, top, breaks, m + 1);
    }
    assert(p =~= q);
}

/// The heights a list of breaks names.
pub open spec fn break_set(breaks: Seq<i64>) -> Set<int> {
    Set::new(|y: int| exists|k: int| 0 <= k < breaks.len() && breaks[k] == y)
}

/// Cuts `bottom..=top` at every break that lies above `bottom` and not above
/// `top`: each such break starts a piece reaching up to the next.
pub fn cut_run(bottom: i32, top: i32, breaks: &[i64]) -> (pieces: Vec<Piece>)
    requires
        bottom <= top,
    ensures
        cuts(
            pieces@,
            bottom as int,
            top as int,
            break_set(breaks@),
        ),
{
    proof {
        reveal(cuts);
    }
    let mut kept: Vec<i64> = Vec::new();
    let mut k: usize = 0;
    while k < breaks.len()
        invariant
            k <= breaks@.len(),
            descending(kept@),
            forall|v: i64|
                kept@.contains(v) <==> (bottom < v <= top && exists|j: int|
                    0 <= j < k && breaks@[j] == v),
        decreases breaks@.len() - k,
    {
        let b = breaks[k];
        if (bottom as i64) < b && b <= (top as i64) {
            insert_descending(&mut kept, b);
        }
        proof {
            assert forall|v: i64| kept@.contains(v) <==> (bottom < v <= top && exists|j: int|
                0 <= j < k + 1 && breaks@[j] == v) by {
                if bottom < v <= top && exists|j: int| 0 <= j < k + 1 && breaks@[j] == v {
                    let j = choose|j: int| 0 <= j < k + 1 && breaks@[j] == v;
                    if j < k {
                        assert(exists|j2: int| 0 <= j2 < k && breaks@[j2] == v);
                    }
                }
            }
        }
        k += 1;
    }
    let mut pieces: Vec<Piece> = Vec::new();
    let mut hi: i32 = top;
    let mut i: usize = 0;
    while i < kept.len()
        invariant
            i <= kept@.len(),
            descending(kept@),
            forall|v: i64| kept@.contains(v) ==> bottom < v <= top,
            pieces@.len() == i,
            i == 0 ==> hi == top,
            i > 0 ==> hi == kept@[i - 1] - 1,
            forall|p: int| 0 <= p < i ==> (#[trigger] pieces@[p]).lo == kept@[p],
            forall|p: int| 0 <= p < i ==> (#[trigger] pieces@[p]).lo <= pieces@[p].hi,
            i > 0 ==> pieces@[0].hi == top,
            forall|p: int| 0 < p < i ==> (#[trigger] pieces@[p]).hi == pieces@[p - 1].lo - 1,
        decreases kept@.len() - i,
    {
        let lo = kept[i];
        assert(kept@.contains(lo));
        if i > 0 {
            assert(kept@[i - 1] > kept@[i as int]);
        }
        pieces.push(Piece { lo: lo as i32, hi });
        hi = (lo - 1) as i32;
        i += 1;
    }
    proof {
        if kept@.len() > 0 {
            assert(kept@.contains(kept@.last()));
        }
    }
    pieces.push(Piece { lo: bottom, hi });
    proof {
        let n = kept@.len() as int;
        let breaks_set = break_set(breaks@);
        assert forall|y: int| bottom < y <= top implies (breaks_set.contains(y) <==> exists|p: int|
            0 <= p < pieces@.len() && (#[trigger] pieces@[p]).lo == y) by {
            if breaks_set.contains(y) {
                let j = choose|j: int| 0 <= j < breaks@.len() && breaks@[j] == y;
                let v = breaks@[j];
                assert(kept@.contains(v));
                let p = choose|p: int| 0 <= p < kept@.len() && kept@[p] == v;
                assert(pieces@[p].lo == y);
            }
            if exists|p: int| 0 <= p < pieces@.len() && (#[trigger] pieces@[p]).lo == y {
                let p = choose|p: int| 0 <= p < pieces@.len() && (#[trigger] pieces@[p]).lo == y;
                if p < n {
                    assert(kept@.contains(kept@[p]));
                    let v = kept@[p];
                    assert(exists|j: int| 0 <= j < breaks@.len() && breaks@[j] == v);
                } else {
                    assert(pieces@[p].lo == bottom);
                }
            }
        }
    }
    pieces
}

// ---------------------------------------------------------------------------
// Settled runs
// ---------------------------------------------------------------------------
/// A piece the tape stopped on an open guard over: past the guards it
/// decided, it walks on from `on_true` where the guard holds and from
/// `on_false` where it does not.
pub proof fn lemma_open_sound(
    tape: Seq<Op>,
    t: ConditionTables,
    pc: int,
    lo: int,
    hi: int,
    run: Run,
    column: Column,
    y: int,
    biome: u32,
    sampled: Seq<bool>,
    answers: Seq<bool>,
    band: VoxelId,
    veins: Seq<Option<VoxelId>>,
)
    requires
        tables_wf(t),
        gradients_ordered(t),
        run_wf(run),
        run.bottom <= lo <= y <= hi <= run.top,
        jumps_within(tape, 0, tape.len() as int),
        tape_refs(tape, t.conditions@.len(), column.vein_open@.len()),
        column_fits(t, column, run, y, biome, sampled),
        t.conditions@.len() <= answers.len(),
        forall|c: int|
            0 <= c < t.conditions@.len() ==> #[trigger] answers[c] == position_answer(
                t,
                c,
                position_in(run, y, biome),
                sampled,
                column.secondary@,
            ),
        column.vein_open@.len() <= veins.len(),
        forall|v: int| 0 <= v < column.vein_open@.len() && !column.vein_open@[v] ==> (#[trigger] veins[v]) is None,
        settle_spec(tape, t, pc, lo, hi, run, column) is Open,
    ensures
        ({
            let open = settle_spec(tape, t, pc, lo, hi, run, column);
            run_within(tape, pc, tape.len() as int, answers, band, veins) == if answers[open->condition as int] {
                run_within(tape, open->on_true as int, tape.len() as int, answers, band, veins)
            } else {
                run_within(tape, open->on_false as int, tape.len() as int, answers, band, veins)
            }
        }),
    decreases tape.len() - pc,
{
    if 0 <= pc < tape.len() {
        assert(tape_refs(tape, t.conditions@.len(), column.vein_open@.len()));
        match tape[pc] {
            Op::Guard { condition, skip_to } => {
                if over_spec(t, condition as int, lo, hi, run, column) is Some {
                    lemma_over_sound(t, condition as int, lo, hi, run, column, y, biome, sampled);
                    if answers[condition as int] {
                        lemma_open_sound(
                            tape,
                            t,
                            pc + 1,
                            lo,
                            hi,
                            run,
                            column,
                            y,
                            biome,
                            sampled,
                            answers,
                            band,
                            veins,
                        );
                    } else {
                        lemma_open_sound(
                            tape,
                            t,
                            skip_to as int,
                            lo,
                            hi,
                            run,
                            column,
                            y,
                            biome,
                            sampled,
                            answers,
                            band,
                            veins,
                        );
                    }
                }
            },
            Op::OreVein { vein } => {
                lemma_open_sound(
                    tape,
                    t,
                    pc + 1,
                    lo,
                    hi,
                    run,
                    column,
                    y,
                    biome,
                    sampled,
                    answers,
                    band,
                    veins,
                );
            },
            _ => {},
        }
    }
}

/// Runs shorter than this are walked block by block rather than settled.
pub const SHORT_RUN: i32 = 8;

/// What the tape answers over one piece of a run.
#[derive(Clone, Copy, Debug, PartialEq, Eq, Structural)]
pub enum RunPiece {
    /// The same block, or the same nothing, at every y of the piece.
    Settled { lo: i32, hi: i32, state: Option<VoxelId> },
    /// At every y of the piece a vertical gradient's draw decides between
    /// two answers: `whenever` where it holds, `otherwise` where not.
    Drawn {
        lo: i32,
        hi: i32,
        condition: u32,
        whenever: Option<VoxelId>,
        otherwise: Option<VoxelId>,
    },
}

/// What settling the piece `lo..=hi` gives, if it settles: the answer, or,
/// where the tape stops on a vertical gradient whose band holds the piece
/// and both of whose sides settle, the two answers the draw decides between.
pub open spec fn piece_spec(
    tape: Seq<Op>,
    t: ConditionTables,
    lo: int,
    hi: int,
    run: Run,
    column: Column,
) -> Option<RunPiece> {
    match settle_spec(tape, t, 0, lo, hi, run, column) {
        Settled::Answer(state) => Some(RunPiece::Settled { lo: lo as i32, hi: hi as i32, state }),
        Settled::Blocked => None,
        Settled::Open { condition, on_true, on_false } => match t.conditions@[condition as int].kind {
            Condition::VerticalGradient { true_at_and_below, false_at_and_above, .. } => if lo
                <= true_at_and_below || hi >= false_at_and_above {
                None
            } else {
                match (
                    settle_spec(tape, t, on_true as int, lo, hi, run, column),
                    settle_spec(tape, t, on_false as int, lo, hi, run, column),
                ) {
                    (Settled::Answer(whenever), Settled::Answer(otherwise)) => if whenever
                        == otherwise {
                        Some(RunPiece::Settled { lo: lo as i32, hi: hi as i32, state: whenever })
                    } else {
                        Some(
                            RunPiece::Drawn {
                                lo: lo as i32,
                                hi: hi as i32,
                                condition,
                                whenever,
                                otherwise,
                            },
                        )
                    },
                    _ => None,
                }
            },
            _ => None,
        },
    }
}

fn settle_piece(program: &MaterialProgram, piece: Piece, run: &Run, column: &Column) -> (res: Option<
    RunPiece,
>)
    requires
        program.tables_view().conditions@.len() <= column.folded@.len(),
        program.tables_view().conditions@.len() <= column.xz@.len(),
        program.tables_view().conditions@.len() <= column.secondary@.len(),
        program.veins_view().len() <= column.vein_open@.len(),
    ensures
        res == piece_spec(
            program.tape_view(),
            program.tables_view(),
            piece.lo as int,
            piece.hi as int,
            *run,
            *column,
        ),
{
    let (lo, hi) = (piece.lo, piece.hi);
    match settle(program, 0, lo, hi, run, column) {
        Settled::Answer(state) => Some(RunPiece::Settled { lo, hi, state }),
        Settled::Blocked => None,
        Settled::Open { condition, on_true, on_false } => {
            let conditions = program.conditions();
            let tape = program.tape();
            proof {
                lemma_open_condition(
                    tape@,
                    program.tables_view(),
                    0,
                    lo as int,
                    hi as int,
                    *run,
                    *column,
                    program.veins_view().len(),
                );
            }
            match conditions[condition as usize].kind {
                Condition::VerticalGradient { true_at_and_below, false_at_and_above, .. } => {
                    if lo <= true_at_and_below || hi >= false_at_and_above {
                        return None;
                    }
                    match (
                        settle(program, on_true, lo, hi, run, column),
                        settle(program, on_false, lo, hi, run, column),
                    ) {
                        (Settled::Answer(whenever), Settled::Answer(otherwise)) => {
                            if whenever == otherwise {
                                Some(RunPiece::Settled { lo, hi, state: whenever })
                            } else {
                                Some(RunPiece::Drawn { lo, hi, condition, whenever, otherwise })
                            }
                        },
                        _ => None,
                    }
                },
                _ => None,
            }
        },
    }
}

/// An open guard is a guard of the tape: its condition is one of the tables.
proof fn lemma_open_condition(
    tape: Seq<Op>,
    t: ConditionTables,
    pc: int,
    lo: int,
    hi: int,
    run: Run,
    column: Column,
    veins: nat,
)
    requires
        tape_refs(tape, t.conditions@.len(), veins),
    ensures
        settle_spec(tape, t, pc, lo, hi, run, column) matches Settled::Open { condition, .. }
            ==> condition < t.conditions@.len(),
    decreases tape.len() - pc,
{
    if 0 <= pc < tape.len() {
        assert(tape_refs(tape, t.conditions@.len(), veins));
        match tape[pc] {
            Op::Guard { skip_to, .. } => {
                lemma_open_condition(tape, t, pc + 1, lo, hi, run, column, veins);
                if pc < skip_to && skip_to <= tape.len() {
                    lemma_open_condition(tape, t, skip_to as int, lo, hi, run, column, veins);
                }
            },
            Op::OreVein { .. } => {
                lemma_open_condition(tape, t, pc + 1, lo, hi, run, column, veins);
            },
            _ => {},
        }
    }
}

/// A piece that settles gives, at every y of it, what walking the tape gives
/// there; a drawn piece gives what its gradient's answer at y picks.
pub proof fn lemma_piece_sound(
    tape: Seq<Op>,
    t: ConditionTables,
    lo: int,
    hi: int,
    run: Run,
    column: Column,
    y: int,
    biome: u32,
    sampled: Seq<bool>,
    answers: Seq<bool>,
    band: VoxelId,
    veins: Seq<Option<VoxelId>>,
)
    requires
        tables_wf(t),
        gradients_ordered(t),
        run_wf(run),
        run.bottom <= lo <= y <= hi <= run.top,
        jumps_within(tape, 0, tape.len() as int),
        tape_refs(tape, t.conditions@.len(), column.vein_open@.len()),
        column_fits(t, column, run, y, biome, sampled),
        t.conditions@.len() <= answers.len(),
        forall|c: int|
            0 <= c < t.conditions@.len() ==> #[trigger] answers[c] == position_answer(
                t,
                c,
                position_in(run, y, biome),
                sampled,
                column.secondary@,
            ),
        column.vein_open@.len() <= veins.len(),
        forall|v: int| 0 <= v < column.vein_open@.len() && !column.vein_open@[v] ==> (#[trigger] veins[v]) is None,
        piece_spec(tape, t, lo, hi, run, column) is Some,
    ensures
        run_within(tape, 0, tape.len() as int, answers, band, veins) == match piece_spec(
            tape,
            t,
            lo,
            hi,
            run,
            column,
        )->0 {
            RunPiece::Settled { state, .. } => state,
            RunPiece::Drawn { condition, whenever, otherwise, .. } => if answers[condition as int] {
                whenever
            } else {
                otherwise
            },
        },
{
    match settle_spec(tape, t, 0, lo, hi, run, column) {
        Settled::Answer(_) => {
            lemma_settle_sound(tape, t, 0, lo, hi, run, column, y, biome, sampled, answers, band, veins);
        },
        Settled::Blocked => {},
        Settled::Open { condition, on_true, on_false } => {
            lemma_open_sound(tape, t, 0, lo, hi, run, column, y, biome, sampled, answers, band, veins);
            lemma_settle_sound(
                tape,
                t,
                on_true as int,
                lo,
                hi,
                run,
                column,
                y,
                biome,
                sampled,
                answers,
                band,
                veins,
            );
            lemma_settle_sound(
                tape,
                t,
                on_false as int,
                lo,
                hi,
                run,
                column,
                y,
                biome,
                sampled,
                answers,
                band,
                veins,
            );
        },
    }
}

/// What the pieces settle to, top first; a piece that does not settle is
/// left out.
pub open spec fn settled_spec(
    tape: Seq<Op>,
    t: ConditionTables,
    pieces: Seq<Piece>,
    run: Run,
    column: Column,
) -> Seq<RunPiece>
    decreases pieces.len(),
{
    if pieces.len() == 0 {
        Seq::empty()
    } else {
        let rest = settled_spec(tape, t, pieces.drop_last(), run, column);
        match piece_spec(tape, t, pieces.last().lo as int, pieces.last().hi as int, run, column) {
            Some(piece) => rest.push(piece),
            None => rest,
        }
    }
}

/// The pieces of a run that settle, top first, each with what the tape gives
/// over it. The run is cut at every break inside it; a run spanning fewer
/// than `SHORT_RUN` steps is cheaper to walk and gives no piece.
pub fn settled_runs(program: &MaterialProgram, run: &Run, column: &Column, breaks: &[i64]) -> (out: Vec<
    RunPiece,
>)
    requires
        program.tables_view().conditions@.len() <= column.folded@.len(),
        program.tables_view().conditions@.len() <= column.xz@.len(),
        program.tables_view().conditions@.len() <= column.secondary@.len(),
        program.veins_view().len() <= column.vein_open@.len(),
    ensures
        run.top - run.bottom < SHORT_RUN ==> out@.len() == 0,
        run.top - run.bottom >= SHORT_RUN ==> exists|pieces: Seq<Piece>|
            #[trigger] cuts(
                pieces,
                run.bottom as int,
                run.top as int,
                break_set(breaks@),
            ),
        run.top - run.bottom >= SHORT_RUN ==> forall|pieces: Seq<Piece>|
            #[trigger] cuts(
                pieces,
                run.bottom as int,
                run.top as int,
                break_set(breaks@),
            ) ==> out@ == settled_spec(
                program.tape_view(),
                program.tables_view(),
                pieces,
                *run,
                *column,
            ),
{
    if (run.top as i64) - (run.bottom as i64) < SHORT_RUN as i64 {
        return Vec::new();
    }
    let pieces = cut_run(run.bottom, run.top, breaks);
    let ghost tape = program.tape_view();
    let ghost t = program.tables_view();
    let mut out: Vec<RunPiece> = Vec::new();
    let mut i: usize = 0;
    while i < pieces.len()
        invariant
            tape == program.tape_view(),
            t == program.tables_view(),
            t.conditions@.len() <= column.folded@.len(),
            t.conditions@.len() <= column.xz@.len(),
            t.conditions@.len() <= column.secondary@.len(),
            program.veins_view().len() <= column.vein_open@.len(),
            i <= pieces@.len(),
            out@ == settled_spec(tape, t, pieces@.subrange(0, i as int), *run, *column),
        decreases pieces@.len() - i,
    {
        let settled = settle_piece(program, pieces[i], run, column);
        match settled {
            Some(piece) => out.push(piece),
            None => {},
        }
        proof {
            let next = pieces@.subrange(0, i + 1);
            assert(next.drop_last() =~= pieces@.subrange(0, i as int));
            assert(next.last() == pieces@[i as int]);
        }
        i += 1;
    }
    assert(pieces@.subrange(0, pieces@.len() as int) =~= pieces@);
    proof {
        let marks = break_set(breaks@);
        assert forall|other: Seq<Piece>|
            cuts(other, run.bottom as int, run.top as int, marks) implies out@ == settled_spec(
                tape,
                t,
                other,
                *run,
                *column,
            ) by {
            lemma_cuts_unique(other, pieces@, run.bottom as int, run.top as int, marks);
        }
    }
    out
}

} // verus!
