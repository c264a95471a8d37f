use crate::jmath::{floor_div, floor_div_spec, floor_mod, floor_mod_spec};
use vstd::prelude::*;

verus! {

/// A one-operand density operation. Its arithmetic runs on floats and is done
/// by the evaluator.
#[derive(Clone, Copy, Debug, PartialEq, Eq, Structural)]
pub enum UnaryOp {
    Abs,
    Square,
    Cube,
    Sqrt,
    Reciprocal,
    Negate,
    Squeeze,
    Log,
    Sign,
}

/// A two-operand density operation.
#[derive(Clone, Copy, Debug, PartialEq, Eq, Structural)]
pub enum BinaryOp {
    Add,
    Sub,
    Mul,
    Div,
    Min,
    Max,
}

/// How a density value is rounded to a whole number.
#[derive(Clone, Copy, Debug, PartialEq, Eq, Structural)]
pub enum RoundKind {
    Floor,
    Round,
    Ceil,
    Truncate,
}

/// Node evaluations, summed over every fill and every nested fill.
#[derive(Clone, Copy, Debug, PartialEq, Eq, Structural)]
pub struct EvalCount {
    pub evaluated: u64,
    pub skipped: u64,
}

impl EvalCount {
    pub fn new() -> (count: EvalCount)
        ensures
            count.evaluated == 0,
            count.skipped == 0,
    {
        EvalCount { evaluated: 0, skipped: 0 }
    }

    /// Adds the counts of a nested fill.
    pub fn absorb(&mut self, inner: EvalCount)
        requires
            old(self).evaluated + inner.evaluated <= u64::MAX,
            old(self).skipped + inner.skipped <= u64::MAX,
        ensures
            final(self).evaluated == old(self).evaluated + inner.evaluated,
            final(self).skipped == old(self).skipped + inner.skipped,
    {
        self.evaluated = self.evaluated + inner.evaluated;
        self.skipped = self.skipped + inner.skipped;
    }
}

/// Three integer coordinates.
#[derive(Clone, Copy, Debug, PartialEq, Eq, Structural)]
pub struct Vec3i {
    pub x: i32,
    pub y: i32,
    pub z: i32,
}

/// A box of sample positions: `size` samples per axis, the first at `min`,
/// each `step` blocks after the one before.
#[derive(Clone, Copy, Debug, PartialEq, Eq, Structural)]
pub struct Volume {
    pub size: Vec3i,
    pub min: Vec3i,
    pub step: Vec3i,
}

/// Whether the volume samples exactly the corners of the cell lattice.
pub open spec fn lattice_aligned(volume: Volume, cell_xz: int, cell_y: int) -> bool {
    &&& (volume.step.x == cell_xz || volume.size.x == 1)
    &&& (volume.step.y == cell_y || volume.size.y == 1)
    &&& (volume.step.z == cell_xz || volume.size.z == 1)
    &&& floor_mod_spec(volume.min.x as int, cell_xz) == 0
    &&& floor_mod_spec(volume.min.y as int, cell_y) == 0
    &&& floor_mod_spec(volume.min.z as int, cell_xz) == 0
}

/// Whether `volume` already samples the cell lattice, in which case the
/// input is handed straight through rather than interpolated back onto the
/// corners it came from.
pub fn is_lattice_volume(volume: &Volume, cell_xz: i32, cell_y: i32) -> (res: bool)
    requires
        cell_xz != 0,
        cell_y != 0,
    ensures
        res == lattice_aligned(*volume, cell_xz as int, cell_y as int),
{
    (volume.step.x == cell_xz || volume.size.x == 1) && (volume.step.y == cell_y || volume.size.y
        == 1) && (volume.step.z == cell_xz || volume.size.z == 1) && floor_mod(volume.min.x, cell_xz)
        == 0 && floor_mod(volume.min.y, cell_y) == 0 && floor_mod(volume.min.z, cell_xz) == 0
}

/// The last block a volume's axis reaches.
pub open spec fn last_block(min: int, size: int, step: int) -> int {
    min + (size - 1) * step
}

/// The last block the y axis of a fill reaches: a node that does not vary
/// along y is only ever asked for its first row.
pub open spec fn last_row(volume: Volume, varies_in_y: bool) -> int {
    if varies_in_y {
        last_block(volume.min.y as int, volume.size.y as int, volume.step.y as int)
    } else {
        volume.min.y as int
    }
}

/// Every 32-bit quantity the lattice of one axis is built from fits: the
/// reach of the axis, its last block, the first corner and the corner count.
pub open spec fn axis_fits(min: int, size: int, step: int, last: int, cell: int) -> bool {
    &&& i32::MIN <= (size - 1) * step <= i32::MAX
    &&& i32::MIN <= last_block(min, size, step) <= i32::MAX
    &&& i32::MIN <= floor_div_spec(min, cell) * cell
    &&& i32::MIN <= floor_div_spec(last, cell) - floor_div_spec(min, cell) <= i32::MAX - 2
}

/// The cell corners enclosing every position `volume` asks for, with one
/// extra sample per axis so the far corner of the last cell exists. A node
/// that does not vary along y is only ever asked for its first row.
pub fn lattice_volume(volume: &Volume, varies_in_y: bool, cell_xz: i32, cell_y: i32) -> (lattice:
    Volume)
    requires
        cell_xz > 0,
        cell_y > 0,
        volume.size.x >= 1,
        volume.size.y >= 1,
        volume.size.z >= 1,
        axis_fits(
            volume.min.x as int,
            volume.size.x as int,
            volume.step.x as int,
            last_block(volume.min.x as int, volume.size.x as int, volume.step.x as int),
            cell_xz as int,
        ),
        axis_fits(
            volume.min.z as int,
            volume.size.z as int,
            volume.step.z as int,
            last_block(volume.min.z as int, volume.size.z as int, volume.step.z as int),
            cell_xz as int,
        ),
        axis_fits(
            volume.min.y as int,
            if varies_in_y {
                volume.size.y as int
            } else {
                1
            },
            volume.step.y as int,
            last_row(*volume, varies_in_y),
            cell_y as int,
        ),
    ensures
        ({
            let first_x = floor_div_spec(volume.min.x as int, cell_xz as int);
            let first_y = floor_div_spec(volume.min.y as int, cell_y as int);
            let first_z = floor_div_spec(volume.min.z as int, cell_xz as int);
            let last_y = last_row(*volume, varies_in_y);
            &&& lattice.size.x == floor_div_spec(
                last_block(volume.min.x as int, volume.size.x as int, volume.step.x as int),
                cell_xz as int,
            ) - first_x + 2
            &&& lattice.size.y == floor_div_spec(last_y, cell_y as int) - first_y + 2
            &&& lattice.size.z == floor_div_spec(
                last_block(volume.min.z as int, volume.size.z as int, volume.step.z as int),
                cell_xz as int,
            ) - first_z + 2
            &&& lattice.min.x == first_x * cell_xz
            &&& lattice.min.y == first_y * cell_y
            &&& lattice.min.z == first_z * cell_xz
            &&& lattice.step == (Vec3i { x: cell_xz, y: cell_y, z: cell_xz })
        }),
{
    let last_x = volume.min.x as i64 + (volume.size.x as i64 - 1) * volume.step.x as i64;
    let last_z = volume.min.z as i64 + (volume.size.z as i64 - 1) * volume.step.z as i64;
    let last_y = if varies_in_y {
        volume.min.y as i64 + (volume.size.y as i64 - 1) * volume.step.y as i64
    } else {
        volume.min.y as i64
    };
    let first_x = floor_div(volume.min.x, cell_xz);
    let first_y = floor_div(volume.min.y, cell_y);
    let first_z = floor_div(volume.min.z, cell_xz);
    let end_x = floor_div(last_x as i32, cell_xz);
    let end_y = floor_div(last_y as i32, cell_y);
    let end_z = floor_div(last_z as i32, cell_xz);
    proof {
        lemma_floor_mul_below(volume.min.x as int, cell_xz as int);
        lemma_floor_mul_below(volume.min.y as int, cell_y as int);
        lemma_floor_mul_below(volume.min.z as int, cell_xz as int);
    }
    Volume {
        size: Vec3i {
            x: end_x - first_x + 2,
            y: end_y - first_y + 2,
            z: end_z - first_z + 2,
        },
        min: Vec3i { x: first_x * cell_xz, y: first_y * cell_y, z: first_z * cell_xz },
        step: Vec3i { x: cell_xz, y: cell_y, z: cell_xz },
    }
}

/// For a positive divisor, the floored quotient's multiple is at most the
/// dividend.
proof fn lemma_floor_mul_below(a: int, b: int)
    requires
        0 < b,
    ensures
        floor_div_spec(a, b) * b <= a,
{
    vstd::arithmetic::div_mod::lemma_fundamental_div_mod(a, b);
    vstd::arithmetic::div_mod::lemma_mod_bound(a, b);
    let q = floor_div_spec(a, b);
    let r = a % b;
    assert(q * b <= a) by (nonlinear_arith)
        requires
            a == b * q + r,
            0 <= r,
    ;
}

// ---------------------------------------------------------------------------
// The density graph's nodes and their edges
// ---------------------------------------------------------------------------
/// A node of the density graph, by its position in the graph.
pub type NodeId = u32;

/// One operation of the density graph. Inputs are positions of other nodes;
/// every `f32` constant is held as its bits, and a leaf's parameters by their
/// position in the program's parameter table.
pub enum Node {
    Constant(u32),
    Gradient { params: u32 },
    Noise { params: u32 },
    ShiftB { params: u32 },
    DistanceToPoint { params: u32 },
    EndOuterIslands { params: u32 },
    OldBlendedNoise { params: u32 },
    Affine { input: NodeId, scale: u32, offset: u32 },
    PiecewiseAffine { input: NodeId, neg_scale: u32, pos_scale: u32, offset: u32 },
    Unary { op: UnaryOp, input: NodeId },
    LeakyRelu { input: NodeId, negative_scale: u32 },
    Clamp { input: NodeId, min: u32, max: u32 },
    ConstMin { input: NodeId, value: u32 },
    ConstMax { input: NodeId, value: u32 },
    /// `constant - input`.
    ConstSub { input: NodeId, value: u32 },
    /// `constant / input`.
    ConstDiv { input: NodeId, value: u32 },
    ConstBasePow { base: u32, exponent: NodeId },
    ConstExponentPow { input: NodeId, exponent: u32 },
    IntegerMultipleRound { input: NodeId, multiple: u32, kind: RoundKind },
    Binary { op: BinaryOp, a: NodeId, b: NodeId },
    Pow { base: NodeId, exponent: NodeId },
    Round { value: NodeId, multiple: NodeId, kind: RoundKind },
    Lerp { alpha: NodeId, first: NodeId, second: NodeId },
    ConstFirstLerp { alpha: NodeId, first: u32, second: NodeId },
    ConstSecondLerp { alpha: NodeId, first: NodeId, second: u32 },
    ShiftedNoise { params: u32, x: NodeId, y: NodeId, z: NodeId },
    RangeChoice {
        input: NodeId,
        min_inclusive: u32,
        max_exclusive: u32,
        when_in: NodeId,
        when_out: NodeId,
    },
    ConstRangeChoice {
        input: NodeId,
        min_inclusive: u32,
        max_exclusive: u32,
        when_in: u32,
        when_out: u32,
    },
    SingleThreshold { input: NodeId, threshold: u32, below: NodeId, above: NodeId },
    IntervalSelect { input: NodeId, thresholds: Vec<u32>, arms: Vec<NodeId> },
    Spline { spline: u32, coords: Vec<NodeId> },
    /// Trilinear interpolation of `input` over a cell lattice.
    Interpolated { input: NodeId, cell_xz: i32, cell_y: i32, cell: usize },
    /// The highest cell boundary at or below `upper_bound` where `density` is
    /// positive; `upper_bound` is read at y = 0.
    FindTopSurface { density: NodeId, upper_bound: NodeId, lower_bound: i32, cell_height: i32 },
}

/// Every node this one reads, in evaluation order.
pub open spec fn node_inputs(node: Node) -> Seq<NodeId> {
    match node {
        Node::Constant(_) => seq![],
        Node::Gradient { .. } => seq![],
        Node::Noise { .. } => seq![],
        Node::ShiftB { .. } => seq![],
        Node::DistanceToPoint { .. } => seq![],
        Node::EndOuterIslands { .. } => seq![],
        Node::OldBlendedNoise { .. } => seq![],
        Node::Affine { input, .. } => seq![input],
        Node::PiecewiseAffine { input, .. } => seq![input],
        Node::Unary { input, .. } => seq![input],
        Node::LeakyRelu { input, .. } => seq![input],
        Node::Clamp { input, .. } => seq![input],
        Node::ConstMin { input, .. } => seq![input],
        Node::ConstMax { input, .. } => seq![input],
        Node::ConstSub { input, .. } => seq![input],
        Node::ConstDiv { input, .. } => seq![input],
        Node::ConstBasePow { exponent, .. } => seq![exponent],
        Node::ConstExponentPow { input, .. } => seq![input],
        Node::IntegerMultipleRound { input, .. } => seq![input],
        Node::Binary { a, b, .. } => seq![a, b],
        Node::Pow { base, exponent } => seq![base, exponent],
        Node::Round { value, multiple, .. } => seq![value, multiple],
        Node::Lerp { alpha, first, second } => seq![alpha, first, second],
        Node::ConstFirstLerp { alpha, second, .. } => seq![alpha, second],
        Node::ConstSecondLerp { alpha, first, .. } => seq![alpha, first],
        Node::ShiftedNoise { x, y, z, .. } => seq![x, y, z],
        Node::RangeChoice { input, when_in, when_out, .. } => seq![input, when_in, when_out],
        Node::ConstRangeChoice { input, .. } => seq![input],
        Node::SingleThreshold { input, below, above, .. } => seq![input, below, above],
        Node::IntervalSelect { input, arms, .. } => seq![input] + arms@,
        Node::Spline { coords, .. } => coords@,
        Node::Interpolated { input, .. } => seq![input],
        Node::FindTopSurface { density, upper_bound, .. } => seq![density, upper_bound],
    }
}

/// The inputs a node reads at the position being filled: the two kinds that
/// sample elsewhere hide those inputs, so a plan never evaluates a subtree at
/// the wrong position.
pub open spec fn node_local_inputs(node: Node) -> Seq<NodeId> {
    match node {
        Node::Interpolated { .. } => seq![],
        Node::FindTopSurface { upper_bound, .. } => seq![upper_bound],
        _ => node_inputs(node),
    }
}

/// Whether `id` is one of the nodes `node` names as an operand, and how many
/// operands it names: none for a leaf, its one input, both sides of a binary
/// node, every node a lerp, shifted noise, range choice or threshold chooses
/// between, a select's input and every arm, a spline's every coordinate.
pub open spec fn names_operand(node: Node, id: NodeId) -> bool {
    match node {
        Node::Affine { input, .. } => id == input,
        Node::PiecewiseAffine { input, .. } => id == input,
        Node::Unary { input, .. } => id == input,
        Node::LeakyRelu { input, .. } => id == input,
        Node::Clamp { input, .. } => id == input,
        Node::ConstMin { input, .. } => id == input,
        Node::ConstMax { input, .. } => id == input,
        Node::ConstSub { input, .. } => id == input,
        Node::ConstDiv { input, .. } => id == input,
        Node::ConstBasePow { exponent, .. } => id == exponent,
        Node::ConstExponentPow { input, .. } => id == input,
        Node::IntegerMultipleRound { input, .. } => id == input,
        Node::Binary { a, b, .. } => id == a || id == b,
        Node::Pow { base, exponent } => id == base || id == exponent,
        Node::Round { value, multiple, .. } => id == value || id == multiple,
        Node::Lerp { alpha, first, second } => id == alpha || id == first || id == second,
        Node::ConstFirstLerp { alpha, second, .. } => id == alpha || id == second,
        Node::ConstSecondLerp { alpha, first, .. } => id == alpha || id == first,
        Node::ShiftedNoise { x, y, z, .. } => id == x || id == y || id == z,
        Node::RangeChoice { input, when_in, when_out, .. } => id == input || id == when_in || id
            == when_out,
        Node::ConstRangeChoice { input, .. } => id == input,
        Node::SingleThreshold { input, below, above, .. } => id == input || id == below || id == above,
        Node::IntervalSelect { input, arms, .. } => id == input || arms@.contains(id),
        Node::Spline { coords, .. } => coords@.contains(id),
        Node::Interpolated { input, .. } => id == input,
        Node::FindTopSurface { density, upper_bound, .. } => id == density || id == upper_bound,
        _ => false,
    }
}

/// How many operands a node names.
pub open spec fn operand_count(node: Node) -> int {
    match node {
        Node::Binary { .. } => 2,
        Node::Pow { .. } => 2,
        Node::Round { .. } => 2,
        Node::ConstFirstLerp { .. } => 2,
        Node::ConstSecondLerp { .. } => 2,
        Node::FindTopSurface { .. } => 2,
        Node::Lerp { .. } => 3,
        Node::ShiftedNoise { .. } => 3,
        Node::RangeChoice { .. } => 3,
        Node::SingleThreshold { .. } => 3,
        Node::IntervalSelect { arms, .. } => 1 + arms@.len() as int,
        Node::Spline { coords, .. } => coords@.len() as int,
        Node::Constant(_) => 0,
        Node::Gradient { .. } => 0,
        Node::Noise { .. } => 0,
        Node::ShiftB { .. } => 0,
        Node::DistanceToPoint { .. } => 0,
        Node::EndOuterIslands { .. } => 0,
        Node::OldBlendedNoise { .. } => 0,
        _ => 1,
    }
}

/// A node's inputs are exactly the operands it names, each once per time it
/// names it; at the position being filled it reads them all, but for an
/// interpolated node, which reads its input on its lattice, and a top-surface
/// search, which reads only its upper bound there.
pub proof fn lemma_inputs_are_operands(node: Node, id: NodeId)
    ensures
        node_inputs(node).contains(id) <==> names_operand(node, id),
        node_inputs(node).len() == operand_count(node),
        node_local_inputs(node).contains(id) <==> (match node {
            Node::Interpolated { .. } => false,
            Node::FindTopSurface { upper_bound, .. } => id == upper_bound,
            _ => names_operand(node, id),
        }),
{
    let ins = node_inputs(node);
    if names_operand(node, id) {
        match node {
            Node::IntervalSelect { input, arms, .. } => {
                if id != input {
                    let k = choose|k: int| 0 <= k < arms@.len() && arms@[k] == id;
                    assert(ins[k + 1] == id);
                } else {
                    assert(ins[0] == id);
                }
            },
            Node::Spline { coords, .. } => {},
            _ => {
                assert(ins.len() >= 1);
                if ins[0] == id {
                } else if ins.len() >= 2 && ins[1] == id {
                } else {
                    assert(ins[2] == id);
                }
            },
        }
        assert(ins.contains(id) || ins.len() == 0);
    }
    if ins.contains(id) {
        let k = choose|k: int| 0 <= k < ins.len() && ins[k] == id;
        match node {
            Node::IntervalSelect { input, arms, .. } => {
                if k > 0 {
                    assert(arms@[k - 1] == id);
                }
            },
            _ => {},
        }
    }
    match node {
        Node::FindTopSurface { upper_bound, .. } => {
            if id == upper_bound {
                assert(node_local_inputs(node)[0] == id);
            }
        },
        _ => {},
    }
}

fn copy_ids(ids: &Vec<NodeId>, out: &mut Vec<NodeId>)
    ensures
        final(out)@ == old(out)@ + ids@,
{
    let mut i: usize = 0;
    while i < ids.len()
        invariant
            i <= ids@.len(),
            out@ == old(out)@ + ids@.take(i as int),
        decreases ids@.len() - i,
    {
        out.push(ids[i]);
        proof {
            assert(ids@.take(i + 1) =~= ids@.take(i as int).push(ids@[i as int]));
        }
        i += 1;
    }
    assert(ids@.take(ids@.len() as int) =~= ids@);
}

impl Node {
    /// Every node this one reads, in evaluation order.
    pub fn inputs(&self) -> (ids: Vec<NodeId>)
        ensures
            ids@ == node_inputs(*self),
    {
        let mut ids: Vec<NodeId> = Vec::new();
        match self {
            Node::Constant(_)
            | Node::Gradient { .. }
            | Node::Noise { .. }
            | Node::ShiftB { .. }
            | Node::DistanceToPoint { .. }
            | Node::EndOuterIslands { .. }
            | Node::OldBlendedNoise { .. } => {},
            Node::Affine { input, .. }
            | Node::PiecewiseAffine { input, .. }
            | Node::Unary { input, .. }
            | Node::LeakyRelu { input, .. }
            | Node::Clamp { input, .. }
            | Node::ConstMin { input, .. }
            | Node::ConstMax { input, .. }
            | Node::ConstSub { input, .. }
            | Node::ConstDiv { input, .. }
            | Node::ConstExponentPow { input, .. }
            | Node::IntegerMultipleRound { input, .. }
            | Node::ConstRangeChoice { input, .. }
            | Node::Interpolated { input, .. } => ids.push(*input),
            Node::ConstBasePow { exponent, .. } => ids.push(*exponent),
            Node::Binary { a, b, .. } => {
                ids.push(*a);
                ids.push(*b);
            },
            Node::Pow { base, exponent } => {
                ids.push(*base);
                ids.push(*exponent);
            },
            Node::Round { value, multiple, .. } => {
                ids.push(*value);
                ids.push(*multiple);
            },
            Node::Lerp { alpha, first, second } => {
                ids.push(*alpha);
                ids.push(*first);
                ids.push(*second);
            },
            Node::ConstFirstLerp { alpha, second, .. } => {
                ids.push(*alpha);
                ids.push(*second);
            },
            Node::ConstSecondLerp { alpha, first, .. } => {
                ids.push(*alpha);
                ids.push(*first);
            },
            Node::ShiftedNoise { x, y, z, .. } => {
                ids.push(*x);
                ids.push(*y);
                ids.push(*z);
            },
            Node::RangeChoice { input, when_in, when_out, .. } => {
                ids.push(*input);
                ids.push(*when_in);
                ids.push(*when_out);
            },
            Node::SingleThreshold { input, below, above, .. } => {
                ids.push(*input);
                ids.push(*below);
                ids.push(*above);
            },
            Node::IntervalSelect { input, arms, .. } => {
                ids.push(*input);
                copy_ids(arms, &mut ids);
            },
            Node::Spline { coords, .. } => copy_ids(coords, &mut ids),
            Node::FindTopSurface { density, upper_bound, .. } => {
                ids.push(*density);
                ids.push(*upper_bound);
            },
        }
        proof {
            assert(ids@ =~= node_inputs(*self));
        }
        ids
    }

    /// The inputs this node reads at the position being filled.
    pub fn local_inputs(&self) -> (ids: Vec<NodeId>)
        ensures
            ids@ == node_local_inputs(*self),
    {
        match self {
            Node::Interpolated { .. } => Vec::new(),
            Node::FindTopSurface { upper_bound, .. } => {
                let mut ids: Vec<NodeId> = Vec::new();
                ids.push(*upper_bound);
                proof {
                    assert(ids@ =~= seq![*upper_bound]);
                }
                ids
            },
            _ => self.inputs(),
        }
    }
}

} // verus!
