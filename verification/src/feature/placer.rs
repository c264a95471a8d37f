use crate::material::proto::{anchor_y, HeightContext, VerticalAnchor, VoxelId};
use crate::feature::placement::VerticalDirection;
use crate::program::Vec3i;
use fixedbitset::FixedBitSet;
use std::sync::Arc;
use vstd::arithmetic::div_mod::{
    lemma_div_denominator, lemma_fundamental_div_mod, lemma_fundamental_div_mod_converse_div,
    lemma_fundamental_div_mod_converse_mod,
};
use vstd::prelude::*;
use vstd::wrapping::i32_specs;

verus! {

#[verifier::external_type_specification]
#[verifier::external_body]
pub struct ExFixedBitSet(FixedBitSet);

/// The bits a [`FixedBitSet`] has enabled.
pub uninterp spec fn bitset_bits(set: FixedBitSet) -> Set<usize>;

/// `FixedBitSet::contains`: whether the bit is enabled. The source answers
/// `false` for a bit at or past the set's length, which no enabled bit is.
#[verifier::external_body]
fn bitset_contains(set: &FixedBitSet, bit: usize) -> (res: bool)
    ensures
        res == bitset_bits(*set).contains(bit),
{
    set.contains(bit)
}

/// The bits `FixedBitSet::ones` walks: every bit set in the set's storage
/// blocks. A set made from whole blocks may hold bits at or past its length,
/// which `contains` does not answer for; `ones` yields those too.
pub uninterp spec fn bitset_ones(set: FixedBitSet) -> Set<usize>;

/// `FixedBitSet::ones`, collected: the bits set in the storage blocks, which
/// its iterator walks from the lowest block up and within a block from the
/// lowest bit. Every bit `contains` answers for is among them.
#[verifier::external_body]
fn enabled_bits(set: &FixedBitSet) -> (bits: Vec<usize>)
    ensures
        forall|i: int, j: int| 0 <= i < j < bits@.len() ==> bits@[i] < bits@[j],
        forall|bit: usize| bits@.contains(bit) <==> bitset_ones(*set).contains(bit),
        forall|bit: usize| bitset_bits(*set).contains(bit) ==> bits@.contains(bit),
{
    set.ones().collect()
}

/// The state sets every generator asks about and no feature configures.
pub struct WorldStates {
    pub air: VoxelId,
    pub cave_air: VoxelId,
    pub water: VoxelId,
    pub lava: VoxelId,
    /// Air, cave air and void air.
    pub air_states: FixedBitSet,
    /// Every state of the water block, source and flowing.
    pub water_states: FixedBitSet,
    pub lava_states: FixedBitSet,
    pub bedrock: FixedBitSet,
    /// The block each state id belongs to; a state past the table is its own
    /// block.
    pub block_of_state: Vec<u32>,
    /// Per block, its properties as the digits of its state ids.
    pub layouts: Vec<BlockLayout>,
}

/// Air, or the water block itself.
pub open spec fn empty_or_water(world: WorldStates, state: VoxelId) -> bool {
    bitset_bits(world.air_states).contains(state as usize) || bitset_bits(
        world.water_states,
    ).contains(state as usize)
}

pub open spec fn empty_or_fluid(world: WorldStates, state: VoxelId) -> bool {
    empty_or_water(world, state) || bitset_bits(world.lava_states).contains(state as usize)
}

/// Whether `y` of a column is a top face to place on: something other than
/// bedrock below, nothing solid at `y`.
pub open spec fn is_ground(world: WorldStates, column: Seq<VoxelId>, min_y: int, y: int) -> bool {
    let below = column[y - 1 - min_y];
    &&& !empty_or_fluid(world, below)
    &&& empty_or_fluid(world, column[y - min_y])
    &&& !bitset_bits(world.bedrock).contains(below as usize)
}

/// The top face `layer` faces down from `y`, the highest first.
pub open spec fn ground_below(
    world: WorldStates,
    column: Seq<VoxelId>,
    min_y: int,
    y: int,
    layer: int,
) -> Option<int>
    decreases y - min_y,
{
    if y < min_y + 1 {
        None
    } else if is_ground(world, column, min_y, y) {
        if layer == 0 {
            Some(y)
        } else {
            ground_below(world, column, min_y, y - 1, layer - 1)
        }
    } else {
        ground_below(world, column, min_y, y - 1, layer)
    }
}

/// Whether `y` of a column (its state at height `h` being
/// `column[h - min_y]`) is a top face: the state below it is none of air,
/// water, lava or bedrock, and the state at `y` is air, water or lava.
pub open spec fn top_face(world: WorldStates, column: Seq<VoxelId>, min_y: int, y: int) -> bool {
    let below = column[y - 1 - min_y] as usize;
    let here = column[y - min_y] as usize;
    &&& !bitset_bits(world.air_states).contains(below)
    &&& !bitset_bits(world.water_states).contains(below)
    &&& !bitset_bits(world.lava_states).contains(below)
    &&& !bitset_bits(world.bedrock).contains(below)
    &&& (bitset_bits(world.air_states).contains(here) || bitset_bits(world.water_states).contains(here)
        || bitset_bits(world.lava_states).contains(here))
}

/// How many heights of `lo..=hi` are top faces.
pub open spec fn faces_between(world: WorldStates, column: Seq<VoxelId>, min_y: int, lo: int, hi: int) -> int
    decreases hi - lo + 1,
{
    if hi < lo {
        0
    } else {
        faces_between(world, column, min_y, lo, hi - 1) + if top_face(world, column, min_y, hi) {
            1int
        } else {
            0int
        }
    }
}

/// The face a count-on-every-layer placement stands on is the top face with
/// exactly `layer` top faces above it up to `y`, counting down from `y` to
/// one above the bottom of the world; there is none where the column holds
/// no more than `layer` top faces there, or the layer is negative.
pub proof fn lemma_ground_below_meaning(world: WorldStates, column: Seq<VoxelId>, min_y: int, y: int, layer: int)
    requires
        y - min_y < column.len(),
    ensures
        match ground_below(world, column, min_y, y, layer) {
            Some(g) => min_y < g <= y && top_face(world, column, min_y, g) && faces_between(
                world,
                column,
                min_y,
                g + 1,
                y,
            ) == layer,
            None => layer < 0 || faces_between(world, column, min_y, min_y + 1, y) <= layer,
        },
    decreases y - min_y,
{
    if y >= min_y + 1 {
        assert(is_ground(world, column, min_y, y) == top_face(world, column, min_y, y));
        if is_ground(world, column, min_y, y) {
            if layer != 0 {
                lemma_ground_below_meaning(world, column, min_y, y - 1, layer - 1);
                match ground_below(world, column, min_y, y - 1, layer - 1) {
                    Some(g) => {
                        lemma_faces_split(world, column, min_y, g + 1, y);
                    },
                    None => {},
                }
            } else {
                assert(faces_between(world, column, min_y, y + 1, y) == 0);
            }
        } else {
            lemma_ground_below_meaning(world, column, min_y, y - 1, layer);
            match ground_below(world, column, min_y, y - 1, layer) {
                Some(g) => {
                    lemma_faces_split(world, column, min_y, g + 1, y);
                },
                None => {},
            }
        }
    } else {
        assert(faces_between(world, column, min_y, min_y + 1, y) == 0);
    }
}

proof fn lemma_faces_split(world: WorldStates, column: Seq<VoxelId>, min_y: int, lo: int, hi: int)
    requires
        lo <= hi + 1,
    ensures
        faces_between(world, column, min_y, lo, hi) == faces_between(world, column, min_y, lo, hi - 1) + if lo
            <= hi && top_face(world, column, min_y, hi) {
            1int
        } else {
            0int
        },
{
    if lo > hi {
        assert(faces_between(world, column, min_y, lo, hi - 1) == 0);
    }
}

impl WorldStates {
    pub fn is_empty_or_water(&self, state: VoxelId) -> (res: bool)
        ensures
            res == empty_or_water(*self, state),
    {
        bitset_contains(&self.air_states, state as usize) || bitset_contains(
            &self.water_states,
            state as usize,
        )
    }

    pub fn is_empty_or_water_or_lava(&self, state: VoxelId) -> (res: bool)
        ensures
            res == empty_or_fluid(*self, state),
    {
        self.is_empty_or_water(state) || bitset_contains(&self.lava_states, state as usize)
    }

    /// The block a state belongs to.
    pub fn block_of(&self, state: VoxelId) -> (block: u32)
        ensures
            block == (if (state as int) < self.block_of_state@.len() {
                self.block_of_state@[state as int]
            } else {
                state as u32
            }),
    {
        if (state as usize) < self.block_of_state.len() {
            self.block_of_state[state as usize]
        } else {
            state as u32
        }
    }

    /// The layout of the block a state belongs to, if the table has one.
    pub fn layout_of(&self, state: VoxelId) -> (layout: Option<&BlockLayout>)
        ensures
            ({
                let block = if (state as int) < self.block_of_state@.len() {
                    self.block_of_state@[state as int] as int
                } else {
                    state as int
                };
                if block < self.layouts@.len() {
                    layout == Some(&self.layouts@[block])
                } else {
                    layout is None
                }
            }),
    {
        let block = self.block_of(state) as usize;
        if block < self.layouts.len() {
            Some(&self.layouts[block])
        } else {
            None
        }
    }
}

/// `CountOnEveryLayerPlacement.findOnGroundYPosition` over one column whose
/// state at height `y` is `column[y - min_y]`, from `y_start` down: the
/// `layer_to_place_on`-th top face, counting from zero.
pub fn on_ground_y(
    world: &WorldStates,
    column: &[VoxelId],
    min_y: i32,
    y_start: i32,
    layer_to_place_on: i32,
) -> (res: Option<i32>)
    requires
        y_start - min_y < column@.len(),
    ensures
        res == match ground_below(*world, column@, min_y as int, y_start as int, layer_to_place_on as int) {
            Some(y) => Some(y as i32),
            None => None,
        },
{
    if y_start <= min_y {
        return None;
    }
    let mut current_layer: i64 = 0;
    let mut y = y_start;
    while y > min_y
        invariant
            min_y <= y <= y_start,
            y_start - min_y < column@.len(),
            0 <= current_layer <= y_start - y,
            ground_below(*world, column@, min_y as int, y_start as int, layer_to_place_on as int)
                == ground_below(
                *world,
                column@,
                min_y as int,
                y as int,
                layer_to_place_on - current_layer,
            ),
        decreases y - min_y,
    {
        let at = (y as i64 - min_y as i64) as usize;
        let below = column[at - 1];
        let current = column[at];
        if !world.is_empty_or_water_or_lava(below) && world.is_empty_or_water_or_lava(current)
            && !bitset_contains(&world.bedrock, below as usize) {
            if current_layer == layer_to_place_on as i64 {
                return Some(y);
            }
            current_layer += 1;
        }
        y -= 1;
    }
    None
}

/// One property of a block as a digit of its state ids: the values in
/// declared order, each `stride` ids apart.
pub struct PropertyLayout {
    pub name: String,
    pub values: Vec<String>,
    pub stride: u16,
}

/// A block's state ids: the first, and its properties as digits.
pub struct BlockLayout {
    pub base: u16,
    pub properties: Vec<PropertyLayout>,
}

/// Every digit can be read: it has a stride and at least one value.
pub open spec fn property_wf(property: PropertyLayout) -> bool {
    property.stride >= 1 && 1 <= property.values@.len() <= u16::MAX
}

pub open spec fn layout_wf(layout: BlockLayout) -> bool {
    forall|i: int| 0 <= i < layout.properties@.len() ==> property_wf(#[trigger] layout.properties@[i])
}

/// The index of the first property named `name`.
pub open spec fn property_index(properties: Seq<PropertyLayout>, name: Seq<char>) -> Option<int>
    decreases properties.len(),
{
    if properties.len() == 0 {
        None
    } else if properties[0].name@ == name {
        Some(0)
    } else {
        match property_index(properties.drop_first(), name) {
            Some(i) => Some(i + 1),
            None => None,
        }
    }
}

/// The index of the first of `values` spelled `value`.
pub open spec fn value_position(values: Seq<String>, value: Seq<char>) -> Option<int>
    decreases values.len(),
{
    if values.len() == 0 {
        None
    } else if values[0]@ == value {
        Some(0)
    } else {
        match value_position(values.drop_first(), value) {
            Some(i) => Some(i + 1),
            None => None,
        }
    }
}

/// Which value of `property` the state holds: the digit of its offset from the
/// block's first id, the offset taken modulo 2^16 as the id arithmetic wraps.
pub open spec fn value_index_spec(base: u16, state: VoxelId, property: PropertyLayout) -> u16 {
    let offset = (if state >= base {
        state - base
    } else {
        state - base + 0x1_0000
    }) as u16;
    ((offset / property.stride) % (property.values@.len() as u16)) as u16
}

/// The state with `property` set to its `index`-th value, every other digit
/// kept; ids wrap modulo 2^16.
pub open spec fn with_index_spec(base: u16, state: VoxelId, property: PropertyLayout, index: u16) -> VoxelId {
    (state + (index - value_index_spec(base, state, property)) * property.stride) as u16
}

/// Setting a property to its `index`-th value and reading it back gives
/// `index`, for a state at or above the block's first id that the set keeps
/// within the ids.
pub proof fn lemma_read_after_set(base: u16, state: VoxelId, property: PropertyLayout, index: u16)
    requires
        property_wf(property),
        index < property.values@.len(),
        base <= state,
        base <= state + (index - value_index_spec(base, state, property)) * property.stride <= u16::MAX,
    ensures
        value_index_spec(base, with_index_spec(base, state, property, index), property) == index,
{
    let stride = property.stride as int;
    let len = property.values@.len() as int;
    let off = state - base;
    let q = off / stride;
    let r = off % stride;
    lemma_fundamental_div_mod(off, stride);
    let d = value_index_spec(base, state, property) as int;
    assert(d == q % len);
    lemma_fundamental_div_mod(q, len);
    let m = q / len;
    let k = q + index - d;
    assert(k == m * len + index) by (nonlinear_arith)
        requires
            q == len * m + d,
            k == q + index - d,
    ;
    let moved = state + (index - d) * stride;
    let after = with_index_spec(base, state, property, index);
    assert(after == moved);
    assert(moved - base == k * stride + r) by (nonlinear_arith)
        requires
            off == stride * q + r,
            moved == state + (index - d) * stride,
            off == state - base,
            k == q + index - d,
    ;
    assert(0 <= r < stride);
    lemma_fundamental_div_mod_converse_div(moved - base, stride, k, r);
    assert(0 <= index < len);
    lemma_fundamental_div_mod_converse_mod(k, len, m, index as int);
}

/// Setting one property keeps every other property's value, where the two
/// are digits of a mixed radix: one's whole span, stride times values, a
/// divisor of the other's stride. As for reading back, the state lies at or
/// above the block's first id and the set keeps it within the ids.
pub proof fn lemma_set_keeps_others(
    base: u16,
    state: VoxelId,
    property: PropertyLayout,
    other: PropertyLayout,
    index: u16,
)
    requires
        property_wf(property),
        property_wf(other),
        index < property.values@.len(),
        base <= state,
        base <= state + (index - value_index_spec(base, state, property)) * property.stride <= u16::MAX,
        (property.stride as int) % (other.stride * other.values@.len()) == 0 || (other.stride as int)
            % (property.stride * property.values@.len()) == 0,
    ensures
        value_index_spec(base, with_index_spec(base, state, property, index), other)
            == value_index_spec(base, state, other),
{
    let sp = property.stride as int;
    let lp = property.values@.len() as int;
    let sq = other.stride as int;
    let lq = other.values@.len() as int;
    let off = state - base;
    let d = value_index_spec(base, state, property) as int;
    let moved = state + (index - d) * sp;
    let after = with_index_spec(base, state, property, index);
    assert(after == moved);
    let off2 = moved - base;
    assert(off2 == off + (index - d) * sp) by (nonlinear_arith)
        requires
            moved == state + (index - d) * sp,
            off == state - base,
            off2 == moved - base,
    ;
    assert(d == (off / sp) % lp);
    assert(value_index_spec(base, state, other) == (off / sq) % lq);
    assert(value_index_spec(base, after, other) == (off2 / sq) % lq);
    if sp % (sq * lq) == 0 {
        // the other property is a lower digit: the set moves by whole spans of it
        let span = sq * lq;
        assert(span > 0) by (nonlinear_arith)
            requires
                sq >= 1,
                lq >= 1,
                span == sq * lq,
        ;
        lemma_fundamental_div_mod(sp, span);
        let c = sp / span;
        let m = (index - d) * c;
        assert(off2 == off + m * span) by (nonlinear_arith)
            requires
                off2 == off + (index - d) * sp,
                sp == span * c + 0,
                m == (index - d) * c,
        ;
        lemma_fundamental_div_mod(off, sq);
        let a = off / sq;
        let r = off % sq;
        assert(off2 == (a + m * lq) * sq + r) by (nonlinear_arith)
            requires
                off2 == off + m * span,
                off == sq * a + r,
                span == sq * lq,
        ;
        lemma_fundamental_div_mod_converse_div(off2, sq, a + m * lq, r);
        lemma_fundamental_div_mod(a, lq);
        let b = a / lq;
        let e = a % lq;
        assert(a + m * lq == (b + m) * lq + e) by (nonlinear_arith)
            requires
                a == lq * b + e,
        ;
        lemma_fundamental_div_mod_converse_mod(a + m * lq, lq, b + m, e);
    } else {
        // the other property is a higher digit: the set stays within one span
        let span = sp * lp;
        assert(span > 0) by (nonlinear_arith)
            requires
                sp >= 1,
                lp >= 1,
                span == sp * lp,
        ;
        lemma_fundamental_div_mod(off, span);
        let q = off / span;
        let rest = off % span;
        lemma_fundamental_div_mod(rest, sp);
        let hi = rest / sp;
        let lo = rest % sp;
        assert(hi < lp) by (nonlinear_arith)
            requires
                rest == sp * hi + lo,
                0 <= lo,
                rest < span,
                span == sp * lp,
                sp >= 1,
        ;
        assert(off == (q * lp + hi) * sp + lo) by (nonlinear_arith)
            requires
                off == span * q + rest,
                rest == sp * hi + lo,
                span == sp * lp,
        ;
        lemma_fundamental_div_mod_converse_div(off, sp, q * lp + hi, lo);
        lemma_fundamental_div_mod_converse_mod(q * lp + hi, lp, q, hi);
        assert(d == hi);
        let rest2 = lo + index * sp;
        assert(0 <= rest2 < span) by (nonlinear_arith)
            requires
                rest2 == lo + index * sp,
                0 <= lo < sp,
                0 <= index < lp,
                span == sp * lp,
        ;
        assert(off2 == q * span + rest2) by (nonlinear_arith)
            requires
                off2 == off + (index - d) * sp,
                off == (q * lp + hi) * sp + lo,
                d == hi,
                span == sp * lp,
                rest2 == lo + index * sp,
        ;
        lemma_fundamental_div_mod_converse_div(off2, span, q, rest2);
        assert(off2 / span == off / span);
        lemma_fundamental_div_mod(sq, span);
        let c = sq / span;
        assert(c > 0) by (nonlinear_arith)
            requires
                sq == span * c + 0,
                sq >= 1,
                span > 0,
        ;
        assert(sq == span * c);
        assert(off >= 0 && off2 >= 0);
        lemma_div_denominator(off, span, c);
        lemma_div_denominator(off2, span, c);
        assert(off / sq == off2 / sq);
    }
}

/// Two properties are digits of one mixed radix: the whole span of one,
/// stride times values, divides the other's stride.
pub open spec fn digits_nest(a: PropertyLayout, b: PropertyLayout) -> bool {
    (a.stride as int) % (b.stride * b.values@.len()) == 0 || (b.stride as int) % (a.stride
        * a.values@.len()) == 0
}

/// A block's states read as a mixed-radix number: `span` ids from its first,
/// each property a digit whose span divides `span`, any two properties
/// digits of one radix, and the ids within the 2^16 a state id holds.
pub open spec fn mixed_radix(layout: BlockLayout, span: int) -> bool {
    &&& layout_wf(layout)
    &&& layout.base + span <= 0x1_0000
    &&& forall|i: int|
        0 <= i < layout.properties@.len() ==> span % ((#[trigger] layout.properties@[i]).stride
            * layout.properties@[i].values@.len()) == 0
    &&& forall|i: int, j: int|
        0 <= i < layout.properties@.len() && 0 <= j < layout.properties@.len() && i != j
            ==> digits_nest(#[trigger] layout.properties@[i], #[trigger] layout.properties@[j])
}

/// Setting a property of one of a block's states to its `index`-th value
/// sets that digit and no other: reading the property back gives `index`,
/// and every other property of the block reads as before.
pub proof fn lemma_with_index_digits(layout: BlockLayout, span: int, state: VoxelId, p: int, index: u16)
    requires
        mixed_radix(layout, span),
        layout.base <= state < layout.base + span,
        0 <= p < layout.properties@.len(),
        index < layout.properties@[p].values@.len(),
    ensures
        value_index_spec(
            layout.base,
            with_index_spec(layout.base, state, layout.properties@[p], index),
            layout.properties@[p],
        ) == index,
        forall|q: int|
            0 <= q < layout.properties@.len() && q != p ==> value_index_spec(
                layout.base,
                with_index_spec(layout.base, state, layout.properties@[p], index),
                #[trigger] layout.properties@[q],
            ) == value_index_spec(layout.base, state, layout.properties@[q]),
{
    let base = layout.base;
    let property = layout.properties@[p];
    assert(property_wf(property));
    let sp = property.stride as int;
    let lp = property.values@.len() as int;
    let w = sp * lp;
    assert(w > 0) by (nonlinear_arith)
        requires
            sp >= 1,
            lp >= 1,
            w == sp * lp,
    ;
    let off = state - base;
    let d = value_index_spec(base, state, property) as int;
    assert(d == (off / sp) % lp);
    lemma_fundamental_div_mod(off, w);
    let q = off / w;
    let rest = off % w;
    lemma_fundamental_div_mod(rest, sp);
    let hi = rest / sp;
    let lo = rest % sp;
    assert(hi < lp) by (nonlinear_arith)
        requires
            rest == sp * hi + lo,
            0 <= lo,
            rest < w,
            w == sp * lp,
            sp >= 1,
    ;
    assert(off == (q * lp + hi) * sp + lo) by (nonlinear_arith)
        requires
            off == w * q + rest,
            rest == sp * hi + lo,
            w == sp * lp,
    ;
    lemma_fundamental_div_mod_converse_div(off, sp, q * lp + hi, lo);
    lemma_fundamental_div_mod_converse_mod(q * lp + hi, lp, q, hi);
    assert(d == hi);
    // the set stays within the span of the property's digit that holds the state
    assert(span % w == 0);
    lemma_fundamental_div_mod(span, w);
    let k = span / w;
    let moved = off + (index - d) * sp;
    let low = lo + index * sp;
    assert(moved == q * w + low) by (nonlinear_arith)
        requires
            off == (q * lp + hi) * sp + lo,
            d == hi,
            moved == off + (index - d) * sp,
            w == sp * lp,
            low == lo + index * sp,
    ;
    assert(0 <= low < w) by (nonlinear_arith)
        requires
            low == lo + index * sp,
            0 <= lo < sp,
            0 <= index < lp,
            w == sp * lp,
    ;
    assert(q * w + w <= span) by (nonlinear_arith)
        requires
            off == w * q + rest,
            0 <= rest,
            off < span,
            span == w * k + 0,
            w > 0,
    ;
    assert(0 <= q * w) by (nonlinear_arith)
        requires
            q >= 0,
            w > 0,
    ;
    assert(base <= state + (index - d) * sp <= u16::MAX);
    lemma_read_after_set(base, state, property, index);
    assert forall|j: int|
        0 <= j < layout.properties@.len() && j != p implies value_index_spec(
        base,
        with_index_spec(base, state, property, index),
        #[trigger] layout.properties@[j],
    ) == value_index_spec(base, state, layout.properties@[j]) by {
        assert(property_wf(layout.properties@[j]));
        assert(digits_nest(layout.properties@[p], layout.properties@[j]));
        lemma_set_keeps_others(base, state, property, layout.properties@[j], index);
    }
}

/// Setting `name` to `value` reads one digit of the state: that of the
/// property named so, where the block has it and it holds the value. That
/// property, and no other, must be readable.
pub open spec fn set_readable(layout: BlockLayout, name: Seq<char>, value: Seq<char>) -> bool {
    match property_index(layout.properties@, name) {
        Some(p) => value_position(layout.properties@[p].values@, value) is Some ==> property_wf(
            layout.properties@[p],
        ),
        None => true,
    }
}

/// `BlockState.trySetValue`: a property this block lacks, or a value outside
/// it, leaves the state alone.
pub open spec fn try_set_spec(layout: BlockLayout, state: VoxelId, name: Seq<char>, value: Seq<char>) -> VoxelId {
    match property_index(layout.properties@, name) {
        None => state,
        Some(p) => {
            let property = layout.properties@[p];
            match value_position(property.values@, value) {
                Some(v) => with_index_spec(layout.base, state, property, v as u16),
                None => state,
            }
        },
    }
}

/// The first `n` properties of `from`, as `source` holds them, copied over to
/// `state` one after another.
pub open spec fn copy_properties_spec(
    layout: BlockLayout,
    state: VoxelId,
    from: BlockLayout,
    source: VoxelId,
    n: int,
) -> VoxelId
    decreases n,
{
    if n <= 0 || n > from.properties@.len() {
        state
    } else {
        let before = copy_properties_spec(layout, state, from, source, n - 1);
        let property = from.properties@[n - 1];
        let held = property.values@[value_index_spec(from.base, source, property) as int];
        try_set_spec(layout, before, property.name@, held@)
    }
}

proof fn lemma_property_index(properties: Seq<PropertyLayout>, name: Seq<char>)
    ensures
        property_index(properties, name) matches Some(i) ==> 0 <= i < properties.len()
            && properties[i].name@ == name,
    decreases properties.len(),
{
    if properties.len() > 0 {
        lemma_property_index(properties.drop_first(), name);
    }
}

proof fn lemma_value_position(values: Seq<String>, value: Seq<char>)
    ensures
        value_position(values, value) matches Some(i) ==> 0 <= i < values.len() && values[i]@
            == value,
    decreases values.len(),
{
    if values.len() > 0 {
        lemma_value_position(values.drop_first(), value);
    }
}

fn same_text(a: &String, b: &String) -> (res: bool)
    ensures
        res == (a@ == b@),
{
    *a == *b
}

impl BlockLayout {
    /// The first property with this name.
    pub fn property(&self, name: &str) -> (res: Option<&PropertyLayout>)
        ensures
            match property_index(self.properties@, name@) {
                Some(i) => res == Some(&self.properties@[i]),
                None => res is None,
            },
    {
        let owned = name.to_owned();
        proof {
            lemma_property_index(self.properties@, name@);
        }
        assert(owned@ == name@);
        match self.property_at(&owned) {
            Some(i) => {
                assert(property_index(self.properties@, name@) == Some(i as int));
                Some(&self.properties[i])
            },
            None => None,
        }
    }

    fn property_at(&self, name: &String) -> (res: Option<usize>)
        ensures
            match res {
                Some(k) => property_index(self.properties@, name@) == Some(k as int) && k
                    < self.properties@.len(),
                None => property_index(self.properties@, name@) is None,
            },
    {
        let mut i: usize = 0;
        assert(self.properties@.skip(0) =~= self.properties@);
        while i < self.properties.len()
            invariant
                i <= self.properties@.len(),
                property_index(self.properties@, name@) == match property_index(
                    self.properties@.skip(i as int),
                    name@,
                ) {
                    Some(j) => Some(j + i),
                    None => None,
                },
            decreases self.properties.len() - i,
        {
            assert(self.properties@.skip(i as int).drop_first() =~= self.properties@.skip(i + 1));
            if same_text(&self.properties[i].name, name) {
                assert(self.properties@.skip(i as int)[0] == self.properties@[i as int]);
                return Some(i);
            }
            i += 1;
        }
        None
    }

    /// Which value of `property` the state holds.
    pub fn value_index(&self, state: VoxelId, property: &PropertyLayout) -> (index: u16)
        requires
            property_wf(*property),
        ensures
            index == value_index_spec(self.base, state, *property),
    {
        let offset = state.wrapping_sub(self.base);
        offset / property.stride % (property.values.len() as u16)
    }

    /// The state with `property` set to its `index`-th value.
    pub fn with_index(&self, state: VoxelId, property: &PropertyLayout, index: u16) -> (res: VoxelId)
        requires
            property_wf(*property),
        ensures
            res == with_index_spec(self.base, state, *property, index),
    {
        let held = self.value_index(state, property);
        let step = index as i64 - held as i64;
        assert(-0x1_0000 * 0x1_0000 <= step * property.stride <= 0x1_0000 * 0x1_0000) by (nonlinear_arith)
            requires
                -0x1_0000 <= step <= 0x1_0000,
                0 <= property.stride <= 0x1_0000,
        ;
        let shift = step * property.stride as i64;
        let moved = state as i64 + shift;
        #[verifier::truncate]
        (moved as u16)
    }

    /// `BlockState.trySetValue`.
    pub fn try_set(&self, state: VoxelId, name: &str, value: &str) -> (res: VoxelId)
        requires
            set_readable(*self, name@, value@),
        ensures
            res == try_set_spec(*self, state, name@, value@),
    {
        let name = name.to_owned();
        let value = value.to_owned();
        self.try_set_text(state, &name, &value)
    }

    fn try_set_text(&self, state: VoxelId, name: &String, value: &String) -> (res: VoxelId)
        requires
            set_readable(*self, name@, value@),
        ensures
            res == try_set_spec(*self, state, name@, value@),
    {
        proof {
            lemma_property_index(self.properties@, name@);
        }
        let p = match self.property_at(name) {
            Some(p) => p,
            None => {
                return state;
            },
        };
        let property = &self.properties[p];
        proof {
            lemma_value_position(property.values@, value@);
        }
        let mut v: usize = 0;
        assert(property.values@.skip(0) =~= property.values@);
        while v < property.values.len()
            invariant
                v <= property.values@.len(),
                value_position(property.values@, value@) is Some ==> property_wf(*property),
                p < self.properties@.len(),
                *property == self.properties@[p as int],
                property_index(self.properties@, name@) == Some(p as int),
                value_position(property.values@, value@) matches Some(i) ==> 0 <= i
                    < property.values@.len(),
                value_position(property.values@, value@) == match value_position(
                    property.values@.skip(v as int),
                    value@,
                ) {
                    Some(j) => Some(j + v),
                    None => None,
                },
            decreases property.values.len() - v,
        {
            assert(property.values@.skip(v as int).drop_first() =~= property.values@.skip(v + 1));
            if same_text(&property.values[v], value) {
                assert(value_position(property.values@, value@) is Some);
                return self.with_index(state, property, v as u16);
            }
            v += 1;
        }
        assert(property.values@.skip(v as int) =~= Seq::<String>::empty());
        state
    }

    /// `BlockState.withPropertiesOf`: every property `from` shares by name and
    /// value text, copied over from `source`.
    pub fn with_properties_of(&self, state: VoxelId, from: &BlockLayout, source: VoxelId) -> (res:
        VoxelId)
        requires
            layout_wf(*from),
            forall|i: int|
                0 <= i < from.properties@.len() ==> set_readable(
                    *self,
                    #[trigger] from.properties@[i].name@,
                    from.properties@[i].values@[value_index_spec(
                        from.base,
                        source,
                        from.properties@[i],
                    ) as int]@,
                ),
        ensures
            res == copy_properties_spec(*self, state, *from, source, from.properties@.len() as int),
    {
        let mut state = state;
        let ghost start = state;
        let mut i: usize = 0;
        while i < from.properties.len()
            invariant
                i <= from.properties@.len(),
                layout_wf(*from),
                forall|i: int|
                    0 <= i < from.properties@.len() ==> set_readable(
                        *self,
                        #[trigger] from.properties@[i].name@,
                        from.properties@[i].values@[value_index_spec(
                            from.base,
                            source,
                            from.properties@[i],
                        ) as int]@,
                    ),
                state == copy_properties_spec(*self, start, *from, source, i as int),
            decreases from.properties.len() - i,
        {
            let property = &from.properties[i];
            assert(property_wf(*property));
            let held = from.value_index(source, property);
            assert(set_readable(*self, from.properties@[i as int].name@, property.values@[held as int]@));
            state = self.try_set_text(state, &property.name, &property.values[held as usize]);
            i += 1;
        }
        state
    }
}

// ---------------------------------------------------------------------------
// Running a modifier chain
// ---------------------------------------------------------------------------
/// What placing one object asks for next.
#[derive(Clone, Copy, Debug, PartialEq, Eq, Structural)]
pub enum PlaceAction {
    /// Apply modifier `modifier` of the chain at `at`, and hand back its outputs.
    Apply { at: Vec3i, modifier: usize },
    /// Run the object's generator at `at`, and hand back whether it placed.
    Generate { at: Vec3i },
    Done,
}

/// One object's modifier chain run over its origin: every position a modifier
/// emits goes through the rest of the chain, depth first and in emission
/// order, before the position emitted after it; every position the last
/// modifier emits is handed to the generator.
pub struct Placer {
    chain: usize,
    pending: Vec<(Vec3i, usize)>,
    ready: Vec<Vec3i>,
    next_ready: usize,
    placed_any: bool,
}

/// The positions, each paired with the modifier it waits on, in the order
/// they are pushed: reversed, so that the first is on top.
pub open spec fn pushed(outputs: Seq<Vec3i>, next: usize) -> Seq<(Vec3i, usize)> {
    Seq::new(outputs.len(), |i: int| (outputs[outputs.len() - 1 - i], next))
}

impl Placer {
    /// The generator's cursor lies within its positions, and every pending
    /// position waits on a modifier of the chain.
    pub closed spec fn wf(self) -> bool {
        &&& self.next_ready <= self.ready@.len()
        &&& forall|i: int| 0 <= i < self.pending@.len() ==> #[trigger] self.pending@[i].1 < self.chain
    }

    pub closed spec fn pending_view(self) -> Seq<(Vec3i, usize)> {
        self.pending@
    }

    /// The positions waiting for the generator, in order.
    pub closed spec fn ready_view(self) -> Seq<Vec3i> {
        self.ready@.skip(self.next_ready as int)
    }

    pub closed spec fn chain_view(self) -> nat {
        self.chain as nat
    }

    pub closed spec fn placed_view(self) -> bool {
        self.placed_any
    }

    /// The action the state asks for.
    pub open spec fn action_of(self) -> PlaceAction {
        if self.ready_view().len() > 0 {
            PlaceAction::Generate { at: self.ready_view()[0] }
        } else if self.pending_view().len() > 0 {
            PlaceAction::Apply {
                at: self.pending_view().last().0,
                modifier: self.pending_view().last().1,
            }
        } else {
            PlaceAction::Done
        }
    }

    /// A chain of `chain` modifiers over `origin`; with no modifier at all the
    /// origin goes straight to the generator.
    pub fn new(chain: usize, origin: Vec3i) -> (placer: Placer)
        ensures
            placer.wf(),
            placer.chain_view() == chain,
            !placer.placed_view(),
            chain == 0 ==> placer.pending_view() == Seq::<(Vec3i, usize)>::empty()
                && placer.ready_view() == seq![origin],
            chain > 0 ==> placer.pending_view() == seq![(origin, 0usize)]
                && placer.ready_view() == Seq::<Vec3i>::empty(),
    {
        let mut pending: Vec<(Vec3i, usize)> = Vec::new();
        let mut ready: Vec<Vec3i> = Vec::new();
        if chain == 0 {
            ready.push(origin);
        } else {
            pending.push((origin, 0));
        }
        let placer = Placer { chain, pending, ready, next_ready: 0, placed_any: false };
        proof {
            assert(placer.ready@.skip(0) =~= placer.ready@);
        }
        placer
    }

    /// What to do next.
    pub fn next_action(&self) -> (action: PlaceAction)
        requires
            self.wf(),
        ensures
            action == self.action_of(),
    {
        if self.next_ready < self.ready.len() {
            PlaceAction::Generate { at: self.ready[self.next_ready] }
        } else {
            let n = self.pending.len();
            if n > 0 {
                let (at, modifier) = self.pending[n - 1];
                PlaceAction::Apply { at, modifier }
            } else {
                PlaceAction::Done
            }
        }
    }

    /// Hands back what the modifier the last `Apply` named emitted: more
    /// positions for the rest of the chain, first on top, or, after the last
    /// modifier, positions for the generator in emission order.
    pub fn applied(&mut self, outputs: Vec<Vec3i>)
        requires
            old(self).wf(),
            old(self).action_of() is Apply,
        ensures
            final(self).wf(),
            final(self).chain_view() == old(self).chain_view(),
            final(self).placed_view() == old(self).placed_view(),
            ({
                let (at, modifier) = old(self).pending_view().last();
                let rest = old(self).pending_view().drop_last();
                if modifier + 1 < old(self).chain_view() {
                    &&& final(self).pending_view() == rest + pushed(outputs@, (modifier + 1) as usize)
                    &&& final(self).ready_view() == Seq::<Vec3i>::empty()
                } else {
                    &&& final(self).pending_view() == rest
                    &&& final(self).ready_view() == outputs@
                }
            }),
    {
        let ghost before = self.pending@;
        let (_, modifier) = self.pending.pop().unwrap();
        let next = modifier + 1;
        if next < self.chain {
            let mut i = outputs.len();
            while i > 0
                invariant
                    i <= outputs@.len(),
                    next < self.chain,
                    self.chain == old(self).chain,
                    self.placed_any == old(self).placed_any,
                    self.pending@ == before.drop_last() + pushed(outputs@, next).take(
                        (outputs@.len() - i) as int,
                    ),
                    forall|k: int| 0 <= k < self.pending@.len() ==> #[trigger] self.pending@[k].1 < self.chain,
                    self.next_ready == self.ready@.len(),
                decreases i,
            {
                i -= 1;
                self.pending.push((outputs[i], next));
                proof {
                    assert(self.pending@ =~= before.drop_last() + pushed(outputs@, next).take(
                        (outputs@.len() - i) as int,
                    ));
                }
            }
            proof {
                assert(pushed(outputs@, next).take(outputs@.len() as int) =~= pushed(outputs@, next));
                assert(self.ready@.skip(self.next_ready as int) =~= Seq::<Vec3i>::empty());
            }
        } else {
            self.ready = outputs;
            self.next_ready = 0;
            proof {
                assert(self.ready@.skip(0) =~= self.ready@);
            }
        }
    }

    /// Hands back whether the generator placed at the position the last
    /// `Generate` named.
    pub fn generated(&mut self, placed: bool)
        requires
            old(self).wf(),
            old(self).action_of() is Generate,
        ensures
            final(self).wf(),
            final(self).chain_view() == old(self).chain_view(),
            final(self).pending_view() == old(self).pending_view(),
            final(self).ready_view() == old(self).ready_view().drop_first(),
            final(self).placed_view() == (old(self).placed_view() || placed),
    {
        let ghost before = self.ready@.skip(self.next_ready as int);
        assert(self.ready_view().len() > 0);
        assert(before.len() == self.ready@.len() - self.next_ready);
        let len = self.ready.len();
        assert(self.next_ready < len);
        self.next_ready = self.next_ready + 1;
        self.placed_any = self.placed_any || placed;
        proof {
            assert(self.ready@.skip(self.next_ready as int) =~= before.drop_first());
        }
    }

    /// Whether the generator placed at any position so far.
    pub fn placed_any(&self) -> (placed: bool)
        ensures
            placed == self.placed_view(),
    {
        self.placed_any
    }
}

/// The seed a feature's source starts from: the column's decoration seed
/// plus the feature's index plus ten thousand per step, in wrapping `long`
/// arithmetic.
pub open spec fn feature_seed_spec(decoration_seed: i64, step: int, index: int) -> i64 {
    vstd::wrapping::i64_specs::wrapping_add(
        vstd::wrapping::i64_specs::wrapping_add(decoration_seed, index as i64),
        vstd::wrapping::i64_specs::wrapping_mul(10_000, step as i64),
    )
}

pub fn feature_seed(decoration_seed: i64, step: usize, index: usize) -> (seed: i64)
    ensures
        seed == feature_seed_spec(decoration_seed, step as int, index as int),
{
    decoration_seed.wrapping_add(index as i64).wrapping_add(10_000i64.wrapping_mul(step as i64))
}

/// One feature to place: its step, its index, and the seed of its source.
#[derive(Clone, Copy, Debug, PartialEq, Eq, Structural)]
pub struct Scheduled {
    pub step: usize,
    pub index: usize,
    pub seed: i64,
}

/// Whether `a` comes before `b`: by step, then by index.
pub open spec fn scheduled_before(a: Scheduled, b: Scheduled) -> bool {
    a.step < b.step || (a.step == b.step && a.index < b.index)
}

/// Whether a feature is placed: its step lies in the range and its bit is
/// among those `ones` walks in the step's present features.
pub open spec fn is_scheduled(
    present: Seq<FixedBitSet>,
    first_step: usize,
    end_step: usize,
    decoration_seed: i64,
    item: Scheduled,
) -> bool {
    &&& first_step <= item.step < end_step
    &&& item.step < present.len()
    &&& bitset_ones(present[item.step as int]).contains(item.index)
    &&& item.seed == feature_seed_spec(decoration_seed, item.step as int, item.index as int)
}

/// `out` is a schedule of `first_step..end_step`: in order, and holding
/// exactly the features placed there.
pub open spec fn is_schedule(
    out: Seq<Scheduled>,
    present: Seq<FixedBitSet>,
    first_step: usize,
    end_step: usize,
    decoration_seed: i64,
) -> bool {
    &&& forall|i: int, j: int| 0 <= i < j < out.len() ==> scheduled_before(out[i], out[j])
    &&& forall|item: Scheduled|
        out.contains(item) <==> is_scheduled(present, first_step, end_step, decoration_seed, item)
}

/// The features of `first_step..end_step` a volume places, in order: step
/// by step, each step's present features by ascending index, each with the
/// seed of its own source.
pub fn schedule(present: &[FixedBitSet], first_step: usize, end_step: usize, decoration_seed: i64) -> (out:
    Vec<Scheduled>)
    ensures
        is_schedule(out@, present@, first_step, end_step, decoration_seed),
{
    let mut out: Vec<Scheduled> = Vec::new();
    let mut step = first_step;
    while step < end_step && step < present.len()
        invariant
            first_step <= step,
            forall|i: int, j: int|
                0 <= i < j < out@.len() ==> scheduled_before(out@[i], out@[j]),
            forall|i: int| 0 <= i < out@.len() ==> out@[i].step < step,
            forall|item: Scheduled|
                out@.contains(item) <==> (is_scheduled(
                    present@,
                    first_step,
                    end_step,
                    decoration_seed,
                    item,
                ) && item.step < step),
        decreases end_step - step,
    {
        let bits = enabled_bits(&present[step]);
        let ghost before = out@;
        let mut k: usize = 0;
        while k < bits.len()
            invariant
                first_step <= step < end_step,
                step < present@.len(),
                k <= bits@.len(),
                forall|i: int, j: int| 0 <= i < j < bits@.len() ==> bits@[i] < bits@[j],
                forall|bit: usize| bits@.contains(bit) <==> bitset_ones(present@[step as int]).contains(bit),
                out@.len() == before.len() + k,
                out@.take(before.len() as int) == before,
                forall|i: int, j: int|
                    0 <= i < j < before.len() ==> scheduled_before(before[i], before[j]),
                forall|i: int| 0 <= i < before.len() ==> before[i].step < step,
                forall|i: int|
                    0 <= i < k ==> out@[before.len() + i] == (Scheduled {
                        step,
                        index: bits@[i],
                        seed: feature_seed_spec(decoration_seed, step as int, bits@[i] as int),
                    }),
            decreases bits.len() - k,
        {
            let index = bits[k];
            out.push(Scheduled { step, index, seed: feature_seed(decoration_seed, step, index) });
            proof {
                assert(out@.take(before.len() as int) =~= before);
            }
            k += 1;
        }
        proof {
            assert forall|i: int, j: int| 0 <= i < j < out@.len() implies scheduled_before(
                out@[i],
                out@[j],
            ) by {
                let n = before.len() as int;
                if j < n {
                    assert(out@[i] == out@.take(n)[i]);
                    assert(out@[j] == out@.take(n)[j]);
                } else if i < n {
                    assert(out@[i] == out@.take(n)[i]);
                    let d = j - n;
                    assert(0 <= d < k);
                    assert(out@[before.len() + d] == (Scheduled {
                        step,
                        index: bits@[d],
                        seed: feature_seed_spec(decoration_seed, step as int, bits@[d] as int),
                    }));
                } else {
                    let di = i - n;
                    let dj = j - n;
                    assert(out@[before.len() + di].index == bits@[di]);
                    assert(out@[before.len() + dj].index == bits@[dj]);
                }
            }
            assert forall|item: Scheduled| out@.contains(item) <==> (is_scheduled(
                present@,
                first_step,
                end_step,
                decoration_seed,
                item,
            ) && item.step < step + 1) by {
                if out@.contains(item) {
                    let p = choose|p: int| 0 <= p < out@.len() && out@[p] == item;
                    if p < before.len() {
                        assert(out@[p] == out@.take(before.len() as int)[p]);
                        assert(before[p] == item);
                        assert(before.contains(item));
                    } else {
                        assert(bits@.contains(bits@[p - before.len()]));
                    }
                }
                if is_scheduled(present@, first_step, end_step, decoration_seed, item) && item.step
                    < step + 1 {
                    if item.step < step {
                        assert(before.contains(item));
                        let p = choose|p: int| 0 <= p < before.len() && before[p] == item;
                        assert(out@[p] == out@.take(before.len() as int)[p]);
                        assert(out@[p] == item);
                    } else {
                        assert(bits@.contains(item.index));
                        let q = choose|q: int| 0 <= q < bits@.len() && bits@[q] == item.index;
                        assert(out@[before.len() + q] == item);
                    }
                }
            }
            assert forall|i: int| 0 <= i < out@.len() implies out@[i].step < step + 1 by {
                let n = before.len() as int;
                if i < n {
                    assert(out@[i] == out@.take(n)[i]);
                } else {
                    let d = i - n;
                    assert(0 <= d < k);
                    assert(out@[before.len() + d] == (Scheduled {
                        step,
                        index: bits@[d],
                        seed: feature_seed_spec(decoration_seed, step as int, bits@[d] as int),
                    }));
                }
            }
        }
        step += 1;
    }
    out
}

/// Two lists in strict order that hold the same items are the same list.
proof fn lemma_ordered_unique(p: Seq<Scheduled>, q: Seq<Scheduled>)
    requires
        forall|i: int, j: int| 0 <= i < j < p.len() ==> scheduled_before(p[i], p[j]),
        forall|i: int, j: int| 0 <= i < j < q.len() ==> scheduled_before(q[i], q[j]),
        forall|item: Scheduled| p.contains(item) <==> q.contains(item),
    ensures
        p == q,
    decreases p.len(),
{
    if p.len() == 0 {
        if q.len() > 0 {
            assert(q.contains(q[0]));
        }
    } else {
        assert(p.contains(p[0]));
        let k = choose|k: int| 0 <= k < q.len() && q[k] == p[0];
        assert(q.contains(q[0]));
        let m = choose|m: int| 0 <= m < p.len() && p[m] == q[0];
        if k > 0 {
            assert(scheduled_before(q[0], q[k]));
            if m > 0 {
                assert(scheduled_before(p[0], p[m]));
            }
        }
        assert(k == 0);
        let (pt, qt) = (p.drop_first(), q.drop_first());
        assert forall|item: Scheduled| pt.contains(item) <==> qt.contains(item) by {
            if pt.contains(item) {
                let a = choose|a: int| 0 <= a < pt.len() && pt[a] == item;
                assert(scheduled_before(p[0], p[a + 1]));
                assert(q.contains(item));
                let b = choose|b: int| 0 <= b < q.len() && q[b] == item;
                assert(b != 0);
                assert(qt[b - 1] == item);
            }
            if qt.contains(item) {
                let b = choose|b: int| 0 <= b < qt.len() && qt[b] == item;
                assert(scheduled_before(q[0], q[b + 1]));
                assert(p.contains(item));
                let a = choose|a: int| 0 <= a < p.len() && p[a] == item;
                assert(a != 0);
                assert(pt[a - 1] == item);
            }
        }
        lemma_ordered_unique(pt, qt);
        assert(p =~= seq![p[0]] + pt);
        assert(q =~= seq![q[0]] + qt);
    }
}

/// Decorating a volume a few steps at a time does what one pass over the
/// whole range does: the schedule of `first_step..end_step` is the schedule
/// of `first_step..middle_step` followed by that of `middle_step..end_step`,
/// since each feature's seed names its own step and index alone. So for any
/// effect `place_one` that placing one scheduled feature has on a volume
/// (the generator's calls and writes, given the feature's step, index and
/// seed), decorating the two rungs in turn leaves the volume that one
/// decoration over both leaves.
pub proof fn lemma_decorate_in_rungs<V>(
    present: Seq<FixedBitSet>,
    first_step: usize,
    middle_step: usize,
    end_step: usize,
    decoration_seed: i64,
    whole: Seq<Scheduled>,
    lower: Seq<Scheduled>,
    upper: Seq<Scheduled>,
    volume: V,
    place_one: spec_fn(V, Scheduled) -> V,
)
    requires
        first_step <= middle_step <= end_step,
        is_schedule(whole, present, first_step, end_step, decoration_seed),
        is_schedule(lower, present, first_step, middle_step, decoration_seed),
        is_schedule(upper, present, middle_step, end_step, decoration_seed),
    ensures
        whole == lower + upper,
        whole.fold_left(volume, place_one) == upper.fold_left(
            lower.fold_left(volume, place_one),
            place_one,
        ),
{
    let both = lower + upper;
    assert forall|i: int, j: int| 0 <= i < j < both.len() implies scheduled_before(both[i], both[j]) by {
        let n = lower.len() as int;
        if j < n {
            assert(both[i] == lower[i] && both[j] == lower[j]);
        } else if i >= n {
            assert(both[i] == upper[i - n] && both[j] == upper[j - n]);
        } else {
            assert(lower.contains(lower[i]));
            assert(upper.contains(upper[j - n]));
            assert(both[i] == lower[i] && both[j] == upper[j - n]);
        }
    }
    assert forall|item: Scheduled| both.contains(item) <==> whole.contains(item) by {
        let n = lower.len() as int;
        if both.contains(item) {
            let k = choose|k: int| 0 <= k < both.len() && both[k] == item;
            if k < n {
                assert(lower[k] == item);
                assert(lower.contains(item));
            } else {
                assert(upper[k - n] == item);
                assert(upper.contains(item));
            }
        }
        if whole.contains(item) {
            if item.step < middle_step {
                assert(lower.contains(item));
                let k = choose|k: int| 0 <= k < lower.len() && lower[k] == item;
                assert(both[k] == item);
            } else {
                assert(upper.contains(item));
                let k = choose|k: int| 0 <= k < upper.len() && upper[k] == item;
                assert(both[n + k] == item);
            }
        }
    }
    lemma_ordered_unique(whole, both);
    let n = lower.len() as int;
    assert(whole.subrange(0, n) =~= lower);
    assert(whole.subrange(n, whole.len() as int) =~= upper);
    whole.lemma_fold_left_split(volume, place_one, n);
}

// ---------------------------------------------------------------------------
// Block predicates over a volume
// ---------------------------------------------------------------------------
/// A set of block states as a bit per state id.
pub type StateMask = Arc<FixedBitSet>;

/// A set of biomes as a bit per the index [`WorldGenVolume::biome`] answers.
pub type BiomeMask = Arc<FixedBitSet>;

/// `FromIterator<usize>` of [`FixedBitSet`]: a set holding exactly the given
/// states, each bit grown into place as the source's `extend` does.
#[verifier::external_body]
pub fn mask_of(states: &[u16]) -> (mask: StateMask)
    ensures
        bitset_bits(*mask) == Set::new(
            |bit: usize| exists|i: int| 0 <= i < states@.len() && states@[i] as usize == bit,
        ),
{
    Arc::new(states.iter().map(|&state| usize::from(state)).collect())
}

/// The mask of one state.
pub fn single_state(state: VoxelId) -> (mask: StateMask)
    ensures
        forall|bit: usize| bitset_bits(*mask).contains(bit) <==> bit == state as usize,
{
    let states = [state];
    let mask = mask_of(&states);
    proof {
        assert forall|bit: usize| bitset_bits(*mask).contains(bit) <==> bit == state as usize by {
            if bitset_bits(*mask).contains(bit) {
                let i = choose|i: int| 0 <= i < states@.len() && states@[i] as usize == bit;
                assert(i == 0);
            }
            if bit == state as usize {
                assert(states@[0] as usize == bit);
            }
        }
    }
    mask
}

/// What a placement modifier or a generator may ask of the volume it runs
/// in, world-absolute coordinates throughout. The volume's owner implements
/// it; each method answers what its spec function names.
pub trait WorldGenVolume {
    /// The state at a position.
    spec fn state_at(&self, p: Vec3i) -> VoxelId;

    /// The biome index at a position.
    spec fn biome_at(&self, p: Vec3i) -> u32;

    /// `BlockState.canSurvive`, block behaviour the volume answers.
    spec fn survives_at(&self, state: VoxelId, p: Vec3i) -> bool;

    /// The vertical bounds of the world.
    spec fn extent_of(&self) -> HeightContext;

    fn get(&self, p: Vec3i) -> (state: VoxelId)
        ensures
            state == self.state_at(p),
    ;

    fn biome(&self, p: Vec3i) -> (biome: u32)
        ensures
            biome == self.biome_at(p),
    ;

    fn would_survive(&self, state: VoxelId, p: Vec3i) -> (survives: bool)
        ensures
            survives == self.survives_at(state, p),
    ;

    fn extent(&self) -> (extent: HeightContext)
        ensures
            extent == self.extent_of(),
    ;
}

/// A `BlockPredicate` with every set it names reduced to a mask.
pub enum Predicate {
    True,
    MatchingStates { offset: Vec3i, states: StateMask },
    MatchingBiomes(BiomeMask),
    WouldSurvive { offset: Vec3i, state: VoxelId },
    InsideWorldBounds { offset_y: i32 },
    HeightRange { min_inclusive: VerticalAnchor, max_inclusive: VerticalAnchor },
    VolumeMatch { min: [i32; 3], max: [i32; 3], matches: Box<Predicate> },
    AnyOf(Vec<Predicate>),
    AllOf(Vec<Predicate>),
    Not(Box<Predicate>),
}

/// `pos` moved by `(x, y, z)` in 32-bit wrapping arithmetic.
pub open spec fn moved(pos: Vec3i, x: i32, y: i32, z: i32) -> Vec3i {
    Vec3i {
        x: i32_specs::wrapping_add(pos.x, x),
        y: i32_specs::wrapping_add(pos.y, y),
        z: i32_specs::wrapping_add(pos.z, z),
    }
}

fn move_by(pos: Vec3i, x: i32, y: i32, z: i32) -> (res: Vec3i)
    ensures
        res == moved(pos, x, y, z),
{
    Vec3i { x: pos.x.wrapping_add(x), y: pos.y.wrapping_add(y), z: pos.z.wrapping_add(z) }
}

/// Whether the predicate holds at `pos` of the volume. A list of
/// predicates and the cells of a volume match are walked by the helpers
/// below; [`lemma_holds_quantified`] states them cell by cell.
pub open spec fn holds<V: WorldGenVolume>(predicate: Predicate, volume: V, pos: Vec3i) -> bool
    decreases predicate, 0int, 0int,
{
    match predicate {
        Predicate::True => true,
        Predicate::MatchingStates { offset, states } => bitset_bits(*states).contains(
            volume.state_at(moved(pos, offset.x, offset.y, offset.z)) as usize,
        ),
        Predicate::MatchingBiomes(biomes) => bitset_bits(*biomes).contains(
            volume.biome_at(pos) as usize,
        ),
        Predicate::WouldSurvive { offset, state } => volume.survives_at(
            state,
            moved(pos, offset.x, offset.y, offset.z),
        ),
        Predicate::InsideWorldBounds { offset_y } => {
            let extent = volume.extent_of();
            let y = i32_specs::wrapping_add(pos.y, offset_y);
            extent.min_y <= y < extent.min_y + extent.depth
        },
        Predicate::HeightRange { min_inclusive, max_inclusive } => {
            let extent = volume.extent_of();
            anchor_y(min_inclusive, extent) <= pos.y <= anchor_y(max_inclusive, extent)
        },
        Predicate::VolumeMatch { min, max, matches } => slabs_hold(
            *matches,
            volume,
            pos,
            min,
            max,
            max[0] - min[0] + 1,
        ),
        Predicate::AnyOf(predicates) => any_holds(predicates@, volume, pos, predicates@.len() as int),
        Predicate::AllOf(predicates) => all_hold(predicates@, volume, pos, predicates@.len() as int),
        Predicate::Not(inner) => !holds(*inner, volume, pos),
    }
}

/// Whether one of the first `n` predicates holds.
pub open spec fn any_holds<V: WorldGenVolume>(predicates: Seq<Predicate>, volume: V, pos: Vec3i, n: int) -> bool
    decreases predicates, 0int, n,
{
    if n <= 0 || n > predicates.len() {
        false
    } else {
        any_holds(predicates, volume, pos, n - 1) || holds(predicates[n - 1], volume, pos)
    }
}

/// Whether each of the first `n` predicates holds.
pub open spec fn all_hold<V: WorldGenVolume>(predicates: Seq<Predicate>, volume: V, pos: Vec3i, n: int) -> bool
    decreases predicates, 0int, n,
{
    if n <= 0 || n > predicates.len() {
        true
    } else {
        all_hold(predicates, volume, pos, n - 1) && holds(predicates[n - 1], volume, pos)
    }
}

/// Whether `matches` holds at every cell of the first `n` slabs of the box,
/// a slab being one x.
pub open spec fn slabs_hold<V: WorldGenVolume>(
    matches: Predicate,
    volume: V,
    pos: Vec3i,
    min: [i32; 3],
    max: [i32; 3],
    n: int,
) -> bool
    decreases matches, 3int, n,
{
    if n <= 0 {
        true
    } else {
        slabs_hold(matches, volume, pos, min, max, n - 1) && rows_hold(
            matches,
            volume,
            pos,
            min,
            max,
            (min[0] + n - 1) as i32,
            max[2] - min[2] + 1,
        )
    }
}

/// Whether `matches` holds at every cell of the first `n` rows of slab `x`,
/// a row being one z.
pub open spec fn rows_hold<V: WorldGenVolume>(
    matches: Predicate,
    volume: V,
    pos: Vec3i,
    min: [i32; 3],
    max: [i32; 3],
    x: i32,
    n: int,
) -> bool
    decreases matches, 2int, n,
{
    if n <= 0 {
        true
    } else {
        rows_hold(matches, volume, pos, min, max, x, n - 1) && cells_hold(
            matches,
            volume,
            pos,
            min,
            x,
            (min[2] + n - 1) as i32,
            max[1] - min[1] + 1,
        )
    }
}

/// Whether `matches` holds at the first `n` cells, going up, of row `z` of
/// slab `x`.
pub open spec fn cells_hold<V: WorldGenVolume>(
    matches: Predicate,
    volume: V,
    pos: Vec3i,
    min: [i32; 3],
    x: i32,
    z: i32,
    n: int,
) -> bool
    decreases matches, 1int, n,
{
    if n <= 0 {
        true
    } else {
        cells_hold(matches, volume, pos, min, x, z, n - 1) && holds(
            matches,
            volume,
            moved(pos, x, (min[1] + n - 1) as i32, z),
        )
    }
}

proof fn lemma_any_grows<V: WorldGenVolume>(ps: Seq<Predicate>, volume: V, pos: Vec3i, j: int, k: int)
    requires
        0 <= j <= k <= ps.len(),
        any_holds(ps, volume, pos, j),
    ensures
        any_holds(ps, volume, pos, k),
    decreases k,
{
    if j < k {
        lemma_any_grows(ps, volume, pos, j, k - 1);
    }
}

proof fn lemma_all_prefix<V: WorldGenVolume>(ps: Seq<Predicate>, volume: V, pos: Vec3i, j: int, k: int)
    requires
        0 <= j <= k <= ps.len(),
        all_hold(ps, volume, pos, k),
    ensures
        all_hold(ps, volume, pos, j),
    decreases k,
{
    if j < k {
        lemma_all_prefix(ps, volume, pos, j, k - 1);
    }
}

proof fn lemma_slabs_prefix<V: WorldGenVolume>(
    m: Predicate,
    volume: V,
    pos: Vec3i,
    min: [i32; 3],
    max: [i32; 3],
    j: int,
    k: int,
)
    requires
        0 <= j <= k,
        slabs_hold(m, volume, pos, min, max, k),
    ensures
        slabs_hold(m, volume, pos, min, max, j),
    decreases k,
{
    if j < k {
        lemma_slabs_prefix(m, volume, pos, min, max, j, k - 1);
    }
}

proof fn lemma_rows_prefix<V: WorldGenVolume>(
    m: Predicate,
    volume: V,
    pos: Vec3i,
    min: [i32; 3],
    max: [i32; 3],
    x: i32,
    j: int,
    k: int,
)
    requires
        0 <= j <= k,
        rows_hold(m, volume, pos, min, max, x, k),
    ensures
        rows_hold(m, volume, pos, min, max, x, j),
    decreases k,
{
    if j < k {
        lemma_rows_prefix(m, volume, pos, min, max, x, j, k - 1);
    }
}

proof fn lemma_cells_prefix<V: WorldGenVolume>(
    m: Predicate,
    volume: V,
    pos: Vec3i,
    min: [i32; 3],
    x: i32,
    z: i32,
    j: int,
    k: int,
)
    requires
        0 <= j <= k,
        cells_hold(m, volume, pos, min, x, z, k),
    ensures
        cells_hold(m, volume, pos, min, x, z, j),
    decreases k,
{
    if j < k {
        lemma_cells_prefix(m, volume, pos, min, x, z, j, k - 1);
    }
}

impl Predicate {
    /// Whether the predicate holds at `pos` of the volume. A volume match
    /// asks its predicate at every cell of its box, `x` outermost and `y`
    /// innermost, and stops at the first that fails; a list stops at the
    /// first predicate that decides it.
    pub fn test<V: WorldGenVolume>(&self, volume: &V, pos: Vec3i) -> (res: bool)
        ensures
            res == holds(*self, *volume, pos),
        decreases self,
    {
        match self {
            Predicate::True => true,
            Predicate::MatchingStates { offset, states } => {
                let state = volume.get(move_by(pos, offset.x, offset.y, offset.z));
                bitset_contains(states, state as usize)
            },
            Predicate::MatchingBiomes(biomes) => bitset_contains(biomes, volume.biome(pos) as usize),
            Predicate::WouldSurvive { offset, state } => volume.would_survive(
                *state,
                move_by(pos, offset.x, offset.y, offset.z),
            ),
            Predicate::InsideWorldBounds { offset_y } => volume.extent().contains(
                pos.y.wrapping_add(*offset_y),
            ),
            Predicate::HeightRange { min_inclusive, max_inclusive } => {
                let extent = volume.extent();
                pos.y >= min_inclusive.resolve_y(extent) && pos.y <= max_inclusive.resolve_y(extent)
            },
            Predicate::VolumeMatch { min, max, matches } => {
                let ghost whole = *self;
                let ghost m = **matches;
                let ghost v = *volume;
                let ghost nx = max[0] - min[0] + 1;
                let ghost nz = max[2] - min[2] + 1;
                let ghost ny = max[1] - min[1] + 1;
                proof {
                    assert(decreases_to!(whole => whole->matches));
                }
                let mut x: i64 = min[0] as i64;
                while x <= max[0] as i64
                    invariant
                        whole == *self,
                        whole == (Predicate::VolumeMatch { min: *min, max: *max, matches: *matches }),
                        decreases_to!(whole => whole->matches),
                        m == **matches,
                        v == *volume,
                        nx == max[0] - min[0] + 1,
                        nz == max[2] - min[2] + 1,
                        ny == max[1] - min[1] + 1,
                        min[0] <= x,
                        x <= max[0] + 1 || x == min[0],
                        slabs_hold(m, v, pos, *min, *max, x - min[0]),
                    decreases max[0] + 1 - x,
                {
                    let xi = x as i32;
                    let mut z: i64 = min[2] as i64;
                    while z <= max[2] as i64
                        invariant
                            whole == *self,
                            whole == (Predicate::VolumeMatch { min: *min, max: *max, matches: *matches }),
                            decreases_to!(whole => whole->matches),
                            m == **matches,
                            v == *volume,
                            nx == max[0] - min[0] + 1,
                            nz == max[2] - min[2] + 1,
                            ny == max[1] - min[1] + 1,
                            min[0] <= x <= max[0],
                            xi == x,
                            min[2] <= z,
                            z <= max[2] + 1 || z == min[2],
                            slabs_hold(m, v, pos, *min, *max, x - min[0]),
                            rows_hold(m, v, pos, *min, *max, xi, z - min[2]),
                        decreases max[2] + 1 - z,
                    {
                        let zi = z as i32;
                        let mut y: i64 = min[1] as i64;
                        while y <= max[1] as i64
                            invariant
                                whole == *self,
                                whole == (Predicate::VolumeMatch {
                                    min: *min,
                                    max: *max,
                                    matches: *matches,
                                }),
                                decreases_to!(whole => whole->matches),
                                m == **matches,
                                v == *volume,
                                nx == max[0] - min[0] + 1,
                                nz == max[2] - min[2] + 1,
                                ny == max[1] - min[1] + 1,
                                min[0] <= x <= max[0],
                                xi == x,
                                min[2] <= z <= max[2],
                                zi == z,
                                min[1] <= y,
                                y <= max[1] + 1 || y == min[1],
                                slabs_hold(m, v, pos, *min, *max, x - min[0]),
                                rows_hold(m, v, pos, *min, *max, xi, z - min[2]),
                                cells_hold(m, v, pos, *min, xi, zi, y - min[1]),
                            decreases max[1] + 1 - y,
                        {
                            let yi = y as i32;
                            let at = move_by(pos, xi, yi, zi);
                            if !matches.test(volume, at) {
                                proof {
                                    if cells_hold(m, v, pos, *min, xi, zi, ny) {
                                        lemma_cells_prefix(m, v, pos, *min, xi, zi, y - min[1] + 1, ny);
                                    }
                                    if rows_hold(m, v, pos, *min, *max, xi, nz) {
                                        lemma_rows_prefix(m, v, pos, *min, *max, xi, z - min[2] + 1, nz);
                                    }
                                    if slabs_hold(m, v, pos, *min, *max, nx) {
                                        lemma_slabs_prefix(m, v, pos, *min, *max, x - min[0] + 1, nx);
                                    }
                                }
                                return false;
                            }
                            y += 1;
                        }
                        proof {
                            assert((min[2] + (z - min[2] + 1) - 1) as i32 == zi);
                            assert(cells_hold(m, v, pos, *min, xi, zi, ny));
                        }
                        z += 1;
                    }
                    proof {
                        assert((min[0] + (x - min[0] + 1) - 1) as i32 == xi);
                        assert(rows_hold(m, v, pos, *min, *max, xi, nz));
                    }
                    x += 1;
                }
                assert(slabs_hold(m, v, pos, *min, *max, nx));
                true
            },
            Predicate::AnyOf(predicates) => {
                let ghost whole = *self;
                let ghost v = *volume;
                proof {
                    assert(decreases_to!(whole => whole->AnyOf_0));
                    assert(decreases_to!(*predicates => predicates@));
                }
                let mut i: usize = 0;
                while i < predicates.len()
                    invariant
                        whole == *self,
                        whole == Predicate::AnyOf(*predicates),
                        decreases_to!(whole => predicates@),
                        v == *volume,
                        i <= predicates@.len(),
                        !any_holds(predicates@, v, pos, i as int),
                    decreases predicates@.len() - i,
                {
                    proof {
                        assert(decreases_to!(predicates@ => predicates@[i as int]));
                    }
                    if predicates[i].test(volume, pos) {
                        proof {
                            lemma_any_grows(predicates@, v, pos, i + 1, predicates@.len() as int);
                        }
                        return true;
                    }
                    i += 1;
                }
                false
            },
            Predicate::AllOf(predicates) => {
                let ghost whole = *self;
                let ghost v = *volume;
                proof {
                    assert(decreases_to!(whole => whole->AllOf_0));
                    assert(decreases_to!(*predicates => predicates@));
                }
                let mut i: usize = 0;
                while i < predicates.len()
                    invariant
                        whole == *self,
                        whole == Predicate::AllOf(*predicates),
                        decreases_to!(whole => predicates@),
                        v == *volume,
                        i <= predicates@.len(),
                        all_hold(predicates@, v, pos, i as int),
                    decreases predicates@.len() - i,
                {
                    proof {
                        assert(decreases_to!(predicates@ => predicates@[i as int]));
                    }
                    if !predicates[i].test(volume, pos) {
                        proof {
                            if all_hold(predicates@, v, pos, predicates@.len() as int) {
                                lemma_all_prefix(predicates@, v, pos, i + 1, predicates@.len() as int);
                            }
                        }
                        return false;
                    }
                    i += 1;
                }
                true
            },
            Predicate::Not(inner) => !inner.test(volume, pos),
        }
    }
}

proof fn lemma_any_exists<V: WorldGenVolume>(ps: Seq<Predicate>, volume: V, pos: Vec3i, n: int)
    requires
        0 <= n <= ps.len(),
    ensures
        any_holds(ps, volume, pos, n) <==> exists|i: int| 0 <= i < n && #[trigger] holds(ps[i], volume, pos),
    decreases n,
{
    if n > 0 {
        lemma_any_exists(ps, volume, pos, n - 1);
        if holds(ps[n - 1], volume, pos) {
            assert(exists|i: int| 0 <= i < n && #[trigger] holds(ps[i], volume, pos));
        }
        if exists|i: int| 0 <= i < n && #[trigger] holds(ps[i], volume, pos) {
            let i = choose|i: int| 0 <= i < n && #[trigger] holds(ps[i], volume, pos);
            if i < n - 1 {
                assert(exists|i: int| 0 <= i < n - 1 && #[trigger] holds(ps[i], volume, pos));
            }
        }
    }
}

proof fn lemma_all_forall<V: WorldGenVolume>(ps: Seq<Predicate>, volume: V, pos: Vec3i, n: int)
    requires
        0 <= n <= ps.len(),
    ensures
        all_hold(ps, volume, pos, n) <==> forall|i: int| 0 <= i < n ==> #[trigger] holds(ps[i], volume, pos),
    decreases n,
{
    if n > 0 {
        lemma_all_forall(ps, volume, pos, n - 1);
        if forall|i: int| 0 <= i < n ==> #[trigger] holds(ps[i], volume, pos) {
            assert(holds(ps[n - 1], volume, pos));
        }
    }
}

proof fn lemma_cells_forall<V: WorldGenVolume>(
    m: Predicate,
    volume: V,
    pos: Vec3i,
    min: [i32; 3],
    x: i32,
    z: i32,
    n: int,
)
    requires
        0 <= n,
        min[1] + n - 1 <= i32::MAX,
    ensures
        cells_hold(m, volume, pos, min, x, z, n) <==> forall|y: i32|
            min[1] <= y < min[1] + n ==> #[trigger] holds(m, volume, moved(pos, x, y, z)),
    decreases n,
{
    if n > 0 {
        lemma_cells_forall(m, volume, pos, min, x, z, n - 1);
        let top = (min[1] + n - 1) as i32;
        assert(top == min[1] + n - 1);
        if forall|y: i32| min[1] <= y < min[1] + n ==> #[trigger] holds(m, volume, moved(pos, x, y, z)) {
            assert(holds(m, volume, moved(pos, x, top, z)));
        }
        if cells_hold(m, volume, pos, min, x, z, n) {
            assert forall|y: i32| min[1] <= y < min[1] + n implies #[trigger] holds(m, volume, moved(pos, x, y, z)) by {
                if y == top {
                } else {
                    assert(min[1] <= y < min[1] + n - 1);
                }
            }
        }
    }
}

proof fn lemma_rows_forall<V: WorldGenVolume>(
    m: Predicate,
    volume: V,
    pos: Vec3i,
    min: [i32; 3],
    max: [i32; 3],
    x: i32,
    n: int,
)
    requires
        0 <= n,
        min[2] + n - 1 <= i32::MAX,
    ensures
        rows_hold(m, volume, pos, min, max, x, n) <==> forall|y: i32, z: i32|
            min[1] <= y <= max[1] && min[2] <= z < min[2] + n ==> #[trigger] holds(
                m,
                volume,
                moved(pos, x, y, z),
            ),
    decreases n,
{
    if n > 0 {
        lemma_rows_forall(m, volume, pos, min, max, x, n - 1);
        let top = (min[2] + n - 1) as i32;
        assert(top == min[2] + n - 1);
        let ny = max[1] - min[1] + 1;
        if ny > 0 {
            lemma_cells_forall(m, volume, pos, min, x, top, ny);
        }
        if forall|y: i32, z: i32|
            min[1] <= y <= max[1] && min[2] <= z < min[2] + n ==> #[trigger] holds(
                m,
                volume,
                moved(pos, x, y, z),
            ) {
            if ny > 0 {
                assert forall|y: i32| min[1] <= y < min[1] + ny implies #[trigger] holds(m, volume, moved(pos, x, y, top)) by {
                    assert(min[1] <= y <= max[1] && min[2] <= top < min[2] + n);
                }
            }
            assert(cells_hold(m, volume, pos, min, x, top, ny));
            assert forall|y: i32, z: i32|
                min[1] <= y <= max[1] && min[2] <= z < min[2] + n - 1 implies #[trigger] holds(
                    m,
                    volume,
                    moved(pos, x, y, z),
                ) by {
                assert(min[2] <= z < min[2] + n);
            }
            assert(rows_hold(m, volume, pos, min, max, x, n - 1));
            assert(rows_hold(m, volume, pos, min, max, x, n));
        }
        if rows_hold(m, volume, pos, min, max, x, n) {
            assert forall|y: i32, z: i32|
                min[1] <= y <= max[1] && min[2] <= z < min[2] + n implies #[trigger] holds(
                    m,
                    volume,
                    moved(pos, x, y, z),
                ) by {
                if z == top {
                    assert(min[1] <= y < min[1] + ny);
                } else {
                    assert(min[2] <= z < min[2] + n - 1);
                }
            }
        }
    }
}

#[verifier::spinoff_prover]
proof fn lemma_slabs_forall<V: WorldGenVolume>(
    m: Predicate,
    volume: V,
    pos: Vec3i,
    min: [i32; 3],
    max: [i32; 3],
    n: int,
)
    requires
        0 <= n,
        min[0] + n - 1 <= i32::MAX,
    ensures
        slabs_hold(m, volume, pos, min, max, n) <==> forall|x: i32, y: i32, z: i32|
            min[0] <= x < min[0] + n && min[1] <= y <= max[1] && min[2] <= z <= max[2]
                ==> #[trigger] holds(m, volume, moved(pos, x, y, z)),
    decreases n,
{
    if n > 0 {
        lemma_slabs_forall(m, volume, pos, min, max, n - 1);
        let top = (min[0] + n - 1) as i32;
        assert(top == min[0] + n - 1);
        let nz = max[2] - min[2] + 1;
        if nz > 0 {
            lemma_rows_forall(m, volume, pos, min, max, top, nz);
        }
        if forall|x: i32, y: i32, z: i32|
            min[0] <= x < min[0] + n && min[1] <= y <= max[1] && min[2] <= z <= max[2]
                ==> #[trigger] holds(m, volume, moved(pos, x, y, z)) {
            if nz > 0 {
                assert forall|y: i32, z: i32|
                    min[1] <= y <= max[1] && min[2] <= z < min[2] + nz implies #[trigger] holds(
                        m,
                        volume,
                        moved(pos, top, y, z),
                    ) by {
                    assert(min[0] <= top < min[0] + n);
                }
            }
        }
        if slabs_hold(m, volume, pos, min, max, n) {
            assert forall|x: i32, y: i32, z: i32|
                min[0] <= x < min[0] + n && min[1] <= y <= max[1] && min[2] <= z <= max[2]
                    implies #[trigger] holds(m, volume, moved(pos, x, y, z)) by {
                if x == top {
                    assert(min[2] <= z < min[2] + nz);
                } else {
                    assert(min[0] <= x < min[0] + n - 1);
                }
            }
        }
    }
}

/// A list of predicates holds where any of them (`AnyOf`), or each of them
/// (`AllOf`), holds; a volume match holds where its predicate holds at every
/// cell of its box, which an empty box has none of.
pub proof fn lemma_holds_quantified<V: WorldGenVolume>(predicate: Predicate, volume: V, pos: Vec3i)
    ensures
        match predicate {
            Predicate::AnyOf(ps) => holds(predicate, volume, pos) <==> exists|i: int|
                0 <= i < ps@.len() && #[trigger] holds(ps@[i], volume, pos),
            Predicate::AllOf(ps) => holds(predicate, volume, pos) <==> forall|i: int|
                0 <= i < ps@.len() ==> #[trigger] holds(ps@[i], volume, pos),
            Predicate::VolumeMatch { min, max, matches } => holds(predicate, volume, pos)
                <==> forall|x: i32, y: i32, z: i32|
                min[0] <= x <= max[0] && min[1] <= y <= max[1] && min[2] <= z <= max[2]
                    ==> #[trigger] holds(*matches, volume, moved(pos, x, y, z)),
            _ => true,
        },
{
    match predicate {
        Predicate::AnyOf(ps) => lemma_any_exists(ps@, volume, pos, ps@.len() as int),
        Predicate::AllOf(ps) => lemma_all_forall(ps@, volume, pos, ps@.len() as int),
        Predicate::VolumeMatch { min, max, matches } => {
            if max[0] - min[0] + 1 > 0 {
                lemma_slabs_forall(*matches, volume, pos, min, max, max[0] - min[0] + 1);
            }
        },
        _ => {},
    }
}

/// What each leaf predicate tests at `pos`: a state predicate the state at
/// `pos` moved by its offset, coordinate by coordinate in wrapping 32-bit
/// arithmetic; a biome predicate the biome at `pos`; a survival predicate
/// whether its state survives at `pos` moved by its offset; the world-bounds
/// predicate whether `pos` moved up by its offset lies in the world's
/// height; a height range whether `pos` lies between its two anchors; and a
/// negation whether its predicate fails.
pub proof fn lemma_predicate_meaning<V: WorldGenVolume>(predicate: Predicate, volume: V, pos: Vec3i)
    ensures
        match predicate {
            Predicate::True => holds(predicate, volume, pos),
            Predicate::MatchingStates { offset, states } => holds(predicate, volume, pos) <==> bitset_bits(
                *states,
            ).contains(
                volume.state_at(
                    Vec3i {
                        x: i32_specs::wrapping_add(pos.x, offset.x),
                        y: i32_specs::wrapping_add(pos.y, offset.y),
                        z: i32_specs::wrapping_add(pos.z, offset.z),
                    },
                ) as usize,
            ),
            Predicate::MatchingBiomes(biomes) => holds(predicate, volume, pos) <==> bitset_bits(
                *biomes,
            ).contains(volume.biome_at(pos) as usize),
            Predicate::WouldSurvive { offset, state } => holds(predicate, volume, pos) <==> volume.survives_at(
                state,
                Vec3i {
                    x: i32_specs::wrapping_add(pos.x, offset.x),
                    y: i32_specs::wrapping_add(pos.y, offset.y),
                    z: i32_specs::wrapping_add(pos.z, offset.z),
                },
            ),
            Predicate::InsideWorldBounds { offset_y } => holds(predicate, volume, pos) <==> (
            volume.extent_of().min_y <= i32_specs::wrapping_add(pos.y, offset_y) < volume.extent_of().min_y
                + volume.extent_of().depth),
            Predicate::HeightRange { min_inclusive, max_inclusive } => holds(predicate, volume, pos) <==> (
            anchor_y(min_inclusive, volume.extent_of()) <= pos.y <= anchor_y(
                max_inclusive,
                volume.extent_of(),
            )),
            Predicate::Not(inner) => holds(predicate, volume, pos) <==> !holds(*inner, volume, pos),
            _ => true,
        },
{
}

// ---------------------------------------------------------------------------
// Environment scan
// ---------------------------------------------------------------------------
/// Whether the scan may walk through `pos`: always, unless a search
/// condition is given and fails there.
pub open spec fn scan_allows<V: WorldGenVolume>(allowed: Option<Predicate>, volume: V, pos: Vec3i) -> bool {
    match allowed {
        Some(condition) => holds(condition, volume, pos),
        None => true,
    }
}

/// Where a scan from `pos` with `n` steps left stops: on the first position
/// the target holds at; nowhere once it leaves the world; and once the
/// search condition fails, on that position if the target holds there.
pub open spec fn scan_walk<V: WorldGenVolume>(
    target: Predicate,
    allowed: Option<Predicate>,
    volume: V,
    pos: Vec3i,
    step: int,
    n: int,
) -> Option<Vec3i>
    decreases n,
{
    if holds(target, volume, pos) {
        Some(pos)
    } else if n <= 0 {
        None
    } else {
        let extent = volume.extent_of();
        let y = pos.y + step;
        if !(extent.min_y <= y < extent.min_y + extent.depth) {
            None
        } else {
            let next = Vec3i { x: pos.x, y: y as i32, z: pos.z };
            if !scan_allows(allowed, volume, next) {
                if holds(target, volume, next) {
                    Some(next)
                } else {
                    None
                }
            } else {
                scan_walk(target, allowed, volume, next, step, n - 1)
            }
        }
    }
}

/// The position `j` blocks along a scan from `pos`, `step` being 1 up or -1
/// down.
pub open spec fn scan_at(pos: Vec3i, step: int, j: int) -> Vec3i {
    Vec3i { x: pos.x, y: (pos.y + step * j) as i32, z: pos.z }
}

/// Whether a height lies inside the world's vertical bounds.
pub open spec fn in_world_height(extent: HeightContext, y: int) -> bool {
    extent.min_y <= y < extent.min_y + extent.depth
}

/// Whether a scan may walk through a position: the search condition, if
/// any, holds there.
pub open spec fn walk_allowed<V: WorldGenVolume>(allowed: Option<Predicate>, volume: V, p: Vec3i) -> bool {
    match allowed {
        Some(condition) => holds(condition, volume, p),
        None => true,
    }
}

/// A scan finds, at most `n` blocks along its direction, the first position
/// where the target holds, reached through positions inside the world that
/// the search condition allows (the position found need not be allowed);
/// where it finds none, the target holds at no position it could reach.
pub proof fn lemma_scan_walk_meaning<V: WorldGenVolume>(
    target: Predicate,
    allowed: Option<Predicate>,
    volume: V,
    pos: Vec3i,
    step: int,
    n: int,
)
    requires
        step == 1 || step == -1,
        volume.extent_of().min_y + volume.extent_of().depth <= i32::MAX + 1,
    ensures
        match scan_walk(target, allowed, volume, pos, step, n) {
            Some(p) => exists|k: int|
                0 <= k && (k == 0 || k <= n) && p == #[trigger] scan_at(pos, step, k) && holds(target, volume, p)
                    && (k > 0 ==> in_world_height(volume.extent_of(), pos.y + step * k)) && (forall|j: int|
                    0 <= j < k ==> !holds(target, volume, #[trigger] scan_at(pos, step, j))) && (forall|j: int|
                    0 < j < k ==> in_world_height(volume.extent_of(), pos.y + step * j) && walk_allowed(
                        allowed,
                        volume,
                        #[trigger] scan_at(pos, step, j),
                    )),
            None => forall|k: int|
                0 <= k <= n && (forall|j: int|
                    0 < j <= k ==> in_world_height(volume.extent_of(), pos.y + step * j) && walk_allowed(
                        allowed,
                        volume,
                        #[trigger] scan_at(pos, step, j),
                    )) ==> !holds(target, volume, #[trigger] scan_at(pos, step, k)),
        },
    decreases n,
{
    assert(scan_at(pos, step, 0) == pos);
    if holds(target, volume, pos) {
        assert(scan_at(pos, step, 0) == pos);
    } else if n <= 0 {
        assert forall|k: int|
            0 <= k <= n && (forall|j: int|
                0 < j <= k ==> in_world_height(volume.extent_of(), pos.y + step * j) && walk_allowed(
                    allowed,
                    volume,
                    #[trigger] scan_at(pos, step, j),
                )) implies !holds(target, volume, #[trigger] scan_at(pos, step, k)) by {
            assert(k == 0);
        }
    } else {
        let extent = volume.extent_of();
        let y = pos.y + step;
        if !(extent.min_y <= y < extent.min_y + extent.depth) {
            assert forall|k: int|
                0 <= k <= n && (forall|j: int|
                    0 < j <= k ==> in_world_height(volume.extent_of(), pos.y + step * j) && walk_allowed(
                        allowed,
                        volume,
                        #[trigger] scan_at(pos, step, j),
                    )) implies !holds(target, volume, #[trigger] scan_at(pos, step, k)) by {
                if k > 0 {
                    let s1 = scan_at(pos, step, 1);
                    assert(in_world_height(volume.extent_of(), pos.y + step * 1));
                    assert(pos.y + step * 1 == y);
                }
            }
        } else {
            let next = Vec3i { x: pos.x, y: y as i32, z: pos.z };
            assert(next == scan_at(pos, step, 1));
            assert(walk_allowed(allowed, volume, next) == scan_allows(allowed, volume, next));
            if !scan_allows(allowed, volume, next) {
                if holds(target, volume, next) {
                    assert forall|j: int| 0 <= j < 1 implies !holds(target, volume, #[trigger] scan_at(pos, step, j)) by {}
                } else {
                    assert forall|k: int|
                        0 <= k <= n && (forall|j: int|
                            0 < j <= k ==> in_world_height(volume.extent_of(), pos.y + step * j) && walk_allowed(
                                allowed,
                                volume,
                                #[trigger] scan_at(pos, step, j),
                            )) implies !holds(target, volume, #[trigger] scan_at(pos, step, k)) by {
                        if k > 1 {
                            assert(walk_allowed(allowed, volume, scan_at(pos, step, 1)));
                        }
                    }
                }
            } else {
                lemma_scan_walk_meaning(target, allowed, volume, next, step, n - 1);
                assert forall|j: int| #[trigger] scan_at(next, step, j) == scan_at(pos, step, j + 1) by {
                    assert(next.y + step * j == pos.y + step * (j + 1)) by (nonlinear_arith)
                        requires
                            next.y == pos.y + step,
                    ;
                }
                assert(next.y == pos.y + step);
                match scan_walk(target, allowed, volume, next, step, n - 1) {
                    Some(p) => {
                        let k = choose|k: int|
                            0 <= k && (k == 0 || k <= n - 1) && p == #[trigger] scan_at(next, step, k) && holds(
                                target,
                                volume,
                                p,
                            ) && (k > 0 ==> in_world_height(volume.extent_of(), next.y + step * k)) && (forall|
                                j: int,
                            |
                                0 <= j < k ==> !holds(target, volume, #[trigger] scan_at(next, step, j)))
                                && (forall|j: int|
                                0 < j < k ==> in_world_height(volume.extent_of(), next.y + step * j)
                                    && walk_allowed(allowed, volume, #[trigger] scan_at(next, step, j)));
                        assert(p == scan_at(pos, step, k + 1));
                        assert forall|j: int| 0 <= j < k + 1 implies !holds(
                            target,
                            volume,
                            #[trigger] scan_at(pos, step, j),
                        ) by {
                            if j > 0 {
                                assert(scan_at(pos, step, j) == scan_at(next, step, j - 1));
                            }
                        }
                        assert forall|j: int| 0 < j < k + 1 implies in_world_height(
                            volume.extent_of(),
                            pos.y + step * j,
                        ) && walk_allowed(allowed, volume, #[trigger] scan_at(pos, step, j)) by {
                            if j > 1 {
                                assert(scan_at(pos, step, j) == scan_at(next, step, j - 1));
                                assert(next.y + step * (j - 1) == pos.y + step * j) by (nonlinear_arith)
                                    requires
                                        next.y == pos.y + step,
                                ;
                            }
                        }
                    },
                    None => {
                        assert forall|k: int|
                            0 <= k <= n && (forall|j: int|
                                0 < j <= k ==> in_world_height(volume.extent_of(), pos.y + step * j)
                                    && walk_allowed(allowed, volume, #[trigger] scan_at(pos, step, j)))
                                implies !holds(target, volume, #[trigger] scan_at(pos, step, k)) by {
                            if k > 0 {
                                assert forall|j: int|
                                    0 < j <= k - 1 implies in_world_height(
                                    volume.extent_of(),
                                    next.y + step * j,
                                ) && walk_allowed(allowed, volume, #[trigger] scan_at(next, step, j)) by {
                                    assert(scan_at(next, step, j) == scan_at(pos, step, j + 1));
                                    assert(next.y + step * j == pos.y + step * (j + 1)) by (nonlinear_arith)
                                        requires
                                            next.y == pos.y + step,
                                    ;
                                }
                                assert(scan_at(pos, step, k) == scan_at(next, step, k - 1));
                            }
                        }
                    },
                }
            }
        }
    }
}

/// `EnvironmentScanPlacement`: from `origin`, if the search condition allows
/// it, the first position at most `max_steps` blocks up or down where the
/// target holds, walking only through the world and what the search
/// condition allows.
pub fn environment_scan<V: WorldGenVolume>(
    volume: &V,
    origin: Vec3i,
    direction: VerticalDirection,
    target: &Predicate,
    allowed: &Option<Predicate>,
    max_steps: i32,
) -> (res: Option<Vec3i>)
    ensures
        res == if !scan_allows(*allowed, *volume, origin) {
            None
        } else {
            scan_walk(
                *target,
                *allowed,
                *volume,
                origin,
                match direction {
                    VerticalDirection::Up => 1int,
                    VerticalDirection::Down => -1int,
                },
                max_steps as int,
            )
        },
{
    let permitted = match allowed {
        Some(condition) => condition.test(volume, origin),
        None => true,
    };
    if !permitted {
        return None;
    }
    let step: i64 = match direction {
        VerticalDirection::Up => 1,
        VerticalDirection::Down => -1,
    };
    let extent = volume.extent();
    let ghost whole = scan_walk(*target, *allowed, *volume, origin, step as int, max_steps as int);
    let mut pos = origin;
    let mut taken: i32 = 0;
    while taken < max_steps
        invariant
            0 <= taken <= max_steps || (max_steps < 0 && taken == 0),
            extent == volume.extent_of(),
            step == (match direction {
                VerticalDirection::Up => 1int,
                VerticalDirection::Down => -1int,
            }),
            scan_allows(*allowed, *volume, origin),
            whole == scan_walk(*target, *allowed, *volume, origin, step as int, max_steps as int),
            whole == scan_walk(*target, *allowed, *volume, pos, step as int, max_steps - taken),
        decreases max_steps - taken,
    {
        if target.test(volume, pos) {
            return Some(pos);
        }
        let y = pos.y as i64 + step;
        if !((extent.min_y as i64) <= y && y < (extent.min_y as i64) + (extent.depth as i64)) {
            return None;
        }
        pos = Vec3i { x: pos.x, y: y as i32, z: pos.z };
        let permitted = match allowed {
            Some(condition) => condition.test(volume, pos),
            None => true,
        };
        if !permitted {
            if target.test(volume, pos) {
                return Some(pos);
            }
            return None;
        }
        taken += 1;
    }
    if target.test(volume, pos) {
        Some(pos)
    } else {
        None
    }
}

// ---------------------------------------------------------------------------
// Rule tests
// ---------------------------------------------------------------------------
/// A `RuleTest` with every block, block state and tag it names reduced to a
/// mask. The chance of a random test is kept as the bits of its `f32`.
pub enum Rule {
    AlwaysTrue,
    MatchingStates(StateMask),
    HeightMatch { min_inclusive: i32, max_inclusive: i32 },
    /// The membership test short-circuits the draw: a state outside the mask
    /// never draws.
    RandomStates { states: StateMask, probability: u32 },
    AllOf(Vec<Rule>),
    AnyOf(Vec<Rule>),
    Not(Box<Rule>),
}

/// How far a rule test got on the draws it was given: to its answer, having
/// used the first `used` of them, or to a random test that needs the next
/// draw, a float below the chance whose bits are `probability`.
#[derive(Clone, Copy, Debug, PartialEq, Eq, Structural)]
pub enum RuleStep {
    Done { holds: bool, used: usize },
    Draw { probability: u32 },
}

/// The test of `rule` on `state` at height `y`, reading its draws' outcomes
/// from `draws[used..]`.
pub open spec fn rule_walk(rule: Rule, state: VoxelId, y: i32, draws: Seq<bool>, used: int) -> RuleStep
    decreases rule, 0int, 0int,
{
    match rule {
        Rule::AlwaysTrue => RuleStep::Done { holds: true, used: used as usize },
        Rule::MatchingStates(states) => RuleStep::Done {
            holds: bitset_bits(*states).contains(state as usize),
            used: used as usize,
        },
        Rule::HeightMatch { min_inclusive, max_inclusive } => RuleStep::Done {
            holds: min_inclusive <= y <= max_inclusive,
            used: used as usize,
        },
        Rule::RandomStates { states, probability } => if !bitset_bits(*states).contains(
            state as usize,
        ) {
            RuleStep::Done { holds: false, used: used as usize }
        } else if 0 <= used < draws.len() {
            RuleStep::Done { holds: draws[used], used: (used + 1) as usize }
        } else {
            RuleStep::Draw { probability }
        },
        Rule::AllOf(rules) => rules_walk(rules@, true, state, y, draws, used, 0),
        Rule::AnyOf(rules) => rules_walk(rules@, false, state, y, draws, used, 0),
        Rule::Not(inner) => match rule_walk(*inner, state, y, draws, used) {
            RuleStep::Done { holds, used } => RuleStep::Done { holds: !holds, used },
            step => step,
        },
    }
}

/// A list of rules from the `k`-th on: all must hold (`all`) or one must;
/// the first rule that decides the list ends the walk.
pub open spec fn rules_walk(
    rules: Seq<Rule>,
    all: bool,
    state: VoxelId,
    y: i32,
    draws: Seq<bool>,
    used: int,
    k: int,
) -> RuleStep
    decreases rules, 0int, rules.len() - k,
{
    if k < 0 || k >= rules.len() {
        RuleStep::Done { holds: all, used: used as usize }
    } else {
        match rule_walk(rules[k], state, y, draws, used) {
            RuleStep::Done { holds, used: next } => if holds != all {
                RuleStep::Done { holds, used: next }
            } else {
                rules_walk(rules, all, state, y, draws, next as int, k + 1)
            },
            step => step,
        }
    }
}

/// A rule never uses more draws than it was given.
proof fn lemma_rule_walk_used(rule: Rule, state: VoxelId, y: i32, draws: Seq<bool>, used: int)
    requires
        0 <= used <= draws.len() <= usize::MAX,
    ensures
        rule_walk(rule, state, y, draws, used) matches RuleStep::Done { used: next, .. } ==> used
            <= next <= draws.len(),
    decreases rule, 0int, 0int,
{
    match rule {
        Rule::AllOf(rules) => {
            assert(decreases_to!(rule => rule->AllOf_0));
            lemma_rules_walk_used(rules@, true, state, y, draws, used, 0);
        },
        Rule::AnyOf(rules) => {
            assert(decreases_to!(rule => rule->AnyOf_0));
            lemma_rules_walk_used(rules@, false, state, y, draws, used, 0);
        },
        Rule::Not(inner) => {
            lemma_rule_walk_used(*inner, state, y, draws, used);
        },
        _ => {},
    }
}

proof fn lemma_rules_walk_used(
    rules: Seq<Rule>,
    all: bool,
    state: VoxelId,
    y: i32,
    draws: Seq<bool>,
    used: int,
    k: int,
)
    requires
        0 <= used <= draws.len() <= usize::MAX,
    ensures
        rules_walk(rules, all, state, y, draws, used, k) matches RuleStep::Done { used: next, .. } ==> used
            <= next <= draws.len(),
    decreases rules, 0int, rules.len() - k,
{
    if 0 <= k < rules.len() {
        lemma_rule_walk_used(rules[k], state, y, draws, used);
        match rule_walk(rules[k], state, y, draws, used) {
            RuleStep::Done { holds, used: next } => {
                if holds == all {
                    lemma_rules_walk_used(rules, all, state, y, draws, next as int, k + 1);
                }
            },
            _ => {},
        }
    }
}

/// A rule test that finished on the draws it was given finishes the same
/// way given more: the draws past those it used are never read, so asking
/// again with each draw it requests appended replays the same walk.
pub proof fn lemma_rule_walk_prefix(
    rule: Rule,
    state: VoxelId,
    y: i32,
    draws: Seq<bool>,
    more: Seq<bool>,
    used: int,
)
    requires
        0 <= used <= draws.len() <= usize::MAX,
        rule_walk(rule, state, y, draws, used) is Done,
    ensures
        rule_walk(rule, state, y, draws + more, used) == rule_walk(rule, state, y, draws, used),
    decreases rule, 0int, 0int,
{
    match rule {
        Rule::RandomStates { .. } => {
            if used < draws.len() {
                assert((draws + more)[used] == draws[used]);
            }
        },
        Rule::AllOf(rules) => {
            assert(decreases_to!(rule => rule->AllOf_0));
            lemma_rules_walk_prefix(rules@, true, state, y, draws, more, used, 0);
        },
        Rule::AnyOf(rules) => {
            assert(decreases_to!(rule => rule->AnyOf_0));
            lemma_rules_walk_prefix(rules@, false, state, y, draws, more, used, 0);
        },
        Rule::Not(inner) => {
            lemma_rule_walk_prefix(*inner, state, y, draws, more, used);
        },
        _ => {},
    }
}

proof fn lemma_rules_walk_prefix(
    rules: Seq<Rule>,
    all: bool,
    state: VoxelId,
    y: i32,
    draws: Seq<bool>,
    more: Seq<bool>,
    used: int,
    k: int,
)
    requires
        0 <= used <= draws.len() <= usize::MAX,
        rules_walk(rules, all, state, y, draws, used, k) is Done,
    ensures
        rules_walk(rules, all, state, y, draws + more, used, k) == rules_walk(
            rules,
            all,
            state,
            y,
            draws,
            used,
            k,
        ),
    decreases rules, 0int, rules.len() - k,
{
    if 0 <= k < rules.len() {
        let first = rule_walk(rules[k], state, y, draws, used);
        if first is Done {
            lemma_rule_walk_prefix(rules[k], state, y, draws, more, used);
            if first->holds == all {
                lemma_rule_walk_used(rules[k], state, y, draws, used);
                lemma_rules_walk_prefix(rules, all, state, y, draws, more, first->used as int, k + 1);
            }
        }
    }
}

impl Rule {
    /// The test of the rule on `state` at height `y`, each random test that
    /// is reached reading the outcome of the next of `draws` from `used` on;
    /// where the draws run out, the chance the next draw is compared with.
    pub fn test(&self, state: VoxelId, y: i32, draws: &[bool], used: usize) -> (step: RuleStep)
        requires
            used <= draws@.len(),
        ensures
            step == rule_walk(*self, state, y, draws@, used as int),
        decreases self,
    {
        let count: usize = draws.len();
        proof {
            lemma_rule_walk_used(*self, state, y, draws@, used as int);
        }
        match self {
            Rule::AlwaysTrue => RuleStep::Done { holds: true, used },
            Rule::MatchingStates(states) => RuleStep::Done {
                holds: bitset_contains(states, state as usize),
                used,
            },
            Rule::HeightMatch { min_inclusive, max_inclusive } => RuleStep::Done {
                holds: *min_inclusive <= y && y <= *max_inclusive,
                used,
            },
            Rule::RandomStates { states, probability } => {
                if !bitset_contains(states, state as usize) {
                    RuleStep::Done { holds: false, used }
                } else if used < count {
                    RuleStep::Done { holds: draws[used], used: used + 1 }
                } else {
                    RuleStep::Draw { probability: *probability }
                }
            },
            Rule::AllOf(rules) => Self::test_list(rules, true, state, y, draws, used),
            Rule::AnyOf(rules) => Self::test_list(rules, false, state, y, draws, used),
            Rule::Not(inner) => match inner.test(state, y, draws, used) {
                RuleStep::Done { holds, used } => RuleStep::Done { holds: !holds, used },
                step => step,
            },
        }
    }

    fn test_list(rules: &Vec<Rule>, all: bool, state: VoxelId, y: i32, draws: &[bool], used: usize) -> (step:
        RuleStep)
        requires
            used <= draws@.len(),
        ensures
            step == rules_walk(rules@, all, state, y, draws@, used as int, 0),
        decreases rules@, 1int,
    {
        let ghost whole = rules_walk(rules@, all, state, y, draws@, used as int, 0);
        let count: usize = draws.len();
        let mut at = used;
        let mut k: usize = 0;
        while k < rules.len()
            invariant
                count == draws@.len(),
                k <= rules@.len(),
                at <= draws@.len(),
                whole == rules_walk(rules@, all, state, y, draws@, used as int, 0),
                whole == rules_walk(rules@, all, state, y, draws@, at as int, k as int),
            decreases rules@.len() - k,
        {
            proof {
                assert(decreases_to!(rules@ => rules@[k as int]));
                lemma_rule_walk_used(rules@[k as int], state, y, draws@, at as int);
            }
            match rules[k].test(state, y, draws, at) {
                RuleStep::Done { holds, used: next } => {
                    if holds != all {
                        return RuleStep::Done { holds, used: next };
                    }
                    at = next;
                },
                step => {
                    return step;
                },
            }
            k += 1;
        }
        RuleStep::Done { holds: all, used: at }
    }
}

} // verus!
