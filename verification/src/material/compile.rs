use crate::material::proto::{
    anchor_y, biome_set_ids, BiomeSet, BlockStateId, CaveSurface, DensityNode, HeightContext,
    MaterialCondition, MaterialConditionHolder, MaterialRule, MaterialRuleHolder, NameId,
    VoxelId,
};
use crate::proto::NoiseSettings;
use vstd::prelude::*;

verus! {

pub type CondId = u32;

pub type NoiseId = u32;

pub type BiomeSetId = u32;

pub type VeinId = u32;

pub type RandomId = u32;

/// How many entries the clay band table of the `bandlands` rule has.
pub const CLAY_BAND_COUNT: usize = 192;

/// One instruction of the flattened rule tape.
#[derive(Clone, Copy, Debug, PartialEq, Eq, Structural)]
pub enum Op {
    /// Go on with the next instruction if the condition holds, else jump.
    Guard { condition: CondId, skip_to: u32 },
    Block { state: VoxelId },
    Bandlands,
    OreVein { vein: VeinId },
}

/// How long a condition's answer stays valid: for the whole column, or for one y.
#[derive(Clone, Copy, Debug, PartialEq, Eq, Structural)]
pub enum Scope {
    Xz,
    Y,
}

/// A compiled condition. `min` and `max` of a noise threshold hold the bits
/// of the `f64` bounds; anchors are resolved to heights.
#[derive(Clone, Copy, Debug, PartialEq, Eq, Structural)]
pub enum Condition {
    StoneDepth {
        offset: i32,
        add_surface_depth: bool,
        secondary_depth_range: i32,
        ceiling: bool,
    },
    Water { offset: i32, surface_depth_multiplier: i32, add_stone_depth: bool },
    YAbove { anchor: i32, surface_depth_multiplier: i32, add_stone_depth: bool },
    Biome { set: BiomeSetId },
    NoiseThreshold { noise: NoiseId, min: u64, max: u64, is_3d: bool },
    VerticalGradient { random: RandomId, true_at_and_below: i32, false_at_and_above: i32 },
    Steep,
    Hole,
    AbovePreliminarySurface,
    Not(CondId),
}

#[derive(Clone, Copy, Debug, PartialEq, Eq, Structural)]
pub struct CompiledCondition {
    pub kind: Condition,
    pub scope: Scope,
}

/// An ore vein rule. `density`, `richness` and `filler_gap` are indices into
/// the roots the compilation registered, never raw nodes. `raw_ore_chance`
/// holds the bits of the `f64` chance.
#[derive(Clone, Copy, Debug, PartialEq, Eq, Structural)]
pub struct OreVein {
    pub ore: VoxelId,
    pub raw_ore: VoxelId,
    pub filler: VoxelId,
    pub raw_ore_chance: u64,
    pub density: usize,
    pub richness: usize,
    pub filler_gap: usize,
    pub random: RandomId,
}

/// How a biome condition answers over a set of biomes.
#[derive(Clone, Copy, Debug, PartialEq, Eq, Structural)]
pub enum Tri {
    Never,
    Maybe,
    Always,
}

/// The nine noises the surface stage samples outside the density graph.
#[derive(Clone, Copy, Debug, PartialEq, Eq, Structural)]
pub enum SurfaceNoise {
    Surface,
    SurfaceSecondary,
    ClayBandsOffset,
    BadlandsPillar,
    BadlandsPillarRoof,
    BadlandsSurface,
    IcebergPillar,
    IcebergPillarRoof,
    IcebergSurface,
}

/// The slot of a surface noise among the nine.
pub open spec fn surface_slot(noise: SurfaceNoise) -> int {
    match noise {
        SurfaceNoise::Surface => 0,
        SurfaceNoise::SurfaceSecondary => 1,
        SurfaceNoise::ClayBandsOffset => 2,
        SurfaceNoise::BadlandsPillar => 3,
        SurfaceNoise::BadlandsPillarRoof => 4,
        SurfaceNoise::BadlandsSurface => 5,
        SurfaceNoise::IcebergPillar => 6,
        SurfaceNoise::IcebergPillarRoof => 7,
        SurfaceNoise::IcebergSurface => 8,
    }
}

impl SurfaceNoise {
    pub fn slot(self) -> (slot: usize)
        ensures
            slot == surface_slot(self),
    {
        match self {
            SurfaceNoise::Surface => 0,
            SurfaceNoise::SurfaceSecondary => 1,
            SurfaceNoise::ClayBandsOffset => 2,
            SurfaceNoise::BadlandsPillar => 3,
            SurfaceNoise::BadlandsPillarRoof => 4,
            SurfaceNoise::BadlandsSurface => 5,
            SurfaceNoise::IcebergPillar => 6,
            SurfaceNoise::IcebergPillarRoof => 7,
            SurfaceNoise::IcebergSurface => 8,
        }
    }
}

// ---------------------------------------------------------------------------
// Biome masks
// ---------------------------------------------------------------------------
/// Whether bit `biome` is set in the words.
pub open spec fn mask_has(words: Seq<u64>, biome: u32) -> bool {
    let word = biome as int / 64;
    word < words.len() && (words[word] >> ((biome % 64) as u64)) & 1u64 != 0
}

/// A set of biome ids, one bit each.
#[derive(Clone, Debug, PartialEq, Eq)]
pub struct BiomeMask {
    words: Vec<u64>,
}

impl View for BiomeMask {
    type V = Set<u32>;

    closed spec fn view(&self) -> Set<u32> {
        Set::new(|biome: u32| mask_has(self.words@, biome))
    }
}

proof fn lemma_set_bit(x: u64, s: u64, t: u64)
    requires
        s < 64,
        t < 64,
    ensures
        ((x | (1u64 << s)) >> t) & 1u64 != 0 <==> ((x >> t) & 1u64 != 0 || t == s),
{
    assert(((x | (1u64 << s)) >> t) & 1u64 != 0 <==> ((x >> t) & 1u64 != 0 || t == s))
        by (bit_vector)
        requires
            s < 64,
            t < 64,
    ;
}

proof fn lemma_zero_word(t: u64)
    requires
        t < 64,
    ensures
        (0u64 >> t) & 1u64 == 0,
{
    assert((0u64 >> t) & 1u64 == 0) by (bit_vector);
}

impl BiomeMask {
    /// The mask of exactly the given ids.
    pub fn new(ids: &[u32]) -> (mask: BiomeMask)
        ensures
            mask@ == ids@.to_set(),
    {
        let mut words_len: usize = 0;
        let mut i: usize = 0;
        while i < ids.len()
            invariant
                i <= ids.len(),
                forall|j: int| 0 <= j < i ==> (ids@[j] as int) / 64 < words_len,
                words_len <= u32::MAX as int / 64 + 1,
            decreases ids.len() - i,
        {
            let need = (ids[i] / 64) as usize + 1;
            if need > words_len {
                words_len = need;
            }
            i += 1;
        }
        let mut words: Vec<u64> = Vec::new();
        while words.len() < words_len
            invariant
                words.len() <= words_len,
                forall|w: int| 0 <= w < words.len() ==> words@[w] == 0u64,
            decreases words_len - words.len(),
        {
            words.push(0u64);
        }
        assert forall|b: u32| !#[trigger] mask_has(words@, b) by {
            if (b as int / 64) < words@.len() {
                lemma_zero_word((b % 64) as u64);
            }
        }
        let mut k: usize = 0;
        while k < ids.len()
            invariant
                k <= ids.len(),
                words.len() == words_len,
                forall|j: int| 0 <= j < ids.len() ==> (ids@[j] as int) / 64 < words_len,
                forall|b: u32|
                    #[trigger] mask_has(words@, b) <==> exists|j: int|
                        0 <= j < k && ids@[j] == b,
            decreases ids.len() - k,
        {
            let id = ids[k];
            let w = (id / 64) as usize;
            let s = (id % 64) as u64;
            let ghost old_words = words@;
            let updated = words[w] | (1u64 << s);
            words.set(w, updated);
            assert forall|b: u32| #[trigger]
                mask_has(words@, b) == (mask_has(old_words, b) || b == id) by {
                let t = (b % 64) as u64;
                let bw = b as int / 64;
                if bw == w as int {
                    lemma_set_bit(old_words[bw], s, t);
                    assert((b == id) == (t == s));
                } else {
                    assert(b != id);
                }
            }
            assert forall|b: u32| #[trigger]
                mask_has(words@, b) <==> exists|j: int| 0 <= j < k + 1 && ids@[j] == b by {
                if b == id {
                    assert(ids@[k as int] == b);
                }
                if exists|j: int| 0 <= j < k + 1 && ids@[j] == b {
                    let j = choose|j: int| 0 <= j < k + 1 && ids@[j] == b;
                    if j < k {
                        assert(mask_has(old_words, b));
                    }
                }
            }
            k += 1;
        }
        let mask = BiomeMask { words };
        assert(mask@ =~= ids@.to_set()) by {
            assert forall|b: u32| mask@.contains(b) <==> ids@.to_set().contains(b) by {
                if ids@.contains(b) {
                    let j = choose|j: int| 0 <= j < ids@.len() && ids@[j] == b;
                    assert(exists|j: int| 0 <= j < ids.len() && ids@[j] == b);
                }
                assert(mask_has(words@, b) ==> ids@.contains(b));
            }
        }
        mask
    }

    /// Whether the biome is in the set.
    pub fn contains(&self, biome: u32) -> (res: bool)
        ensures
            res == self@.contains(biome),
    {
        let word = (biome / 64) as usize;
        if word < self.words.len() {
            (self.words[word] >> ((biome % 64) as u64)) & 1u64 != 0
        } else {
            false
        }
    }

    /// How this set answers for a column that can select exactly `biomes`.
    /// `Never` and `Always` settle the condition statically for the column.
    pub fn fold(&self, biomes: &[u32]) -> (res: Tri)
        ensures
            res == (if !(exists|i: int| 0 <= i < biomes@.len() && self@.contains(#[trigger] biomes@[i])) {
                Tri::Never
            } else if forall|i: int| 0 <= i < biomes@.len() ==> self@.contains(#[trigger] biomes@[i]) {
                Tri::Always
            } else {
                Tri::Maybe
            }),
    {
        let mut any = false;
        let mut all = true;
        let mut i: usize = 0;
        while i < biomes.len()
            invariant
                i <= biomes.len(),
                any <==> exists|j: int| 0 <= j < i && self@.contains(#[trigger] biomes@[j]),
                all <==> forall|j: int| 0 <= j < i ==> self@.contains(#[trigger] biomes@[j]),
            decreases biomes.len() - i,
        {
            if self.contains(biomes[i]) {
                any = true;
            } else {
                all = false;
            }
            i += 1;
        }
        if !any {
            Tri::Never
        } else if all {
            Tri::Always
        } else {
            Tri::Maybe
        }
    }

    fn same_as(&self, other: &BiomeMask) -> (res: bool)
        ensures
            res == (self.words@ == other.words@),
            res ==> self@ == other@,
    {
        if self.words.len() != other.words.len() {
            return false;
        }
        let mut i: usize = 0;
        while i < self.words.len()
            invariant
                i <= self.words.len(),
                self.words.len() == other.words.len(),
                forall|j: int| 0 <= j < i ==> self.words@[j] == other.words@[j],
            decreases self.words.len() - i,
        {
            if self.words[i] != other.words[i] {
                assert(self.words@[i as int] != other.words@[i as int]);
                return false;
            }
            i += 1;
        }
        assert(self.words@ =~= other.words@);
        true
    }
}

// ---------------------------------------------------------------------------
// What a position answers
// ---------------------------------------------------------------------------
/// A condition as a position answers it, with its noise and random stream
/// named as the datapack names them. Biome and negation conditions are not
/// probes: a biome condition is answered from the position's biome, a
/// negation from its operand.
#[derive(Clone, Copy, Debug, PartialEq, Eq, Structural)]
pub enum Probe {
    StoneDepth {
        offset: i32,
        add_surface_depth: bool,
        secondary_depth_range: i32,
        ceiling: bool,
    },
    Water { offset: i32, surface_depth_multiplier: i32, add_stone_depth: bool },
    YAbove { anchor: i32, surface_depth_multiplier: i32, add_stone_depth: bool },
    NoiseThreshold { noise: NameId, min: u64, max: u64, is_3d: bool },
    VerticalGradient { random: NameId, true_at_and_below: i32, false_at_and_above: i32 },
    Steep,
    Hole,
    AbovePreliminarySurface,
}

/// An ore vein as the rule wrote it, its blocks resolved.
#[derive(Clone, Copy, Debug, PartialEq, Eq, Structural)]
pub struct VeinSource {
    pub ore: VoxelId,
    pub raw_ore: VoxelId,
    pub filler: VoxelId,
    pub raw_ore_chance: u64,
    pub density: DensityNode,
    pub richness: DensityNode,
    pub filler_gap: DensityNode,
}

/// The interned tables the compiled conditions index into.
pub struct ConditionTables {
    pub conditions: Vec<CompiledCondition>,
    pub noises: Vec<(NameId, bool)>,
    pub biome_sets: Vec<BiomeMask>,
    pub randoms: Vec<NameId>,
}

/// The probe a compiled condition stands for, its ids read back into names.
pub open spec fn compiled_probe(t: ConditionTables, kind: Condition) -> Probe {
    match kind {
        Condition::StoneDepth { offset, add_surface_depth, secondary_depth_range, ceiling } =>
            Probe::StoneDepth { offset, add_surface_depth, secondary_depth_range, ceiling },
        Condition::Water { offset, surface_depth_multiplier, add_stone_depth } => Probe::Water {
            offset,
            surface_depth_multiplier,
            add_stone_depth,
        },
        Condition::YAbove { anchor, surface_depth_multiplier, add_stone_depth } => Probe::YAbove {
            anchor,
            surface_depth_multiplier,
            add_stone_depth,
        },
        Condition::NoiseThreshold { noise, min, max, is_3d } => Probe::NoiseThreshold {
            noise: t.noises@[noise as int].0,
            min,
            max,
            is_3d,
        },
        Condition::VerticalGradient { random, true_at_and_below, false_at_and_above } =>
            Probe::VerticalGradient {
            random: t.randoms@[random as int],
            true_at_and_below,
            false_at_and_above,
        },
        Condition::Steep => Probe::Steep,
        Condition::Hole => Probe::Hole,
        _ => Probe::AbovePreliminarySurface,
    }
}

/// What compiled condition `c` answers at a position of biome `biome`, where
/// `probe` answers every probe.
pub open spec fn condition_answer(
    t: ConditionTables,
    c: int,
    biome: u32,
    probe: spec_fn(Probe) -> bool,
) -> bool
    decreases c,
{
    if c < 0 || c >= t.conditions@.len() {
        false
    } else {
        match t.conditions@[c].kind {
            Condition::Not(inner) => if inner < c {
                !condition_answer(t, inner as int, biome, probe)
            } else {
                false
            },
            Condition::Biome { set } => t.biome_sets@[set as int]@.contains(biome),
            kind => probe(compiled_probe(t, kind)),
        }
    }
}

/// The scope a condition of this kind is answered in.
pub open spec fn kind_scope(t: ConditionTables, kind: Condition) -> Scope {
    match kind {
        Condition::NoiseThreshold { is_3d, .. } => if is_3d {
            Scope::Y
        } else {
            Scope::Xz
        },
        Condition::Steep => Scope::Xz,
        Condition::Hole => Scope::Xz,
        Condition::Not(inner) => t.conditions@[inner as int].scope,
        _ => Scope::Y,
    }
}

/// Every id a table holds points back into the tables, every negation at an
/// earlier condition, every noise is read with the dimensionality it was
/// interned with, and every scope is the one its kind is answered in.
pub open spec fn tables_wf(t: ConditionTables) -> bool {
    forall|c: int|
        0 <= c < t.conditions@.len() ==> {
            let cc = #[trigger] t.conditions@[c];
            &&& cc.scope == kind_scope(t, cc.kind)
            &&& match cc.kind {
                Condition::Not(inner) => inner < c,
                Condition::Biome { set } => set < t.biome_sets@.len(),
                Condition::NoiseThreshold { noise, is_3d, .. } => noise < t.noises@.len()
                    && t.noises@[noise as int].1 == is_3d,
                Condition::VerticalGradient { random, .. } => random < t.randoms@.len(),
                _ => true,
            }
        }
}

/// `later` keeps everything `earlier` held, in place.
pub open spec fn tables_extend(earlier: ConditionTables, later: ConditionTables) -> bool {
    &&& earlier.conditions@.len() <= later.conditions@.len()
    &&& later.conditions@.take(earlier.conditions@.len() as int) == earlier.conditions@
    &&& earlier.noises@.len() <= later.noises@.len()
    &&& later.noises@.take(earlier.noises@.len() as int) == earlier.noises@
    &&& earlier.biome_sets@.len() <= later.biome_sets@.len()
    &&& later.biome_sets@.take(earlier.biome_sets@.len() as int) == earlier.biome_sets@
    &&& earlier.randoms@.len() <= later.randoms@.len()
    &&& later.randoms@.take(earlier.randoms@.len() as int) == earlier.randoms@
}

/// The vein as its rule wrote it, its roots read back into nodes.
pub open spec fn vein_source(vein: OreVein, roots: Seq<DensityNode>) -> VeinSource {
    VeinSource {
        ore: vein.ore,
        raw_ore: vein.raw_ore,
        filler: vein.filler,
        raw_ore_chance: vein.raw_ore_chance,
        density: roots[vein.density as int],
        richness: roots[vein.richness as int],
        filler_gap: roots[vein.filler_gap as int],
    }
}

/// The answers a run is handed are those of one position: one per
/// condition, one per vein.
pub open spec fn answers_fit(
    t: ConditionTables,
    veins: Seq<OreVein>,
    roots: Seq<DensityNode>,
    answers: Seq<bool>,
    vein_answers: Seq<Option<VoxelId>>,
    biome: u32,
    probe: spec_fn(Probe) -> bool,
    vein: spec_fn(VeinSource) -> Option<VoxelId>,
) -> bool {
    &&& t.conditions@.len() <= answers.len()
    &&& forall|c: int|
        0 <= c < t.conditions@.len() ==> #[trigger] answers[c] == condition_answer(
            t,
            c,
            biome,
            probe,
        )
    &&& veins.len() <= vein_answers.len()
    &&& forall|v: int|
        0 <= v < veins.len() ==> #[trigger] vein_answers[v] == vein(vein_source(veins[v], roots))
}

// ---------------------------------------------------------------------------
// The tape
// ---------------------------------------------------------------------------
/// What the tape returns when entered at `pc` and left at `end`: `Some` with
/// the block it stops on, or `None` where it runs to `end` without one.
pub open spec fn run_within(
    tape: Seq<Op>,
    pc: int,
    end: int,
    answers: Seq<bool>,
    band: VoxelId,
    veins: Seq<Option<VoxelId>>,
) -> Option<VoxelId>
    decreases end - pc,
{
    if pc < 0 || pc >= end || pc >= tape.len() {
        None
    } else {
        match tape[pc] {
            Op::Guard { condition, skip_to } => if answers[condition as int] {
                run_within(tape, pc + 1, end, answers, band, veins)
            } else if pc < skip_to && skip_to <= end {
                run_within(tape, skip_to as int, end, answers, band, veins)
            } else {
                None
            },
            Op::Block { state } => Some(state),
            Op::Bandlands => Some(band),
            Op::OreVein { vein } => match veins[vein as int] {
                Some(state) => Some(state),
                None => run_within(tape, pc + 1, end, answers, band, veins),
            },
        }
    }
}

/// Every guard in `start..end` jumps forward, and no further than `end`.
pub open spec fn jumps_within(tape: Seq<Op>, start: int, end: int) -> bool {
    forall|i: int|
        start <= i < end ==> match #[trigger] tape[i] {
            Op::Guard { skip_to, .. } => i < skip_to <= end,
            _ => true,
        }
}

/// Every id on the tape points into the tables.
pub open spec fn tape_refs(tape: Seq<Op>, conditions: nat, veins: nat) -> bool {
    forall|i: int|
        0 <= i < tape.len() ==> match #[trigger] tape[i] {
            Op::Guard { condition, .. } => condition < conditions,
            Op::OreVein { vein } => vein < veins,
            _ => true,
        }
}

/// The compiled rules: a tape of guards and blocks, and the tables its ids
/// point into.
pub struct MaterialProgram {
    tape: Vec<Op>,
    tables: ConditionTables,
    veins: Vec<OreVein>,
    surface_noises: Vec<NoiseId>,
    clay_colours: Vec<VoxelId>,
}

impl MaterialProgram {
    #[verifier::type_invariant]
    closed spec fn wf(self) -> bool {
        &&& tables_wf(self.tables)
        &&& tape_refs(self.tape@, self.tables.conditions@.len(), self.veins@.len())
        &&& jumps_within(self.tape@, 0, self.tape@.len() as int)
        &&& forall|v: int|
            0 <= v < self.veins@.len() ==> #[trigger] self.veins@[v].random
                < self.tables.randoms@.len()
        &&& self.surface_noises@.len() == 9
        &&& forall|k: int|
            0 <= k < 9 ==> #[trigger] self.surface_noises@[k] < self.tables.noises@.len()
        &&& self.clay_colours@.len() == 7
        &&& self.tables.noises@.len() <= u32::MAX
        &&& self.tables.randoms@.len() <= u32::MAX
    }

    pub closed spec fn tape_view(self) -> Seq<Op> {
        self.tape@
    }

    pub closed spec fn tables_view(self) -> ConditionTables {
        self.tables
    }

    pub closed spec fn veins_view(self) -> Seq<OreVein> {
        self.veins@
    }

    pub closed spec fn surface_noises_view(self) -> Seq<NoiseId> {
        self.surface_noises@
    }

    pub closed spec fn clay_colours_view(self) -> Seq<VoxelId> {
        self.clay_colours@
    }

    /// The block the rules give a position: the tape walked from the top, each
    /// guard answered by `answers`, the band table by `band`, each vein by
    /// `veins`.
    pub fn run(&self, answers: &[bool], band: VoxelId, veins: &[Option<VoxelId>]) -> (res: Option<
        VoxelId,
    >)
        requires
            self.tables_view().conditions@.len() <= answers@.len(),
            self.veins_view().len() <= veins@.len(),
        ensures
            res == run_within(
                self.tape_view(),
                0,
                self.tape_view().len() as int,
                answers@,
                band,
                veins@,
            ),
    {
        proof {
            use_type_invariant(self);
        }
        let mut pc: usize = 0;
        let ghost end = self.tape@.len() as int;
        while pc < self.tape.len()
            invariant
                pc <= self.tape@.len(),
                end == self.tape@.len(),
                tape_refs(self.tape@, self.tables.conditions@.len(), self.veins@.len()),
                jumps_within(self.tape@, 0, end),
                self.tables.conditions@.len() <= answers@.len(),
                self.veins@.len() <= veins@.len(),
                run_within(self.tape@, 0, end, answers@, band, veins@) == run_within(
                    self.tape@,
                    pc as int,
                    end,
                    answers@,
                    band,
                    veins@,
                ),
            decreases self.tape@.len() - pc,
        {
            let op = self.tape[pc];
            assert(tape_refs(self.tape@, self.tables.conditions@.len(), self.veins@.len()));
            match op {
                Op::Guard { condition, skip_to } => {
                    if answers[condition as usize] {
                        pc += 1;
                    } else {
                        pc = skip_to as usize;
                    }
                },
                Op::Block { state } => {
                    return Some(state);
                },
                Op::Bandlands => {
                    return Some(band);
                },
                Op::OreVein { vein } => {
                    if let Some(state) = veins[vein as usize] {
                        return Some(state);
                    }
                    pc += 1;
                },
            }
        }
        None
    }

    /// The tape; every id on it points into the tables, and every guard
    /// jumps forward within it.
    pub fn tape(&self) -> (tape: &[Op])
        ensures
            tape@ == self.tape_view(),
            tape_refs(tape@, self.tables_view().conditions@.len(), self.veins_view().len()),
            jumps_within(tape@, 0, tape@.len() as int),
    {
        proof {
            use_type_invariant(self);
        }
        self.tape.as_slice()
    }

    /// The interned conditions, well formed.
    pub fn conditions(&self) -> (conditions: &[CompiledCondition])
        ensures
            conditions@ == self.tables_view().conditions@,
            tables_wf(self.tables_view()),
    {
        proof {
            use_type_invariant(self);
        }
        self.tables.conditions.as_slice()
    }

    pub fn biome_sets(&self) -> (sets: &[BiomeMask])
        ensures
            sets@ == self.tables_view().biome_sets@,
    {
        self.tables.biome_sets.as_slice()
    }

    pub fn veins(&self) -> (veins: &[OreVein])
        ensures
            veins@ == self.veins_view(),
    {
        self.veins.as_slice()
    }

    /// How many noises the conditions read.
    pub fn noise_count(&self) -> (count: usize)
        ensures
            count == self.tables_view().noises@.len(),
    {
        self.tables.noises.len()
    }

    /// The name and dimensionality of a noise the conditions read.
    pub fn noise(&self, noise: NoiseId) -> (named: (NameId, bool))
        requires
            noise < self.tables_view().noises@.len(),
        ensures
            named == self.tables_view().noises@[noise as int],
    {
        self.tables.noises[noise as usize]
    }

    /// The id a noise read with this dimensionality was given, if any
    /// condition reads it.
    pub fn noise_id(&self, name: NameId, is_3d: bool) -> (id: Option<NoiseId>)
        ensures
            match id {
                Some(id) => id < self.tables_view().noises@.len()
                    && self.tables_view().noises@[id as int] == (name, is_3d)
                    && forall|j: int|
                    0 <= j < id ==> self.tables_view().noises@[j] != (name, is_3d),
                None => !self.tables_view().noises@.contains((name, is_3d)),
            },
    {
        proof {
            use_type_invariant(self);
        }
        find_noise(&self.tables.noises, name, is_3d)
    }

    /// The id a random stream was given, if any condition or vein draws from it.
    pub fn random_id(&self, name: NameId) -> (id: Option<RandomId>)
        ensures
            match id {
                Some(id) => id < self.tables_view().randoms@.len()
                    && self.tables_view().randoms@[id as int] == name
                    && forall|j: int| 0 <= j < id ==> self.tables_view().randoms@[j] != name,
                None => !self.tables_view().randoms@.contains(name),
            },
    {
        proof {
            use_type_invariant(self);
        }
        find_random(&self.tables.randoms, name)
    }

    /// The random stream an id stands for.
    pub fn random(&self, random: RandomId) -> (name: NameId)
        requires
            random < self.tables_view().randoms@.len(),
        ensures
            name == self.tables_view().randoms@[random as int],
    {
        self.tables.randoms[random as usize]
    }

    pub fn surface_noise(&self, noise: SurfaceNoise) -> (id: NoiseId)
        ensures
            id == self.surface_noises_view()[surface_slot(noise)],
    {
        proof {
            use_type_invariant(self);
        }
        self.surface_noises[noise.slot()]
    }

    /// Terracotta and its orange, yellow, brown, red, white and light gray
    /// variants, in that order: the colours the band table is painted with.
    pub fn clay_colours(&self) -> (colours: &[VoxelId])
        ensures
            colours@ == self.clay_colours_view(),
            colours@.len() == 7,
    {
        proof {
            use_type_invariant(self);
        }
        self.clay_colours.as_slice()
    }
}

fn find_noise(noises: &Vec<(NameId, bool)>, name: NameId, is_3d: bool) -> (id: Option<NoiseId>)
    requires
        noises@.len() <= u32::MAX,
    ensures
        match id {
            Some(id) => id < noises@.len() && noises@[id as int] == (name, is_3d) && forall|j: int|
                0 <= j < id ==> noises@[j] != (name, is_3d),
            None => !noises@.contains((name, is_3d)),
        },
{
    let mut i: usize = 0;
    while i < noises.len()
        invariant
            i <= noises@.len(),
            noises@.len() <= u32::MAX,
            forall|j: int| 0 <= j < i ==> noises@[j] != (name, is_3d),
        decreases noises.len() - i,
    {
        let (n, d) = noises[i];
        if n == name && d == is_3d {
            return Some(i as NoiseId);
        }
        i += 1;
    }
    None
}

fn find_random(randoms: &Vec<NameId>, name: NameId) -> (id: Option<RandomId>)
    requires
        randoms@.len() <= u32::MAX,
    ensures
        match id {
            Some(id) => id < randoms@.len() && randoms@[id as int] == name && forall|j: int|
                0 <= j < id ==> randoms@[j] != name,
            None => !randoms@.contains(name),
        },
{
    let mut i: usize = 0;
    while i < randoms.len()
        invariant
            i <= randoms@.len(),
            randoms@.len() <= u32::MAX,
            forall|j: int| 0 <= j < i ==> randoms@[j] != name,
        decreases randoms.len() - i,
    {
        if randoms[i] == name {
            return Some(i as RandomId);
        }
        i += 1;
    }
    None
}

// ---------------------------------------------------------------------------
// What the rules mean
// ---------------------------------------------------------------------------
/// The registries the rules are compiled against, each indexed by the id the
/// caller interned its names with, and the ids of the names the stage reads
/// on its own.
pub struct MaterialInputs {
    pub rules: Vec<Option<MaterialRuleHolder>>,
    pub conditions: Vec<Option<MaterialConditionHolder>>,
    /// The block registry: the voxel id of each block state, if it has one.
    pub blocks: Vec<Option<VoxelId>>,
    /// The biome registry: the numeric id of each biome name, if it has one.
    pub biomes: Vec<Option<u32>>,
    /// The noise registry: whether a noise of each name exists.
    pub noises: Vec<bool>,
    /// The name of the stream every ore vein draws from.
    pub ore_random: NameId,
    /// The names of the nine surface noises, in the order of [`SurfaceNoise`].
    pub surface_noises: [NameId; 9],
    /// Terracotta and its orange, yellow, brown, red, white and light gray
    /// variants, which the band table is painted with.
    pub clay_colours: [BlockStateId; 7],
}

#[derive(Clone, Copy, Debug, PartialEq, Eq, Structural)]
pub enum CompileError {
    UnknownRule(NameId),
    UnknownCondition(NameId),
    ReferenceCycle(NameId),
    /// The `temperature` condition, which this generator does not evaluate.
    UnsupportedCondition,
    UnknownBlockState(BlockStateId),
    UnknownBiome(NameId),
    UnknownNoise(NameId),
    /// A table outgrew its 32-bit ids.
    TableOverflow,
}

pub open spec fn rule_entry(inp: MaterialInputs, id: NameId) -> Option<MaterialRuleHolder> {
    if id < inp.rules@.len() {
        inp.rules@[id as int]
    } else {
        None
    }
}

pub open spec fn condition_entry(inp: MaterialInputs, id: NameId) -> Option<
    MaterialConditionHolder,
> {
    if id < inp.conditions@.len() {
        inp.conditions@[id as int]
    } else {
        None
    }
}

pub open spec fn block_entry(inp: MaterialInputs, state: BlockStateId) -> Option<VoxelId> {
    if state < inp.blocks@.len() {
        inp.blocks@[state as int]
    } else {
        None
    }
}

pub open spec fn biome_entry(inp: MaterialInputs, name: NameId) -> Option<u32> {
    if name < inp.biomes@.len() {
        inp.biomes@[name as int]
    } else {
        None
    }
}

pub open spec fn noise_known(inp: MaterialInputs, name: NameId) -> bool {
    name < inp.noises@.len() && inp.noises@[name as int]
}

pub open spec fn block_error(inp: MaterialInputs, state: BlockStateId) -> Option<CompileError> {
    if block_entry(inp, state) is Some {
        None
    } else {
        Some(CompileError::UnknownBlockState(state))
    }
}

/// The first of the first `n` biome names the registry lacks.
pub open spec fn biome_error(inp: MaterialInputs, names: Seq<NameId>, n: int) -> Option<
    CompileError,
>
    decreases n,
{
    if n <= 0 || n > names.len() {
        None
    } else {
        match biome_error(inp, names, n - 1) {
            Some(e) => Some(e),
            None => if biome_entry(inp, names[n - 1]) is Some {
                None
            } else {
                Some(CompileError::UnknownBiome(names[n - 1]))
            },
        }
    }
}

/// Whether one of the biome names resolves to `biome`.
pub open spec fn biome_listed(inp: MaterialInputs, names: Seq<NameId>, biome: u32) -> bool {
    exists|i: int| 0 <= i < names.len() && biome_entry(inp, names[i]) == Some(biome)
}

/// The probe a condition of the datapack stands for.
pub open spec fn source_probe(height: HeightContext, condition: MaterialCondition) -> Probe {
    match condition {
        MaterialCondition::StoneDepth {
            offset,
            add_surface_depth,
            secondary_depth_range,
            surface_type,
        } => Probe::StoneDepth {
            offset,
            add_surface_depth,
            secondary_depth_range,
            ceiling: surface_type == CaveSurface::Ceiling,
        },
        MaterialCondition::Water { offset, surface_depth_multiplier, add_stone_depth } =>
            Probe::Water { offset, surface_depth_multiplier, add_stone_depth },
        MaterialCondition::YAbove { anchor, surface_depth_multiplier, add_stone_depth } =>
            Probe::YAbove {
            anchor: anchor_y(anchor, height),
            surface_depth_multiplier,
            add_stone_depth,
        },
        MaterialCondition::NoiseThreshold { noise, min_threshold, max_threshold, is_3d } =>
            Probe::NoiseThreshold { noise, min: min_threshold, max: max_threshold, is_3d },
        MaterialCondition::VerticalGradient {
            random_name,
            true_at_and_below,
            false_at_and_above,
        } => Probe::VerticalGradient {
            random: random_name,
            true_at_and_below: anchor_y(true_at_and_below, height),
            false_at_and_above: anchor_y(false_at_and_above, height),
        },
        MaterialCondition::Steep => Probe::Steep,
        MaterialCondition::Hole => Probe::Hole,
        _ => Probe::AbovePreliminarySurface,
    }
}

impl CompileError {
    /// The name of the condition an `UnsupportedCondition` error refuses.
    pub fn unsupported_name(&self) -> (name: Option<&'static str>)
        ensures
            name is Some <==> *self == CompileError::UnsupportedCondition,
    {
        match self {
            CompileError::UnsupportedCondition => Some("temperature"),
            _ => None,
        }
    }
}

/// The first error met compiling a condition reached through `holder`, with
/// the references in `stack` being resolved.
pub open spec fn cond_holder_error(
    inp: MaterialInputs,
    stack: Seq<NameId>,
    holder: MaterialConditionHolder,
) -> Option<CompileError>
    decreases inp.conditions@.len() - stack.len(), holder,
{
    match holder {
        MaterialConditionHolder::Owned(c) => cond_body_error(inp, stack, *c),
        MaterialConditionHolder::Reference(id) => if stack.contains(id) {
            Some(CompileError::ReferenceCycle(id))
        } else {
            match condition_entry(inp, id) {
                None => Some(CompileError::UnknownCondition(id)),
                Some(next) => if stack.len() < inp.conditions@.len() {
                    cond_holder_error(inp, stack.push(id), next)
                } else {
                    Some(CompileError::ReferenceCycle(id))
                },
            }
        },
    }
}

pub open spec fn cond_body_error(
    inp: MaterialInputs,
    stack: Seq<NameId>,
    condition: MaterialCondition,
) -> Option<CompileError>
    decreases inp.conditions@.len() - stack.len(), condition,
{
    match condition {
        MaterialCondition::Biome { biome_is } => biome_error(
            inp,
            biome_set_ids(biome_is),
            biome_set_ids(biome_is).len() as int,
        ),
        MaterialCondition::NoiseThreshold { noise, .. } => if noise_known(inp, noise) {
            None
        } else {
            Some(CompileError::UnknownNoise(noise))
        },
        MaterialCondition::Temperature => Some(CompileError::UnsupportedCondition),
        MaterialCondition::Not { invert } => cond_holder_error(inp, stack, invert),
        _ => None,
    }
}

/// Whether a condition reached through `holder` holds at a position of biome
/// `biome` whose probes `probe` answers.
pub open spec fn cond_holder_holds(
    inp: MaterialInputs,
    height: HeightContext,
    stack: Seq<NameId>,
    holder: MaterialConditionHolder,
    biome: u32,
    probe: spec_fn(Probe) -> bool,
) -> bool
    decreases inp.conditions@.len() - stack.len(), holder,
{
    match holder {
        MaterialConditionHolder::Owned(c) => cond_body_holds(inp, height, stack, *c, biome, probe),
        MaterialConditionHolder::Reference(id) => if !stack.contains(id) && stack.len()
            < inp.conditions@.len() {
            match condition_entry(inp, id) {
                Some(next) => cond_holder_holds(inp, height, stack.push(id), next, biome, probe),
                None => false,
            }
        } else {
            false
        },
    }
}

pub open spec fn cond_body_holds(
    inp: MaterialInputs,
    height: HeightContext,
    stack: Seq<NameId>,
    condition: MaterialCondition,
    biome: u32,
    probe: spec_fn(Probe) -> bool,
) -> bool
    decreases inp.conditions@.len() - stack.len(), condition,
{
    match condition {
        MaterialCondition::Biome { biome_is } => biome_listed(
            inp,
            biome_set_ids(biome_is),
            biome,
        ),
        MaterialCondition::Not { invert } => !cond_holder_holds(
            inp,
            height,
            stack,
            invert,
            biome,
            probe,
        ),
        _ => probe(source_probe(height, condition)),
    }
}

/// The first error met compiling a rule reached through `holder`, with the
/// references in `stack` being resolved.
pub open spec fn rule_holder_error(
    inp: MaterialInputs,
    stack: Seq<NameId>,
    holder: MaterialRuleHolder,
) -> Option<CompileError>
    decreases inp.rules@.len() - stack.len(), holder, 0int,
{
    match holder {
        MaterialRuleHolder::Owned(r) => rule_body_error(inp, stack, *r),
        MaterialRuleHolder::Reference(id) => if stack.contains(id) {
            Some(CompileError::ReferenceCycle(id))
        } else {
            match rule_entry(inp, id) {
                None => Some(CompileError::UnknownRule(id)),
                Some(next) => if stack.len() < inp.rules@.len() {
                    rule_holder_error(inp, stack.push(id), next)
                } else {
                    Some(CompileError::ReferenceCycle(id))
                },
            }
        },
    }
}

pub open spec fn rule_body_error(inp: MaterialInputs, stack: Seq<NameId>, rule: MaterialRule) -> Option<
    CompileError,
>
    decreases inp.rules@.len() - stack.len(), rule, 0int,
{
    match rule {
        MaterialRule::Block { result_state } => block_error(inp, result_state),
        MaterialRule::Sequence { sequence } => members_error(
            inp,
            stack,
            sequence,
            sequence@.len() as int,
        ),
        MaterialRule::Condition { if_true, then_run } => match cond_holder_error(
            inp,
            Seq::empty(),
            if_true,
        ) {
            Some(e) => Some(e),
            None => rule_holder_error(inp, stack, then_run),
        },
        MaterialRule::Bandlands => None,
        MaterialRule::OreVein { ore_block, raw_ore_block, filler_block, .. } => match block_error(
            inp,
            ore_block,
        ) {
            Some(e) => Some(e),
            None => match block_error(inp, raw_ore_block) {
                Some(e) => Some(e),
                None => block_error(inp, filler_block),
            },
        },
    }
}

/// The first error met compiling the first `n` members of a sequence.
pub open spec fn members_error(
    inp: MaterialInputs,
    stack: Seq<NameId>,
    members: Vec<MaterialRuleHolder>,
    n: int,
) -> Option<CompileError>
    decreases inp.rules@.len() - stack.len(), members, n,
{
    if n <= 0 || n > members@.len() {
        None
    } else {
        match members_error(inp, stack, members, n - 1) {
            Some(e) => Some(e),
            None => rule_holder_error(inp, stack, members[n - 1]),
        }
    }
}

/// The block a rule reached through `holder` gives a position of biome
/// `biome` whose probes `probe` answers, whose band table reads `band`, and
/// whose veins `vein` answers; `None` where it gives none.
pub open spec fn rule_holder_value(
    inp: MaterialInputs,
    height: HeightContext,
    stack: Seq<NameId>,
    holder: MaterialRuleHolder,
    biome: u32,
    probe: spec_fn(Probe) -> bool,
    band: VoxelId,
    vein: spec_fn(VeinSource) -> Option<VoxelId>,
) -> Option<VoxelId>
    decreases inp.rules@.len() - stack.len(), holder, 0int,
{
    match holder {
        MaterialRuleHolder::Owned(r) => rule_body_value(
            inp,
            height,
            stack,
            *r,
            biome,
            probe,
            band,
            vein,
        ),
        MaterialRuleHolder::Reference(id) => if !stack.contains(id) && stack.len()
            < inp.rules@.len() {
            match rule_entry(inp, id) {
                Some(next) => rule_holder_value(
                    inp,
                    height,
                    stack.push(id),
                    next,
                    biome,
                    probe,
                    band,
                    vein,
                ),
                None => None,
            }
        } else {
            None
        },
    }
}

pub open spec fn rule_body_value(
    inp: MaterialInputs,
    height: HeightContext,
    stack: Seq<NameId>,
    rule: MaterialRule,
    biome: u32,
    probe: spec_fn(Probe) -> bool,
    band: VoxelId,
    vein: spec_fn(VeinSource) -> Option<VoxelId>,
) -> Option<VoxelId>
    decreases inp.rules@.len() - stack.len(), rule, 0int,
{
    match rule {
        MaterialRule::Block { result_state } => block_entry(inp, result_state),
        MaterialRule::Sequence { sequence } => members_value(
            inp,
            height,
            stack,
            sequence,
            sequence@.len() as int,
            biome,
            probe,
            band,
            vein,
        ),
        MaterialRule::Condition { if_true, then_run } => if cond_holder_holds(
            inp,
            height,
            Seq::empty(),
            if_true,
            biome,
            probe,
        ) {
            rule_holder_value(inp, height, stack, then_run, biome, probe, band, vein)
        } else {
            None
        },
        MaterialRule::Bandlands => Some(band),
        MaterialRule::OreVein {
            ore_block,
            raw_ore_block,
            filler_block,
            raw_ore_chance,
            density,
            richness,
            filler_gap,
        } => vein(
            VeinSource {
                ore: block_entry(inp, ore_block).unwrap(),
                raw_ore: block_entry(inp, raw_ore_block).unwrap(),
                filler: block_entry(inp, filler_block).unwrap(),
                raw_ore_chance,
                density,
                richness,
                filler_gap,
            },
        ),
    }
}

/// The block the first of the first `n` members of a sequence that gives one
/// gives.
pub open spec fn members_value(
    inp: MaterialInputs,
    height: HeightContext,
    stack: Seq<NameId>,
    members: Vec<MaterialRuleHolder>,
    n: int,
    biome: u32,
    probe: spec_fn(Probe) -> bool,
    band: VoxelId,
    vein: spec_fn(VeinSource) -> Option<VoxelId>,
) -> Option<VoxelId>
    decreases inp.rules@.len() - stack.len(), members, n,
{
    if n <= 0 || n > members@.len() {
        None
    } else {
        match members_value(inp, height, stack, members, n - 1, biome, probe, band, vein) {
            Some(state) => Some(state),
            None => rule_holder_value(inp, height, stack, members[n - 1], biome, probe, band, vein),
        }
    }
}

/// How many table entries compiling a condition reached through `holder` can
/// add: one per condition, plus the biome set, noise or stream it interns.
pub open spec fn cond_holder_size(
    inp: MaterialInputs,
    stack: Seq<NameId>,
    holder: MaterialConditionHolder,
) -> nat
    decreases inp.conditions@.len() - stack.len(), holder,
{
    match holder {
        MaterialConditionHolder::Owned(c) => cond_body_size(inp, stack, *c),
        MaterialConditionHolder::Reference(id) => if !stack.contains(id) && stack.len()
            < inp.conditions@.len() {
            match condition_entry(inp, id) {
                Some(next) => cond_holder_size(inp, stack.push(id), next),
                None => 0,
            }
        } else {
            0
        },
    }
}

pub open spec fn cond_body_size(
    inp: MaterialInputs,
    stack: Seq<NameId>,
    condition: MaterialCondition,
) -> nat
    decreases inp.conditions@.len() - stack.len(), condition,
{
    match condition {
        MaterialCondition::Biome { .. } => 2,
        MaterialCondition::NoiseThreshold { .. } => 2,
        MaterialCondition::VerticalGradient { .. } => 2,
        MaterialCondition::Not { invert } => 1 + cond_holder_size(inp, stack, invert),
        _ => 1,
    }
}

/// How many tape and table entries compiling a rule reached through `holder`
/// can add.
pub open spec fn rule_holder_size(
    inp: MaterialInputs,
    stack: Seq<NameId>,
    holder: MaterialRuleHolder,
) -> nat
    decreases inp.rules@.len() - stack.len(), holder, 0int,
{
    match holder {
        MaterialRuleHolder::Owned(r) => rule_body_size(inp, stack, *r),
        MaterialRuleHolder::Reference(id) => if !stack.contains(id) && stack.len()
            < inp.rules@.len() {
            match rule_entry(inp, id) {
                Some(next) => rule_holder_size(inp, stack.push(id), next),
                None => 0,
            }
        } else {
            0
        },
    }
}

pub open spec fn rule_body_size(inp: MaterialInputs, stack: Seq<NameId>, rule: MaterialRule) -> nat
    decreases inp.rules@.len() - stack.len(), rule, 0int,
{
    match rule {
        MaterialRule::Sequence { sequence } => members_size(
            inp,
            stack,
            sequence,
            sequence@.len() as int,
        ),
        MaterialRule::Condition { if_true, then_run } => 1 + cond_holder_size(
            inp,
            Seq::empty(),
            if_true,
        ) + rule_holder_size(inp, stack, then_run),
        MaterialRule::OreVein { .. } => 3,
        _ => 1,
    }
}

pub open spec fn members_size(
    inp: MaterialInputs,
    stack: Seq<NameId>,
    members: Vec<MaterialRuleHolder>,
    n: int,
) -> nat
    decreases inp.rules@.len() - stack.len(), members, n,
{
    if n <= 0 || n > members@.len() {
        0
    } else {
        members_size(inp, stack, members, n - 1) + rule_holder_size(
            inp,
            stack,
            members[n - 1],
        )
    }
}

// ---------------------------------------------------------------------------
// Facts about the tape and the tables
// ---------------------------------------------------------------------------
/// A run over `pc..end` reads the tape only there.
proof fn lemma_run_same(
    t1: Seq<Op>,
    t2: Seq<Op>,
    pc: int,
    end: int,
    answers: Seq<bool>,
    band: VoxelId,
    veins: Seq<Option<VoxelId>>,
)
    requires
        end <= t1.len(),
        end <= t2.len(),
        forall|i: int| pc <= i < end ==> t1[i] == t2[i],
    ensures
        run_within(t1, pc, end, answers, band, veins) == run_within(t2, pc, end, answers, band, veins),
    decreases end - pc,
{
    if 0 <= pc < end {
        match t1[pc] {
            Op::Guard { condition, skip_to } => {
                lemma_run_same(t1, t2, pc + 1, end, answers, band, veins);
                if pc < skip_to && skip_to <= end {
                    lemma_run_same(t1, t2, skip_to as int, end, answers, band, veins);
                }
            },
            Op::OreVein { .. } => {
                lemma_run_same(t1, t2, pc + 1, end, answers, band, veins);
            },
            _ => {},
        }
    }
}

/// A run over `a..c` is a run over `a..b` and, where that gives nothing, a
/// run over `b..c`, when no guard of `a..b` jumps past `b`.
proof fn lemma_run_split(
    t: Seq<Op>,
    pc: int,
    b: int,
    c: int,
    answers: Seq<bool>,
    band: VoxelId,
    veins: Seq<Option<VoxelId>>,
)
    requires
        0 <= pc <= b <= c <= t.len(),
        jumps_within(t, pc, b),
    ensures
        run_within(t, pc, c, answers, band, veins) == match run_within(
            t,
            pc,
            b,
            answers,
            band,
            veins,
        ) {
            Some(state) => Some(state),
            None => run_within(t, b, c, answers, band, veins),
        },
    decreases b - pc,
{
    if pc < b {
        assert(jumps_within(t, pc + 1, b));
        match t[pc] {
            Op::Guard { condition, skip_to } => {
                lemma_run_split(t, pc + 1, b, c, answers, band, veins);
                if pc < skip_to && skip_to <= b {
                    assert(jumps_within(t, skip_to as int, b));
                    lemma_run_split(t, skip_to as int, b, c, answers, band, veins);
                }
            },
            Op::OreVein { .. } => {
                lemma_run_split(t, pc + 1, b, c, answers, band, veins);
            },
            _ => {},
        }
    }
}

/// A condition answers the same once the tables have grown.
proof fn lemma_answer_stable(
    t0: ConditionTables,
    t1: ConditionTables,
    c: int,
    biome: u32,
    probe: spec_fn(Probe) -> bool,
)
    requires
        tables_extend(t0, t1),
        tables_wf(t0),
        0 <= c < t0.conditions@.len(),
    ensures
        condition_answer(t1, c, biome, probe) == condition_answer(t0, c, biome, probe),
    decreases c,
{
    assert(t1.conditions@[c] == t0.conditions@.take(t0.conditions@.len() as int)[c]);
    let cc = t0.conditions@[c];
    match cc.kind {
        Condition::Not(inner) => {
            lemma_answer_stable(t0, t1, inner as int, biome, probe);
        },
        Condition::Biome { set } => {
            assert(t1.biome_sets@[set as int] == t0.biome_sets@.take(
                t0.biome_sets@.len() as int,
            )[set as int]);
        },
        Condition::NoiseThreshold { noise, .. } => {
            assert(t1.noises@[noise as int] == t0.noises@.take(
                t0.noises@.len() as int,
            )[noise as int]);
        },
        Condition::VerticalGradient { random, .. } => {
            assert(t1.randoms@[random as int] == t0.randoms@.take(
                t0.randoms@.len() as int,
            )[random as int]);
        },
        _ => {},
    }
}

/// A stack of distinct ids below `n` holds at most `n` of them.
proof fn lemma_distinct_below(s: Seq<NameId>, n: int)
    requires
        0 <= n,
        s.no_duplicates(),
        forall|i: int| 0 <= i < s.len() ==> s[i] < n,
    ensures
        s.len() <= n,
    decreases s.len(),
{
    if s.len() > 0 {
        let last = s.last();
        assert(last == s[s.len() - 1]);
        let rest = s.drop_last();
        let lowered = rest.map_values(
            |x: NameId|
                if x > last {
                    (x - 1) as NameId
                } else {
                    x
                },
        );
        assert forall|i: int, j: int|
            0 <= i < lowered.len() && 0 <= j < lowered.len() && i != j implies lowered[i]
            != lowered[j] by {
            assert(rest[i] != last && rest[j] != last);
            assert(rest[i] != rest[j]);
        }
        assert forall|i: int| 0 <= i < lowered.len() implies lowered[i] < n - 1 by {
            assert(rest[i] != last);
        }
        assert(lowered.len() == rest.len());
        lemma_distinct_below(lowered, n - 1);
    }
}

// ---------------------------------------------------------------------------
// Compilation
// ---------------------------------------------------------------------------
struct Builder {
    tape: Vec<Op>,
    tables: ConditionTables,
    veins: Vec<OreVein>,
    rule_stack: Vec<NameId>,
    condition_stack: Vec<NameId>,
}

/// How many entries the tape and the tables hold together.
spec fn load(b: Builder) -> int {
    (b.tape@.len() + b.tables.conditions@.len() + b.tables.noises@.len()
        + b.tables.biome_sets@.len() + b.tables.randoms@.len() + b.veins@.len()) as int
}

/// A step added at most `size` entries; where it overflowed, `size` more
/// would have reached the limit.
spec fn within_load<T>(b0: Builder, b1: Builder, res: Result<T, CompileError>, size: int) -> bool {
    &&& res is Ok ==> load(b1) <= load(b0) + size
    &&& (res matches Err(e) && e == CompileError::TableOverflow) ==> load(b0) + size >= u32::MAX
}

#[verifier::opaque]
spec fn builder_wf(b: Builder, inp: MaterialInputs) -> bool {
    &&& tables_wf(b.tables)
    &&& tape_refs(b.tape@, b.tables.conditions@.len(), b.veins@.len())
    &&& forall|v: int|
        0 <= v < b.veins@.len() ==> #[trigger] b.veins@[v].random < b.tables.randoms@.len()
            && b.tables.randoms@[b.veins@[v].random as int] == inp.ore_random
    &&& forall|i: int|
        0 <= i < b.tables.noises@.len() ==> noise_known(inp, #[trigger] b.tables.noises@[i].0)
    &&& b.tables.noises@.len() <= u32::MAX
    &&& b.tables.randoms@.len() <= u32::MAX
    &&& b.rule_stack@.no_duplicates()
    &&& forall|i: int|
        0 <= i < b.rule_stack@.len() ==> rule_entry(inp, #[trigger] b.rule_stack@[i]) is Some
    &&& b.condition_stack@.no_duplicates()
    &&& forall|i: int|
        0 <= i < b.condition_stack@.len() ==> condition_entry(
            inp,
            #[trigger] b.condition_stack@[i],
        ) is Some
}

spec fn veins_rooted(b: Builder, roots: nat) -> bool {
    forall|v: int|
        0 <= v < b.veins@.len() ==> {
            let vein = #[trigger] b.veins@[v];
            &&& vein.density < roots
            &&& vein.richness < roots
            &&& vein.filler_gap < roots
        }
}

spec fn grown(b0: Builder, b1: Builder, r0: Seq<DensityNode>, r1: Seq<DensityNode>) -> bool {
    &&& tables_extend(b0.tables, b1.tables)
    &&& b0.veins@.len() <= b1.veins@.len()
    &&& b1.veins@.take(b0.veins@.len() as int) == b0.veins@
    &&& r0.len() <= r1.len()
    &&& r1.take(r0.len() as int) == r0
    &&& b0.tape@.len() <= b1.tape@.len()
    &&& b1.tape@.take(b0.tape@.len() as int) == b0.tape@
}

/// Only the tables changed.
spec fn tables_only(b0: Builder, b1: Builder) -> bool {
    &&& tables_extend(b0.tables, b1.tables)
    &&& b1.tape@ == b0.tape@
    &&& b1.veins@ == b0.veins@
    &&& b1.rule_stack@ == b0.rule_stack@
    &&& b1.condition_stack@ == b0.condition_stack@
}

spec fn fits(
    b: Builder,
    roots: Seq<DensityNode>,
    answers: Seq<bool>,
    vein_answers: Seq<Option<VoxelId>>,
    biome: u32,
    probe: spec_fn(Probe) -> bool,
    vein: spec_fn(VeinSource) -> Option<VoxelId>,
) -> bool {
    answers_fit(b.tables, b.veins@, roots, answers, vein_answers, biome, probe, vein)
}

/// What the tape from `start` to its end gives.
spec fn tail_run(
    b: Builder,
    start: int,
    answers: Seq<bool>,
    band: VoxelId,
    vein_answers: Seq<Option<VoxelId>>,
) -> Option<VoxelId> {
    run_within(b.tape@, start, b.tape@.len() as int, answers, band, vein_answers)
}

/// The outcome of a compilation step against the first error of its input.
pub open spec fn outcome<T>(res: Result<T, CompileError>, error: Option<CompileError>) -> bool {
    &&& match res {
        Ok(_) => error is None,
        Err(e) => e == CompileError::TableOverflow || error == Some(e),
    }
    &&& (error is Some ==> res is Err)
}

proof fn lemma_fits_prefix(
    b0: Builder,
    b1: Builder,
    r0: Seq<DensityNode>,
    r1: Seq<DensityNode>,
    answers: Seq<bool>,
    vein_answers: Seq<Option<VoxelId>>,
    biome: u32,
    probe: spec_fn(Probe) -> bool,
    vein: spec_fn(VeinSource) -> Option<VoxelId>,
)
    requires
        grown(b0, b1, r0, r1),
        tables_wf(b0.tables),
        veins_rooted(b0, r0.len()),
        fits(b1, r1, answers, vein_answers, biome, probe, vein),
    ensures
        fits(b0, r0, answers, vein_answers, biome, probe, vein),
{
    assert forall|c: int| 0 <= c < b0.tables.conditions@.len() implies #[trigger] answers[c]
        == condition_answer(b0.tables, c, biome, probe) by {
        lemma_answer_stable(b0.tables, b1.tables, c, biome, probe);
    }
    assert forall|v: int| 0 <= v < b0.veins@.len() implies #[trigger] vein_answers[v] == vein(
        vein_source(b0.veins@[v], r0),
    ) by {
        assert(b1.veins@[v] == b1.veins@.take(b0.veins@.len() as int)[v]);
        let vs = b0.veins@[v];
        assert(r1[vs.density as int] == r1.take(r0.len() as int)[vs.density as int]);
        assert(r1[vs.richness as int] == r1.take(r0.len() as int)[vs.richness as int]);
        assert(r1[vs.filler_gap as int] == r1.take(r0.len() as int)[vs.filler_gap as int]);
    }
}

proof fn lemma_biome_error_stays(inp: MaterialInputs, names: Seq<NameId>, k: int, n: int)
    requires
        0 <= k <= n <= names.len(),
        biome_error(inp, names, k) is Some,
    ensures
        biome_error(inp, names, n) == biome_error(inp, names, k),
    decreases n - k,
{
    if k < n {
        lemma_biome_error_stays(inp, names, k, n - 1);
    }
}

proof fn lemma_members_size_grows(
    inp: MaterialInputs,
    stack: Seq<NameId>,
    members: Vec<MaterialRuleHolder>,
    k: int,
    n: int,
)
    requires
        0 <= k <= n <= members@.len(),
    ensures
        members_size(inp, stack, members, k) <= members_size(inp, stack, members, n),
    decreases n - k,
{
    if k < n {
        lemma_members_size_grows(inp, stack, members, k, n - 1);
    }
}

proof fn lemma_members_error_stays(
    inp: MaterialInputs,
    stack: Seq<NameId>,
    members: Vec<MaterialRuleHolder>,
    k: int,
    n: int,
)
    requires
        0 <= k <= n <= members@.len(),
        members_error(inp, stack, members, k) is Some,
    ensures
        members_error(inp, stack, members, n) == members_error(inp, stack, members, k),
    decreases n - k,
{
    if k < n {
        lemma_members_error_stays(inp, stack, members, k, n - 1);
    }
}

fn stack_contains(stack: &Vec<NameId>, id: NameId) -> (res: bool)
    ensures
        res == stack@.contains(id),
{
    let mut i: usize = 0;
    while i < stack.len()
        invariant
            i <= stack@.len(),
            forall|j: int| 0 <= j < i ==> stack@[j] != id,
        decreases stack.len() - i,
    {
        if stack[i] == id {
            assert(stack@[i as int] == id);
            return true;
        }
        i += 1;
    }
    false
}

fn resolve_block(inp: &MaterialInputs, state: BlockStateId) -> (res: Result<VoxelId, CompileError>)
    ensures
        match res {
            Ok(v) => block_entry(*inp, state) == Some(v),
            Err(e) => block_entry(*inp, state) is None && e == CompileError::UnknownBlockState(
                state,
            ),
        },
{
    if (state as usize) < inp.blocks.len() {
        match inp.blocks[state as usize] {
            Some(v) => Ok(v),
            None => Err(CompileError::UnknownBlockState(state)),
        }
    } else {
        Err(CompileError::UnknownBlockState(state))
    }
}

impl Builder {
    fn noise(&mut self, inp: &MaterialInputs, name: NameId, is_3d: bool) -> (res: Result<
        NoiseId,
        CompileError,
    >)
        requires
            builder_wf(*old(self), *inp),
        ensures
            within_load(*old(self), *final(self), res, 1),
            outcome(
                res,
                if noise_known(*inp, name) {
                    None
                } else {
                    Some(CompileError::UnknownNoise(name))
                },
            ),
            res is Ok ==> builder_wf(*final(self), *inp) && tables_only(*old(self), *final(self))
                && final(self).tables.conditions@ == old(self).tables.conditions@,
            res matches Ok(id) ==> id < final(self).tables.noises@.len()
                && final(self).tables.noises@[id as int] == (name, is_3d),
    {
        proof {
            reveal(builder_wf);
        }
        if self.tables.noises.len() <= u32::MAX as usize {
            if let Some(id) = find_noise(&self.tables.noises, name, is_3d) {
                proof {
                    lemma_extend_refl(self.tables);
                    assert(noise_known(*inp, self.tables.noises@[id as int].0));
                }
                return Ok(id);
            }
        }
        if !((name as usize) < inp.noises.len() && inp.noises[name as usize]) {
            return Err(CompileError::UnknownNoise(name));
        }
        if self.tables.noises.len() >= u32::MAX as usize {
            return Err(CompileError::TableOverflow);
        }
        let id = self.tables.noises.len() as NoiseId;
        self.tables.noises.push((name, is_3d));
        proof {
            assert(self.tables.noises@.take(old(self).tables.noises@.len() as int)
                =~= old(self).tables.noises@);
            lemma_push_noise(old(self).tables, self.tables);
        }
        Ok(id)
    }

    fn random(&mut self, inp: &MaterialInputs, name: NameId) -> (res: Result<
        RandomId,
        CompileError,
    >)
        requires
            builder_wf(*old(self), *inp),
        ensures
            within_load(*old(self), *final(self), res, 1),
            res is Ok || res == Err::<RandomId, CompileError>(CompileError::TableOverflow),
            res is Ok ==> builder_wf(*final(self), *inp) && tables_only(*old(self), *final(self))
                && final(self).tables.conditions@ == old(self).tables.conditions@,
            res matches Ok(id) ==> id < final(self).tables.randoms@.len()
                && final(self).tables.randoms@[id as int] == name,
    {
        proof {
            reveal(builder_wf);
        }
        if self.tables.randoms.len() <= u32::MAX as usize {
            if let Some(id) = find_random(&self.tables.randoms, name) {
                proof {
                    lemma_extend_refl(self.tables);
                }
                return Ok(id);
            }
        }
        if self.tables.randoms.len() >= u32::MAX as usize {
            return Err(CompileError::TableOverflow);
        }
        let id = self.tables.randoms.len() as RandomId;
        self.tables.randoms.push(name);
        proof {
            assert(self.tables.biome_sets@.take(old(self).tables.biome_sets@.len() as int)
                =~= old(self).tables.biome_sets@);
            assert(self.tables.randoms@.take(old(self).tables.randoms@.len() as int)
                =~= old(self).tables.randoms@);
            lemma_push_table(old(self).tables, self.tables);
        }
        Ok(id)
    }
}

proof fn lemma_extend_refl(t: ConditionTables)
    ensures
        tables_extend(t, t),
{
    assert(t.conditions@.take(t.conditions@.len() as int) =~= t.conditions@);
    assert(t.noises@.take(t.noises@.len() as int) =~= t.noises@);
    assert(t.biome_sets@.take(t.biome_sets@.len() as int) =~= t.biome_sets@);
    assert(t.randoms@.take(t.randoms@.len() as int) =~= t.randoms@);
}

/// The ids a kind holds point into the tables.
spec fn kind_refs(t: ConditionTables, kind: Condition) -> bool {
    match kind {
        Condition::Not(inner) => inner < t.conditions@.len(),
        Condition::Biome { set } => set < t.biome_sets@.len(),
        Condition::NoiseThreshold { noise, is_3d, .. } => noise < t.noises@.len()
            && t.noises@[noise as int].1 == is_3d,
        Condition::VerticalGradient { random, .. } => random < t.randoms@.len(),
        _ => true,
    }
}

impl Builder {
    /// The id of the condition of this kind, interned on first use.
    #[verifier::spinoff_prover]
    fn intern(&mut self, inp: &MaterialInputs, kind: Condition, scope: Scope) -> (res: Result<
        CondId,
        CompileError,
    >)
        requires
            builder_wf(*old(self), *inp),
            kind_refs(old(self).tables, kind),
            scope == kind_scope(old(self).tables, kind),
        ensures
            within_load(*old(self), *final(self), res, 1),
            res is Ok || res == Err::<CondId, CompileError>(CompileError::TableOverflow),
            res is Ok ==> builder_wf(*final(self), *inp) && tables_only(*old(self), *final(self))
                && final(self).tables.noises@ == old(self).tables.noises@
                && final(self).tables.biome_sets@ == old(self).tables.biome_sets@
                && final(self).tables.randoms@ == old(self).tables.randoms@,
            res matches Ok(id) ==> id < final(self).tables.conditions@.len()
                && final(self).tables.conditions@[id as int].kind == kind,
    {
        if self.tables.conditions.len() >= u32::MAX as usize {
            return Err(CompileError::TableOverflow);
        }
        if let Some(found) = find_condition(&self.tables.conditions, kind) {
            proof {
                lemma_extend_refl(self.tables);
            }
            return Ok(found as CondId);
        }
        Ok(self.push_condition(inp, kind, scope))
    }

    fn push_condition(&mut self, inp: &MaterialInputs, kind: Condition, scope: Scope) -> (id: CondId)
        requires
            builder_wf(*old(self), *inp),
            kind_refs(old(self).tables, kind),
            scope == kind_scope(old(self).tables, kind),
            old(self).tables.conditions@.len() < u32::MAX,
        ensures
            load(*final(self)) == load(*old(self)) + 1,
            builder_wf(*final(self), *inp),
            tables_only(*old(self), *final(self)),
            final(self).tables.noises@ == old(self).tables.noises@,
            final(self).tables.biome_sets@ == old(self).tables.biome_sets@,
            final(self).tables.randoms@ == old(self).tables.randoms@,
            id < final(self).tables.conditions@.len(),
            final(self).tables.conditions@[id as int].kind == kind,
    {
        let id = self.tables.conditions.len() as CondId;
        self.tables.conditions.push(CompiledCondition { kind, scope });
        proof {
            lemma_wf_tables(*old(self), *inp);
            lemma_push_condition(old(self).tables, self.tables, kind, scope);
            lemma_wf_tables_only(*old(self), *self, *inp);
        }
        id
    }

    /// The id of the biome set these names resolve to, interned on first use.
    fn biome_set(&mut self, inp: &MaterialInputs, set: &BiomeSet) -> (res: Result<
        BiomeSetId,
        CompileError,
    >)
        requires
            builder_wf(*old(self), *inp),
        ensures
            within_load(*old(self), *final(self), res, 1),
            outcome(
                res,
                biome_error(*inp, biome_set_ids(*set), biome_set_ids(*set).len() as int),
            ),
            res is Ok ==> builder_wf(*final(self), *inp) && tables_only(*old(self), *final(self))
                && final(self).tables.conditions@ == old(self).tables.conditions@
                && final(self).tables.noises@ == old(self).tables.noises@
                && final(self).tables.randoms@ == old(self).tables.randoms@,
            res matches Ok(id) ==> id < final(self).tables.biome_sets@.len() && forall|b: u32|
                #[trigger] final(self).tables.biome_sets@[id as int]@.contains(b) == biome_listed(
                    *inp,
                    biome_set_ids(*set),
                    b,
                ),
    {
        proof {
            reveal(builder_wf);
        }
        let names = set.ids();
        let ghost ids = biome_set_ids(*set);
        let mut resolved: Vec<u32> = Vec::new();
        let mut i: usize = 0;
        while i < names.len()
            invariant
                names@ == ids,
                ids == biome_set_ids(*set),
                i <= names@.len(),
                biome_error(*inp, ids, i as int) is None,
                forall|b: u32|
                    #[trigger] resolved@.contains(b) <==> exists|j: int|
                        0 <= j < i && biome_entry(*inp, ids[j]) == Some(b),
            decreases names.len() - i,
        {
            let name = names[i];
            let found = if (name as usize) < inp.biomes.len() {
                inp.biomes[name as usize]
            } else {
                None
            };
            match found {
                Some(b) => {
                    let ghost before = resolved@;
                    resolved.push(b);
                    proof {
                        assert forall|x: u32|
                            #[trigger] resolved@.contains(x) <==> exists|j: int|
                                0 <= j < i + 1 && biome_entry(*inp, ids[j]) == Some(x) by {
                            if resolved@.contains(x) {
                                let k = choose|k: int| 0 <= k < resolved@.len() && resolved@[k] == x;
                                if k < before.len() {
                                    assert(before[k] == x);
                                    assert(before.contains(x));
                                } else {
                                    assert(biome_entry(*inp, ids[i as int]) == Some(x));
                                }
                            }
                            if exists|j: int| 0 <= j < i + 1 && biome_entry(*inp, ids[j]) == Some(x) {
                                let j = choose|j: int|
                                    0 <= j < i + 1 && biome_entry(*inp, ids[j]) == Some(x);
                                if j < i {
                                    assert(before.contains(x));
                                    let k = choose|k: int| 0 <= k < before.len() && before[k] == x;
                                    assert(resolved@[k] == x);
                                } else {
                                    assert(resolved@[before.len() as int] == x);
                                }
                            }
                        }
                    }
                },
                None => {
                    proof {
                        assert(biome_entry(*inp, ids[i as int]) is None);
                        assert(biome_error(*inp, ids, i + 1) == Some(
                            CompileError::UnknownBiome(name),
                        ));
                        lemma_biome_error_stays(*inp, ids, i + 1, ids.len() as int);
                        assert(biome_error(
                            *inp,
                            biome_set_ids(*set),
                            biome_set_ids(*set).len() as int,
                        ) == Some(CompileError::UnknownBiome(name)));
                    }
                    return Err(CompileError::UnknownBiome(name));
                },
            }
            i += 1;
        }
        let mask = BiomeMask::new(resolved.as_slice());
        assert forall|b: u32| #[trigger] mask@.contains(b) == biome_listed(*inp, ids, b) by {
            assert(resolved@.to_set().contains(b) == resolved@.contains(b));
        }
        if self.tables.biome_sets.len() >= u32::MAX as usize {
            return Err(CompileError::TableOverflow);
        }
        let mut k: usize = 0;
        while k < self.tables.biome_sets.len()
            invariant
                k <= self.tables.biome_sets@.len(),
                self.tables.biome_sets@.len() < u32::MAX,
                *self == *old(self),
                builder_wf(*self, *inp),
                biome_error(*inp, ids, ids.len() as int) is None,
                ids == biome_set_ids(*set),
                forall|b: u32| #[trigger] mask@.contains(b) == biome_listed(*inp, ids, b),
            decreases self.tables.biome_sets@.len() - k,
        {
            if self.tables.biome_sets[k].same_as(&mask) {
                proof {
                    lemma_extend_refl(self.tables);
                }
                return Ok(k as BiomeSetId);
            }
            k += 1;
        }
        let id = self.tables.biome_sets.len() as BiomeSetId;
        self.tables.biome_sets.push(mask);
        proof {
            assert(self.tables.biome_sets@.take(old(self).tables.biome_sets@.len() as int)
                =~= old(self).tables.biome_sets@);
            assert(self.tables.randoms@.take(old(self).tables.randoms@.len() as int)
                =~= old(self).tables.randoms@);
            lemma_push_table(old(self).tables, self.tables);
        }
        Ok(id)
    }
}

proof fn lemma_wf_tables(b: Builder, inp: MaterialInputs)
    requires
        builder_wf(b, inp),
    ensures
        tables_wf(b.tables),
        b.tables.noises@.len() <= u32::MAX,
        b.tables.randoms@.len() <= u32::MAX,
{
    reveal(builder_wf);
}

/// Growing the tables alone keeps the builder well formed.
proof fn lemma_wf_tables_only(b0: Builder, b1: Builder, inp: MaterialInputs)
    requires
        builder_wf(b0, inp),
        tables_only(b0, b1),
        tables_wf(b1.tables),
        b1.tables.noises@ == b0.tables.noises@ || forall|i: int|
            0 <= i < b1.tables.noises@.len() ==> noise_known(
                inp,
                #[trigger] b1.tables.noises@[i].0,
            ),
        b1.tables.noises@.len() <= u32::MAX,
        b1.tables.randoms@.len() <= u32::MAX,
    ensures
        builder_wf(b1, inp),
{
    reveal(builder_wf);
    assert(tape_refs(b0.tape@, b0.tables.conditions@.len(), b0.veins@.len()));
    assert forall|i: int| 0 <= i < b1.tape@.len() implies match #[trigger] b1.tape@[i] {
        Op::Guard { condition, .. } => condition < b1.tables.conditions@.len(),
        Op::OreVein { vein } => vein < b1.veins@.len(),
        _ => true,
    } by {
        assert(b0.tape@[i] == b1.tape@[i]);
    }
    assert forall|v: int| 0 <= v < b1.veins@.len() implies #[trigger] b1.veins@[v].random
        < b1.tables.randoms@.len() && b1.tables.randoms@[b1.veins@[v].random as int]
        == inp.ore_random by {
        assert(b0.veins@[v] == b1.veins@[v]);
        let r = b0.veins@[v].random as int;
        assert(b1.tables.randoms@[r] == b1.tables.randoms@.take(b0.tables.randoms@.len() as int)[r]);
    }
}

fn find_condition(conditions: &Vec<CompiledCondition>, kind: Condition) -> (found: Option<usize>)
    ensures
        found matches Some(i) ==> i < conditions@.len() && conditions@[i as int].kind == kind
            && forall|j: int| 0 <= j < i ==> conditions@[j].kind != kind,
        found is None ==> forall|j: int| 0 <= j < conditions@.len() ==> conditions@[j].kind != kind,
{
    let mut i: usize = 0;
    while i < conditions.len()
        invariant
            i <= conditions@.len(),
            forall|j: int| 0 <= j < i ==> conditions@[j].kind != kind,
        decreases conditions@.len() - i,
    {
        if conditions[i].kind == kind {
            return Some(i);
        }
        i += 1;
    }
    None
}

impl Builder {
    fn cond_holder(
        &mut self,
        inp: &MaterialInputs,
        height: HeightContext,
        holder: &MaterialConditionHolder,
    ) -> (res: Result<CondId, CompileError>)
        requires
            builder_wf(*old(self), *inp),
        ensures
            within_load(*old(self), *final(self), res, cond_holder_size(*inp, old(self).condition_stack@, *holder) as int),
            outcome(res, cond_holder_error(*inp, old(self).condition_stack@, *holder)),
            res is Ok ==> builder_wf(*final(self), *inp) && tables_only(*old(self), *final(self)),
            res matches Ok(id) ==> id < final(self).tables.conditions@.len() && forall|
                biome: u32,
                probe: spec_fn(Probe) -> bool,
            |
                #[trigger] condition_answer(final(self).tables, id as int, biome, probe)
                    == cond_holder_holds(
                    *inp,
                    height,
                    old(self).condition_stack@,
                    *holder,
                    biome,
                    probe,
                ),
        decreases inp.conditions@.len() - self.condition_stack@.len(), *holder, 2int,
    {
        proof {
            reveal(builder_wf);
        }
        match holder {
            MaterialConditionHolder::Owned(condition) => self.cond_body(inp, height, condition),
            MaterialConditionHolder::Reference(id) => {
                let id = *id;
                if stack_contains(&self.condition_stack, id) {
                    return Err(CompileError::ReferenceCycle(id));
                }
                if id as usize >= inp.conditions.len() {
                    return Err(CompileError::UnknownCondition(id));
                }
                let next = match &inp.conditions[id as usize] {
                    Some(next) => next,
                    None => {
                        return Err(CompileError::UnknownCondition(id));
                    },
                };
                proof {
                    let pushed = self.condition_stack@.push(id);
                    assert forall|i: int| 0 <= i < pushed.len() implies pushed[i]
                        < inp.conditions@.len() by {
                        if i < self.condition_stack@.len() {
                            assert(condition_entry(*inp, self.condition_stack@[i]) is Some);
                        }
                    }
                    lemma_distinct_below(pushed, inp.conditions@.len() as int);
                }
                let ghost before = *self;
                self.condition_stack.push(id);
                proof {
                    assert forall|i: int| 0 <= i < self.condition_stack@.len() implies condition_entry(
                        *inp,
                        #[trigger] self.condition_stack@[i],
                    ) is Some by {
                        if i < before.condition_stack@.len() {
                            assert(self.condition_stack@[i] == before.condition_stack@[i]);
                        }
                    }
                    lemma_extend_refl(self.tables);
                    lemma_wf_tables_only(before, before, *inp);
                }
                let res = self.cond_holder(inp, height, next);
                match res {
                    Ok(found) => {
                        self.condition_stack.pop();
                        proof {
                            assert(self.condition_stack@ =~= before.condition_stack@);
                        }
                        Ok(found)
                    },
                    Err(e) => Err(e),
                }
            },
        }
    }

    fn cond_body(&mut self, inp: &MaterialInputs, height: HeightContext, condition: &MaterialCondition) -> (res:
        Result<CondId, CompileError>)
        requires
            builder_wf(*old(self), *inp),
        ensures
            within_load(*old(self), *final(self), res, cond_body_size(*inp, old(self).condition_stack@, *condition) as int),
            outcome(res, cond_body_error(*inp, old(self).condition_stack@, *condition)),
            res is Ok ==> builder_wf(*final(self), *inp) && tables_only(*old(self), *final(self)),
            res matches Ok(id) ==> id < final(self).tables.conditions@.len() && forall|
                biome: u32,
                probe: spec_fn(Probe) -> bool,
            |
                #[trigger] condition_answer(final(self).tables, id as int, biome, probe)
                    == cond_body_holds(
                    *inp,
                    height,
                    old(self).condition_stack@,
                    *condition,
                    biome,
                    probe,
                ),
        decreases inp.conditions@.len() - self.condition_stack@.len(), *condition, 1int,
    {
        proof {
            reveal(builder_wf);
        }
        let ghost b0 = *self;
        let (kind, scope) = self.cond_kind(inp, height, condition)?;
        let ghost b1 = *self;
        let id = self.intern(inp, kind, scope)?;
        proof {
            lemma_tables_only_trans(b0, b1, *self);
            assert forall|biome: u32, probe: spec_fn(Probe) -> bool|
                #[trigger] condition_answer(self.tables, id as int, biome, probe)
                    == cond_body_holds(*inp, height, b0.condition_stack@, *condition, biome, probe) by {
                lemma_kind_answer_stable(b1.tables, self.tables, kind, biome, probe);
                assert(self.tables.conditions@[id as int].kind == kind);
            }
        }
        Ok(id)
    }

    /// The kind and scope a condition compiles to, its ids interned.
    fn cond_kind(&mut self, inp: &MaterialInputs, height: HeightContext, condition: &MaterialCondition) -> (res:
        Result<(Condition, Scope), CompileError>)
        requires
            builder_wf(*old(self), *inp),
        ensures
            within_load(*old(self), *final(self), res, cond_body_size(*inp, old(self).condition_stack@, *condition) - 1),
            outcome(res, cond_body_error(*inp, old(self).condition_stack@, *condition)),
            res is Ok ==> builder_wf(*final(self), *inp) && tables_only(*old(self), *final(self)),
            res matches Ok(ks) ==> kind_refs(final(self).tables, ks.0) && ks.1 == kind_scope(
                final(self).tables,
                ks.0,
            ) && forall|biome: u32, probe: spec_fn(Probe) -> bool|
                #[trigger] kind_answer(final(self).tables, ks.0, biome, probe) == cond_body_holds(
                    *inp,
                    height,
                    old(self).condition_stack@,
                    *condition,
                    biome,
                    probe,
                ),
        decreases inp.conditions@.len() - self.condition_stack@.len(), *condition, 0int,
    {
        proof {
            reveal(builder_wf);
        }
        proof {
            lemma_extend_refl(self.tables);
        }
        match condition {
            MaterialCondition::StoneDepth {
                offset,
                add_surface_depth,
                secondary_depth_range,
                surface_type,
            } => {
                let ceiling = match surface_type {
                    CaveSurface::Ceiling => true,
                    CaveSurface::Floor => false,
                };
                Ok(
                    (
                        Condition::StoneDepth {
                            offset: *offset,
                            add_surface_depth: *add_surface_depth,
                            secondary_depth_range: *secondary_depth_range,
                            ceiling,
                        },
                        Scope::Y,
                    ),
                )
            },
            MaterialCondition::Water { offset, surface_depth_multiplier, add_stone_depth } => Ok(
                (
                    Condition::Water {
                        offset: *offset,
                        surface_depth_multiplier: *surface_depth_multiplier,
                        add_stone_depth: *add_stone_depth,
                    },
                    Scope::Y,
                ),
            ),
            MaterialCondition::YAbove { anchor, surface_depth_multiplier, add_stone_depth } => Ok(
                (
                    Condition::YAbove {
                        anchor: anchor.resolve_y(height),
                        surface_depth_multiplier: *surface_depth_multiplier,
                        add_stone_depth: *add_stone_depth,
                    },
                    Scope::Y,
                ),
            ),
            MaterialCondition::Biome { biome_is } => {
                let set = self.biome_set(inp, biome_is)?;
                Ok((Condition::Biome { set }, Scope::Y))
            },
            MaterialCondition::NoiseThreshold { noise, min_threshold, max_threshold, is_3d } => {
                let id = self.noise(inp, *noise, *is_3d)?;
                let scope = if *is_3d {
                    Scope::Y
                } else {
                    Scope::Xz
                };
                Ok(
                    (
                        Condition::NoiseThreshold {
                            noise: id,
                            min: *min_threshold,
                            max: *max_threshold,
                            is_3d: *is_3d,
                        },
                        scope,
                    ),
                )
            },
            MaterialCondition::VerticalGradient {
                random_name,
                true_at_and_below,
                false_at_and_above,
            } => {
                let random = self.random(inp, *random_name)?;
                Ok(
                    (
                        Condition::VerticalGradient {
                            random,
                            true_at_and_below: true_at_and_below.resolve_y(height),
                            false_at_and_above: false_at_and_above.resolve_y(height),
                        },
                        Scope::Y,
                    ),
                )
            },
            MaterialCondition::Steep => Ok((Condition::Steep, Scope::Xz)),
            MaterialCondition::Hole => Ok((Condition::Hole, Scope::Xz)),
            MaterialCondition::AbovePreliminarySurface => Ok(
                (Condition::AbovePreliminarySurface, Scope::Y),
            ),
            MaterialCondition::Not { invert } => {
                let inner = self.cond_holder(inp, height, invert)?;
                let scope = self.tables.conditions[inner as usize].scope;
                Ok((Condition::Not(inner), scope))
            },
            MaterialCondition::Temperature => Err(CompileError::UnsupportedCondition),
        }
    }
}

/// What a condition of this kind answers, its operand, if any, answered by
/// the tables.
pub open spec fn kind_answer(
    t: ConditionTables,
    kind: Condition,
    biome: u32,
    probe: spec_fn(Probe) -> bool,
) -> bool {
    match kind {
        Condition::Not(inner) => !condition_answer(t, inner as int, biome, probe),
        Condition::Biome { set } => t.biome_sets@[set as int]@.contains(biome),
        _ => probe(compiled_probe(t, kind)),
    }
}

proof fn lemma_kind_answer_stable(
    t0: ConditionTables,
    t1: ConditionTables,
    kind: Condition,
    biome: u32,
    probe: spec_fn(Probe) -> bool,
)
    requires
        tables_extend(t0, t1),
        tables_wf(t0),
        kind_refs(t0, kind),
    ensures
        kind_answer(t1, kind, biome, probe) == kind_answer(t0, kind, biome, probe),
{
    match kind {
        Condition::Not(inner) => {
            lemma_answer_stable(t0, t1, inner as int, biome, probe);
        },
        Condition::Biome { set } => {
            assert(t1.biome_sets@[set as int] == t1.biome_sets@.take(
                t0.biome_sets@.len() as int,
            )[set as int]);
        },
        Condition::NoiseThreshold { noise, .. } => {
            assert(t1.noises@[noise as int] == t1.noises@.take(t0.noises@.len() as int)[noise as int]);
        },
        Condition::VerticalGradient { random, .. } => {
            assert(t1.randoms@[random as int] == t1.randoms@.take(
                t0.randoms@.len() as int,
            )[random as int]);
        },
        _ => {},
    }
}

spec fn rule_step(
    b0: Builder,
    b1: Builder,
    r0: Seq<DensityNode>,
    r1: Seq<DensityNode>,
    inp: MaterialInputs,
) -> bool {
    &&& builder_wf(b1, inp)
    &&& veins_rooted(b1, r1.len())
    &&& grown(b0, b1, r0, r1)
    &&& b1.rule_stack@ == b0.rule_stack@
    &&& b1.condition_stack@ == b0.condition_stack@
    &&& jumps_within(b1.tape@, b0.tape@.len() as int, b1.tape@.len() as int)
}

spec fn holder_means(
    b: Builder,
    roots: Seq<DensityNode>,
    start: int,
    inp: MaterialInputs,
    height: HeightContext,
    stack: Seq<NameId>,
    holder: MaterialRuleHolder,
    answers: Seq<bool>,
    band: VoxelId,
    vein_answers: Seq<Option<VoxelId>>,
    biome: u32,
    probe: spec_fn(Probe) -> bool,
    vein: spec_fn(VeinSource) -> Option<VoxelId>,
) -> bool {
    fits(b, roots, answers, vein_answers, biome, probe, vein) ==> tail_run(
        b,
        start,
        answers,
        band,
        vein_answers,
    ) == rule_holder_value(inp, height, stack, holder, biome, probe, band, vein)
}

spec fn body_means(
    b: Builder,
    roots: Seq<DensityNode>,
    start: int,
    inp: MaterialInputs,
    height: HeightContext,
    stack: Seq<NameId>,
    rule: MaterialRule,
    answers: Seq<bool>,
    band: VoxelId,
    vein_answers: Seq<Option<VoxelId>>,
    biome: u32,
    probe: spec_fn(Probe) -> bool,
    vein: spec_fn(VeinSource) -> Option<VoxelId>,
) -> bool {
    fits(b, roots, answers, vein_answers, biome, probe, vein) ==> tail_run(
        b,
        start,
        answers,
        band,
        vein_answers,
    ) == rule_body_value(inp, height, stack, rule, biome, probe, band, vein)
}

spec fn members_means(
    b: Builder,
    roots: Seq<DensityNode>,
    start: int,
    inp: MaterialInputs,
    height: HeightContext,
    stack: Seq<NameId>,
    members: Vec<MaterialRuleHolder>,
    n: int,
    answers: Seq<bool>,
    band: VoxelId,
    vein_answers: Seq<Option<VoxelId>>,
    biome: u32,
    probe: spec_fn(Probe) -> bool,
    vein: spec_fn(VeinSource) -> Option<VoxelId>,
) -> bool {
    fits(b, roots, answers, vein_answers, biome, probe, vein) ==> tail_run(
        b,
        start,
        answers,
        band,
        vein_answers,
    ) == members_value(inp, height, stack, members, n, biome, probe, band, vein)
}

spec fn holder_done(
    b0: Builder,
    b1: Builder,
    r0: Seq<DensityNode>,
    r1: Seq<DensityNode>,
    inp: MaterialInputs,
    height: HeightContext,
    holder: MaterialRuleHolder,
) -> bool {
    &&& rule_step(b0, b1, r0, r1, inp)
    &&& forall|
        answers: Seq<bool>,
        band: VoxelId,
        vein_answers: Seq<Option<VoxelId>>,
        biome: u32,
        probe: spec_fn(Probe) -> bool,
        vein: spec_fn(VeinSource) -> Option<VoxelId>,
    |
        #[trigger] holder_means(
            b1,
            r1,
            b0.tape@.len() as int,
            inp,
            height,
            b0.rule_stack@,
            holder,
            answers,
            band,
            vein_answers,
            biome,
            probe,
            vein,
        )
}

spec fn body_done(
    b0: Builder,
    b1: Builder,
    r0: Seq<DensityNode>,
    r1: Seq<DensityNode>,
    inp: MaterialInputs,
    height: HeightContext,
    rule: MaterialRule,
) -> bool {
    &&& rule_step(b0, b1, r0, r1, inp)
    &&& forall|
        answers: Seq<bool>,
        band: VoxelId,
        vein_answers: Seq<Option<VoxelId>>,
        biome: u32,
        probe: spec_fn(Probe) -> bool,
        vein: spec_fn(VeinSource) -> Option<VoxelId>,
    |
        #[trigger] body_means(
            b1,
            r1,
            b0.tape@.len() as int,
            inp,
            height,
            b0.rule_stack@,
            rule,
            answers,
            band,
            vein_answers,
            biome,
            probe,
            vein,
        )
}

/// What a finished step over `s..e` says still holds once the builder has
/// grown past it.
proof fn lemma_segment_kept(
    b1: Builder,
    b2: Builder,
    r1: Seq<DensityNode>,
    r2: Seq<DensityNode>,
    s: int,
    answers: Seq<bool>,
    band: VoxelId,
    vein_answers: Seq<Option<VoxelId>>,
    biome: u32,
    probe: spec_fn(Probe) -> bool,
    vein: spec_fn(VeinSource) -> Option<VoxelId>,
)
    requires
        grown(b1, b2, r1, r2),
        tables_wf(b1.tables),
        veins_rooted(b1, r1.len()),
        0 <= s <= b1.tape@.len(),
        fits(b2, r2, answers, vein_answers, biome, probe, vein),
    ensures
        fits(b1, r1, answers, vein_answers, biome, probe, vein),
        run_within(b2.tape@, s, b1.tape@.len() as int, answers, band, vein_answers) == tail_run(
            b1,
            s,
            answers,
            band,
            vein_answers,
        ),
{
    lemma_fits_prefix(b1, b2, r1, r2, answers, vein_answers, biome, probe, vein);
    assert forall|i: int| s <= i < b1.tape@.len() implies b2.tape@[i] == b1.tape@[i] by {
        assert(b2.tape@[i] == b2.tape@.take(b1.tape@.len() as int)[i]);
    }
    lemma_run_same(b2.tape@, b1.tape@, s, b1.tape@.len() as int, answers, band, vein_answers);
}

proof fn lemma_grown_refl(b: Builder, r: Seq<DensityNode>)
    ensures
        grown(b, b, r, r),
{
    lemma_extend_refl(b.tables);
    assert(b.veins@.take(b.veins@.len() as int) =~= b.veins@);
    assert(r.take(r.len() as int) =~= r);
    assert(b.tape@.take(b.tape@.len() as int) =~= b.tape@);
}

proof fn lemma_grown_trans(
    b0: Builder,
    b1: Builder,
    b2: Builder,
    r0: Seq<DensityNode>,
    r1: Seq<DensityNode>,
    r2: Seq<DensityNode>,
)
    requires
        grown(b0, b1, r0, r1),
        grown(b1, b2, r1, r2),
    ensures
        grown(b0, b2, r0, r2),
{
    lemma_extend_trans(b0.tables, b1.tables, b2.tables);
    assert(b2.veins@.take(b0.veins@.len() as int) =~= b1.veins@.take(b0.veins@.len() as int));
    assert(r2.take(r0.len() as int) =~= r1.take(r0.len() as int));
    assert(b2.tape@.take(b0.tape@.len() as int) =~= b1.tape@.take(b0.tape@.len() as int));
}

impl Builder {
    /// Appends an instruction that ends the run.
    fn push_final(&mut self, inp: &MaterialInputs, op: Op, Ghost(roots): Ghost<Seq<DensityNode>>)
        requires
            builder_wf(*old(self), *inp),
            veins_rooted(*old(self), roots.len()),
            op is Block || op is Bandlands,
        ensures
            load(*final(self)) == load(*old(self)) + 1,
            final(self).tape@ == old(self).tape@.push(op),
            rule_step(*old(self), *final(self), roots, roots, *inp),
    {
        proof {
            reveal(builder_wf);
        }
        let ghost b0 = *self;
        self.tape.push(op);
        proof {
            lemma_extend_refl(self.tables);
            assert(self.veins@.take(self.veins@.len() as int) =~= self.veins@);
            assert(roots.take(roots.len() as int) =~= roots);
            assert(self.tape@.take(b0.tape@.len() as int) =~= b0.tape@);
            assert(tape_refs(b0.tape@, b0.tables.conditions@.len(), b0.veins@.len()));
            assert forall|i: int| 0 <= i < self.tape@.len() implies match #[trigger] self.tape@[i] {
                Op::Guard { condition, .. } => condition < self.tables.conditions@.len(),
                Op::OreVein { vein } => vein < self.veins@.len(),
                _ => true,
            } by {
                if i < b0.tape@.len() {
                    assert(self.tape@[i] == b0.tape@[i]);
                }
            }
        }
    }

    fn rule_holder(
        &mut self,
        inp: &MaterialInputs,
        height: HeightContext,
        roots: &mut Vec<DensityNode>,
        holder: &MaterialRuleHolder,
    ) -> (res: Result<(), CompileError>)
        requires
            builder_wf(*old(self), *inp),
            veins_rooted(*old(self), old(roots)@.len()),
            old(self).condition_stack@.len() == 0,
        ensures
            within_load(*old(self), *final(self), res, rule_holder_size(*inp, old(self).rule_stack@, *holder) as int),
            outcome(res, rule_holder_error(*inp, old(self).rule_stack@, *holder)),
            res is Ok ==> holder_done(
                *old(self),
                *final(self),
                old(roots)@,
                final(roots)@,
                *inp,
                height,
                *holder,
            ),
        decreases inp.rules@.len() - self.rule_stack@.len(), *holder, 2int,
    {
        proof {
            reveal(builder_wf);
        }
        match holder {
            MaterialRuleHolder::Owned(rule) => {
                let ghost b0 = *self;
                let ghost r0 = roots@;
                let res = self.rule_body(inp, height, roots, rule);
                proof {
                    if res is Ok {
                        assert forall|
                            answers: Seq<bool>,
                            band: VoxelId,
                            vein_answers: Seq<Option<VoxelId>>,
                            biome: u32,
                            probe: spec_fn(Probe) -> bool,
                            vein: spec_fn(VeinSource) -> Option<VoxelId>,
                        |
                            #[trigger] holder_means(
                                *self,
                                roots@,
                                b0.tape@.len() as int,
                                *inp,
                                height,
                                b0.rule_stack@,
                                *holder,
                                answers,
                                band,
                                vein_answers,
                                biome,
                                probe,
                                vein,
                            ) by {
                            assert(body_means(
                                *self,
                                roots@,
                                b0.tape@.len() as int,
                                *inp,
                                height,
                                b0.rule_stack@,
                                **rule,
                                answers,
                                band,
                                vein_answers,
                                biome,
                                probe,
                                vein,
                            ));
                        }
                    }
                }
                res
            },
            MaterialRuleHolder::Reference(id) => {
                let id = *id;
                if stack_contains(&self.rule_stack, id) {
                    return Err(CompileError::ReferenceCycle(id));
                }
                if id as usize >= inp.rules.len() {
                    return Err(CompileError::UnknownRule(id));
                }
                let next = match &inp.rules[id as usize] {
                    Some(next) => next,
                    None => {
                        return Err(CompileError::UnknownRule(id));
                    },
                };
                proof {
                    let pushed = self.rule_stack@.push(id);
                    assert forall|i: int| 0 <= i < pushed.len() implies pushed[i]
                        < inp.rules@.len() by {
                        if i < self.rule_stack@.len() {
                            assert(rule_entry(*inp, self.rule_stack@[i]) is Some);
                        }
                    }
                    lemma_distinct_below(pushed, inp.rules@.len() as int);
                }
                let ghost b0 = *self;
                let ghost r0 = roots@;
                self.rule_stack.push(id);
                proof {
                    assert forall|i: int| 0 <= i < self.rule_stack@.len() implies rule_entry(
                        *inp,
                        #[trigger] self.rule_stack@[i],
                    ) is Some by {
                        if i < b0.rule_stack@.len() {
                            assert(self.rule_stack@[i] == b0.rule_stack@[i]);
                        }
                    }
                }
                let ghost b1 = *self;
                let res = self.rule_holder(inp, height, roots, next);
                match res {
                    Ok(()) => {
                        let ghost b2 = *self;
                        self.rule_stack.pop();
                        proof {
                            assert(self.rule_stack@ =~= b0.rule_stack@);
                            assert forall|
                                answers: Seq<bool>,
                                band: VoxelId,
                                vein_answers: Seq<Option<VoxelId>>,
                                biome: u32,
                                probe: spec_fn(Probe) -> bool,
                                vein: spec_fn(VeinSource) -> Option<VoxelId>,
                            |
                                #[trigger] holder_means(
                                    *self,
                                    roots@,
                                    b0.tape@.len() as int,
                                    *inp,
                                    height,
                                    b0.rule_stack@,
                                    *holder,
                                    answers,
                                    band,
                                    vein_answers,
                                    biome,
                                    probe,
                                    vein,
                                ) by {
                                assert(holder_means(
                                    b2,
                                    roots@,
                                    b1.tape@.len() as int,
                                    *inp,
                                    height,
                                    b1.rule_stack@,
                                    *next,
                                    answers,
                                    band,
                                    vein_answers,
                                    biome,
                                    probe,
                                    vein,
                                ));
                            }
                        }
                        Ok(())
                    },
                    Err(e) => Err(e),
                }
            },
        }
    }

    fn rule_body(
        &mut self,
        inp: &MaterialInputs,
        height: HeightContext,
        roots: &mut Vec<DensityNode>,
        rule: &MaterialRule,
    ) -> (res: Result<(), CompileError>)
        requires
            builder_wf(*old(self), *inp),
            veins_rooted(*old(self), old(roots)@.len()),
            old(self).condition_stack@.len() == 0,
        ensures
            within_load(*old(self), *final(self), res, rule_body_size(*inp, old(self).rule_stack@, *rule) as int),
            outcome(res, rule_body_error(*inp, old(self).rule_stack@, *rule)),
            res is Ok ==> body_done(
                *old(self),
                *final(self),
                old(roots)@,
                final(roots)@,
                *inp,
                height,
                *rule,
            ),
        decreases inp.rules@.len() - self.rule_stack@.len(), *rule, 1int,
    {
        proof {
            reveal(builder_wf);
        }
        let ghost b0 = *self;
        let ghost r0 = roots@;
        match rule {
            MaterialRule::Block { result_state } => {
                let state = resolve_block(inp, *result_state)?;
                self.push_final(inp, Op::Block { state }, Ghost(roots@));
                proof {
                    assert forall|
                        answers: Seq<bool>,
                        band: VoxelId,
                        vein_answers: Seq<Option<VoxelId>>,
                        biome: u32,
                        probe: spec_fn(Probe) -> bool,
                        vein: spec_fn(VeinSource) -> Option<VoxelId>,
                    |
                        #[trigger] body_means(
                            *self,
                            roots@,
                            b0.tape@.len() as int,
                            *inp,
                            height,
                            b0.rule_stack@,
                            *rule,
                            answers,
                            band,
                            vein_answers,
                            biome,
                            probe,
                            vein,
                        ) by {
                        assert(self.tape@[b0.tape@.len() as int] == Op::Block { state });
                    }
                }
                Ok(())
            },
            MaterialRule::Bandlands => {
                self.push_final(inp, Op::Bandlands, Ghost(roots@));
                proof {
                    assert forall|
                        answers: Seq<bool>,
                        band: VoxelId,
                        vein_answers: Seq<Option<VoxelId>>,
                        biome: u32,
                        probe: spec_fn(Probe) -> bool,
                        vein: spec_fn(VeinSource) -> Option<VoxelId>,
                    |
                        #[trigger] body_means(
                            *self,
                            roots@,
                            b0.tape@.len() as int,
                            *inp,
                            height,
                            b0.rule_stack@,
                            *rule,
                            answers,
                            band,
                            vein_answers,
                            biome,
                            probe,
                            vein,
                        ) by {
                        assert(self.tape@[b0.tape@.len() as int] == Op::Bandlands);
                    }
                }
                Ok(())
            },
            MaterialRule::Condition { if_true, then_run } => self.rule_condition(
                inp,
                height,
                roots,
                rule,
                if_true,
                then_run,
            ),
            MaterialRule::OreVein { .. } => self.rule_vein(inp, height, roots, rule),
            MaterialRule::Sequence { sequence } => self.rule_sequence(
                inp,
                height,
                roots,
                rule,
                sequence,
            ),
        }
    }

    fn rule_vein(
        &mut self,
        inp: &MaterialInputs,
        height: HeightContext,
        roots: &mut Vec<DensityNode>,
        rule: &MaterialRule,
    ) -> (res: Result<(), CompileError>)
        requires
            builder_wf(*old(self), *inp),
            veins_rooted(*old(self), old(roots)@.len()),
            *rule is OreVein,
        ensures
            within_load(*old(self), *final(self), res, 3),
            outcome(res, rule_body_error(*inp, old(self).rule_stack@, *rule)),
            res is Ok ==> body_done(
                *old(self),
                *final(self),
                old(roots)@,
                final(roots)@,
                *inp,
                height,
                *rule,
            ),
    {
        proof {
            reveal(builder_wf);
        }
        let ghost b0 = *self;
        let ghost r0 = roots@;
        let (ore_block, raw_ore_block, filler_block, raw_ore_chance, density, richness, filler_gap) =
            match rule {
            MaterialRule::OreVein {
                ore_block,
                raw_ore_block,
                filler_block,
                raw_ore_chance,
                density,
                richness,
                filler_gap,
            } => (
                *ore_block,
                *raw_ore_block,
                *filler_block,
                *raw_ore_chance,
                *density,
                *richness,
                *filler_gap,
            ),
            _ => {
                return Err(CompileError::TableOverflow);
            },
        };
        let ore = resolve_block(inp, ore_block)?;
        let raw_ore = resolve_block(inp, raw_ore_block)?;
        let filler = resolve_block(inp, filler_block)?;
        let density_root = roots.len();
        roots.push(density);
        let richness_root = roots.len();
        roots.push(richness);
        let gap_root = roots.len();
        roots.push(filler_gap);
        let random = self.random(inp, inp.ore_random)?;
        if self.veins.len() >= u32::MAX as usize {
            return Err(CompileError::TableOverflow);
        }
        let ghost b1 = *self;
        let id = self.veins.len() as VeinId;
        self.veins.push(
            OreVein {
                ore,
                raw_ore,
                filler,
                raw_ore_chance,
                density: density_root,
                richness: richness_root,
                filler_gap: gap_root,
                random,
            },
        );
        self.tape.push(Op::OreVein { vein: id });
        proof {
            let s = b0.tape@.len() as int;
            assert(roots@.take(r0.len() as int) =~= r0);
            assert(self.veins@.take(b0.veins@.len() as int) =~= b0.veins@);
            assert(self.tape@.take(s) =~= b0.tape@);
            assert(tape_refs(b1.tape@, b1.tables.conditions@.len(), b1.veins@.len()));
            assert forall|i: int| 0 <= i < self.tape@.len() implies match #[trigger] self.tape@[i] {
                Op::Guard { condition, .. } => condition < self.tables.conditions@.len(),
                Op::OreVein { vein } => vein < self.veins@.len(),
                _ => true,
            } by {
                if i < s {
                    assert(self.tape@[i] == b1.tape@[i]);
                }
            }
            assert forall|v: int| 0 <= v < self.veins@.len() implies #[trigger] self.veins@[v].random
                < self.tables.randoms@.len() && self.tables.randoms@[self.veins@[v].random as int]
                == inp.ore_random by {
                if v < b0.veins@.len() {
                    assert(self.veins@[v] == b1.veins@[v]);
                }
            }
            assert forall|v: int| 0 <= v < self.veins@.len() implies #[trigger] self.veins@[v].density
                < roots@.len() && self.veins@[v].richness < roots@.len()
                && self.veins@[v].filler_gap < roots@.len() by {
                if v < b0.veins@.len() {
                    assert(self.veins@[v] == b0.veins@[v]);
                }
            }
            assert forall|
                answers: Seq<bool>,
                band: VoxelId,
                vein_answers: Seq<Option<VoxelId>>,
                biome: u32,
                probe: spec_fn(Probe) -> bool,
                vein: spec_fn(VeinSource) -> Option<VoxelId>,
            |
                #[trigger] body_means(
                    *self,
                    roots@,
                    s,
                    *inp,
                    height,
                    b0.rule_stack@,
                    *rule,
                    answers,
                    band,
                    vein_answers,
                    biome,
                    probe,
                    vein,
                ) by {
                assert(self.tape@[s] == Op::OreVein { vein: id });
                assert(run_within(self.tape@, s + 1, s + 1, answers, band, vein_answers) is None);
                if fits(*self, roots@, answers, vein_answers, biome, probe, vein) {
                    assert(vein_answers[id as int] == vein(
                        vein_source(self.veins@[id as int], roots@),
                    ));
                    assert(vein_source(self.veins@[id as int], roots@) == (VeinSource {
                        ore,
                        raw_ore,
                        filler,
                        raw_ore_chance,
                        density,
                        richness,
                        filler_gap,
                    }));
                }
            }
        }
        Ok(())
    }

    fn rule_sequence(
        &mut self,
        inp: &MaterialInputs,
        height: HeightContext,
        roots: &mut Vec<DensityNode>,
        rule: &MaterialRule,
        sequence: &Vec<MaterialRuleHolder>,
    ) -> (res: Result<(), CompileError>)
        requires
            builder_wf(*old(self), *inp),
            veins_rooted(*old(self), old(roots)@.len()),
            old(self).condition_stack@.len() == 0,
            *rule == (MaterialRule::Sequence { sequence: *sequence }),
        ensures
            within_load(*old(self), *final(self), res, rule_body_size(*inp, old(self).rule_stack@, *rule) as int),
            outcome(res, rule_body_error(*inp, old(self).rule_stack@, *rule)),
            res is Ok ==> body_done(
                *old(self),
                *final(self),
                old(roots)@,
                final(roots)@,
                *inp,
                height,
                *rule,
            ),
        decreases inp.rules@.len() - self.rule_stack@.len(), *rule, 0int,
    {
        proof {
            reveal(builder_wf);
        }
        let ghost b0 = *self;
        let ghost r0 = roots@;
        let ghost s = b0.tape@.len() as int;
        proof {
            lemma_grown_refl(b0, r0);
        }
        let mut i: usize = 0;
        while i < sequence.len()
            invariant
                i <= sequence@.len(),
                *rule == (MaterialRule::Sequence { sequence: *sequence }),
                b0 == *old(self),
                r0 == old(roots)@,
                s == b0.tape@.len(),
                rule_step(b0, *self, r0, roots@, *inp),
                self.condition_stack@.len() == 0,
                self.rule_stack@.len() == b0.rule_stack@.len(),
                members_error(*inp, b0.rule_stack@, *sequence, i as int) is None,
                load(*self) <= load(b0) + members_size(*inp, b0.rule_stack@, *sequence, i as int),
                forall|
                    answers: Seq<bool>,
                    band: VoxelId,
                    vein_answers: Seq<Option<VoxelId>>,
                    biome: u32,
                    probe: spec_fn(Probe) -> bool,
                    vein: spec_fn(VeinSource) -> Option<VoxelId>,
                |
                    #[trigger] members_means(
                        *self,
                        roots@,
                        s,
                        *inp,
                        height,
                        b0.rule_stack@,
                        *sequence,
                        i as int,
                        answers,
                        band,
                        vein_answers,
                        biome,
                        probe,
                        vein,
                    ),
            decreases sequence.len() - i,
        {
            let ghost bm = *self;
            let ghost rm = roots@;
            proof {
                assert(decreases_to!(*sequence => sequence[i as int]));
                assert(decreases_to!(*rule => *sequence));
                assert(decreases_to!(*rule => sequence[i as int]));
            }
            let res = self.rule_holder(inp, height, roots, &sequence[i]);
            match res {
                Err(e) => {
                    proof {
                        lemma_members_size_grows(
                            *inp,
                            b0.rule_stack@,
                            *sequence,
                            i + 1,
                            sequence@.len() as int,
                        );
                        if e != CompileError::TableOverflow {
                            assert(bm.rule_stack@ == b0.rule_stack@);
                            assert(rule_holder_error(*inp, b0.rule_stack@, sequence@[i as int]) == Some(e));
                            assert(members_error(*inp, b0.rule_stack@, *sequence, i + 1) == Some(e));
                            lemma_members_error_stays(
                                *inp,
                                b0.rule_stack@,
                                *sequence,
                                i + 1,
                                sequence@.len() as int,
                            );
                        }
                    }
                    return Err(e);
                },
                Ok(()) => {},
            }
            proof {
                reveal(builder_wf);
                let bn = *self;
                let rn = roots@;
                let em = bm.tape@.len() as int;
                let en = bn.tape@.len() as int;
                lemma_grown_trans(b0, bm, bn, r0, rm, rn);
                assert forall|k: int| s <= k < en implies match #[trigger] bn.tape@[k] {
                    Op::Guard { skip_to, .. } => k < skip_to <= en,
                    _ => true,
                } by {
                    if k < em {
                        assert(bn.tape@[k] == bn.tape@.take(em)[k]);
                        assert(jumps_within(bm.tape@, s, em));
                    } else {
                        assert(jumps_within(bn.tape@, em, en));
                    }
                }
                assert(members_error(*inp, b0.rule_stack@, *sequence, i + 1) is None);
                assert forall|k: int| s <= k < em implies match #[trigger] bn.tape@[k] {
                    Op::Guard { skip_to, .. } => k < skip_to <= em,
                    _ => true,
                } by {
                    assert(bn.tape@[k] == bn.tape@.take(em)[k]);
                    assert(jumps_within(bm.tape@, s, em));
                }
                assert forall|
                    answers: Seq<bool>,
                    band: VoxelId,
                    vein_answers: Seq<Option<VoxelId>>,
                    biome: u32,
                    probe: spec_fn(Probe) -> bool,
                    vein: spec_fn(VeinSource) -> Option<VoxelId>,
                |
                    #[trigger] members_means(
                        bn,
                        rn,
                        s,
                        *inp,
                        height,
                        b0.rule_stack@,
                        *sequence,
                        i + 1,
                        answers,
                        band,
                        vein_answers,
                        biome,
                        probe,
                        vein,
                    ) by {
                    if fits(bn, rn, answers, vein_answers, biome, probe, vein) {
                        lemma_segment_kept(
                            bm,
                            bn,
                            rm,
                            rn,
                            s,
                            answers,
                            band,
                            vein_answers,
                            biome,
                            probe,
                            vein,
                        );
                        assert(members_means(
                            bm,
                            rm,
                            s,
                            *inp,
                            height,
                            b0.rule_stack@,
                            *sequence,
                            i as int,
                            answers,
                            band,
                            vein_answers,
                            biome,
                            probe,
                            vein,
                        ));
                        assert(holder_means(
                            bn,
                            rn,
                            em,
                            *inp,
                            height,
                            bm.rule_stack@,
                            sequence@[i as int],
                            answers,
                            band,
                            vein_answers,
                            biome,
                            probe,
                            vein,
                        ));
                        assert(jumps_within(bn.tape@, s, em));
                        lemma_run_split(bn.tape@, s, em, en, answers, band, vein_answers);
                    }
                }
            }
            i += 1;
        }
        proof {
            assert forall|
                answers: Seq<bool>,
                band: VoxelId,
                vein_answers: Seq<Option<VoxelId>>,
                biome: u32,
                probe: spec_fn(Probe) -> bool,
                vein: spec_fn(VeinSource) -> Option<VoxelId>,
            |
                #[trigger] body_means(
                    *self,
                    roots@,
                    s,
                    *inp,
                    height,
                    b0.rule_stack@,
                    *rule,
                    answers,
                    band,
                    vein_answers,
                    biome,
                    probe,
                    vein,
                ) by {
                assert(members_means(
                    *self,
                    roots@,
                    s,
                    *inp,
                    height,
                    b0.rule_stack@,
                    *sequence,
                    sequence@.len() as int,
                    answers,
                    band,
                    vein_answers,
                    biome,
                    probe,
                    vein,
                ));
            }
        }
        Ok(())
    }

    fn rule_condition(
        &mut self,
        inp: &MaterialInputs,
        height: HeightContext,
        roots: &mut Vec<DensityNode>,
        rule: &MaterialRule,
        if_true: &MaterialConditionHolder,
        then_run: &MaterialRuleHolder,
    ) -> (res: Result<(), CompileError>)
        requires
            builder_wf(*old(self), *inp),
            veins_rooted(*old(self), old(roots)@.len()),
            old(self).condition_stack@.len() == 0,
            *rule == (MaterialRule::Condition { if_true: *if_true, then_run: *then_run }),
        ensures
            within_load(*old(self), *final(self), res, rule_body_size(*inp, old(self).rule_stack@, *rule) as int),
            outcome(res, rule_body_error(*inp, old(self).rule_stack@, *rule)),
            res is Ok ==> body_done(
                *old(self),
                *final(self),
                old(roots)@,
                final(roots)@,
                *inp,
                height,
                *rule,
            ),
        decreases inp.rules@.len() - self.rule_stack@.len(), *rule, 0int,
    {
        proof {
            reveal(builder_wf);
        }
        let ghost b0 = *self;
        let ghost r0 = roots@;
        proof {
            assert(self.condition_stack@ =~= Seq::<NameId>::empty());
        }
        let condition = self.cond_holder(inp, height, if_true)?;
        let ghost b1 = *self;
        let guard = self.tape.len();
        self.tape.push(Op::Guard { condition, skip_to: 0 });
        let ghost b2 = *self;
        proof {
            lemma_grown_refl(b1, r0);
            assert(tape_refs(b1.tape@, b1.tables.conditions@.len(), b1.veins@.len()));
            assert forall|i: int| 0 <= i < self.tape@.len() implies match #[trigger] self.tape@[i] {
                Op::Guard { condition, .. } => condition < self.tables.conditions@.len(),
                Op::OreVein { vein } => vein < self.veins@.len(),
                _ => true,
            } by {
                if i < b1.tape@.len() {
                    assert(self.tape@[i] == b1.tape@[i]);
                }
            }
            assert forall|v: int| 0 <= v < self.veins@.len() implies #[trigger] self.veins@[v].density
                < r0.len() && self.veins@[v].richness < r0.len() && self.veins@[v].filler_gap
                < r0.len() by {
                assert(self.veins@[v] == b0.veins@[v]);
            }
        }
        self.rule_holder(inp, height, roots, then_run)?;
        let ghost b3 = *self;
        let end = self.tape.len();
        if end > u32::MAX as usize {
            return Err(CompileError::TableOverflow);
        }
        self.tape.set(guard, Op::Guard { condition, skip_to: end as u32 });
        proof {
            let s = guard as int;
            let e = end as int;
            assert(b3.tape@[s] == b3.tape@.take(b2.tape@.len() as int)[s]);
            assert(self.tape@.take(s) =~= b3.tape@.take(s));
            assert(b3.tape@.take(s) =~= b2.tape@.take(s));
            assert(b2.tape@.take(s) =~= b0.tape@);
            assert(self.tape@.take(b0.tape@.len() as int) =~= b0.tape@);
            lemma_tables_only_trans(b0, b1, b1);
            assert(self.veins@.take(b0.veins@.len() as int) =~= b3.veins@.take(
                b0.veins@.len() as int,
            ));
            assert(self.tables == b3.tables);
            lemma_extend_trans(b0.tables, b1.tables, b3.tables);
            assert(tape_refs(b3.tape@, b3.tables.conditions@.len(), b3.veins@.len()));
            assert(condition < b1.tables.conditions@.len());
            assert forall|i: int| 0 <= i < self.tape@.len() implies match #[trigger] self.tape@[i] {
                Op::Guard { condition, .. } => condition < self.tables.conditions@.len(),
                Op::OreVein { vein } => vein < self.veins@.len(),
                _ => true,
            } by {
                if i != s {
                    assert(self.tape@[i] == b3.tape@[i]);
                }
            }
            assert forall|i: int| s <= i < e implies match #[trigger] self.tape@[i] {
                Op::Guard { skip_to, .. } => i < skip_to <= e,
                _ => true,
            } by {
                if i != s {
                    assert(self.tape@[i] == b3.tape@[i]);
                    assert(jumps_within(b3.tape@, s + 1, e));
                }
            }
            assert forall|
                answers: Seq<bool>,
                band: VoxelId,
                vein_answers: Seq<Option<VoxelId>>,
                biome: u32,
                probe: spec_fn(Probe) -> bool,
                vein: spec_fn(VeinSource) -> Option<VoxelId>,
            |
                #[trigger] body_means(
                    *self,
                    roots@,
                    s,
                    *inp,
                    height,
                    b0.rule_stack@,
                    *rule,
                    answers,
                    band,
                    vein_answers,
                    biome,
                    probe,
                    vein,
                ) by {
                if fits(*self, roots@, answers, vein_answers, biome, probe, vein) {
                    assert(holder_means(
                        b3,
                        roots@,
                        s + 1,
                        *inp,
                        height,
                        b2.rule_stack@,
                        *then_run,
                        answers,
                        band,
                        vein_answers,
                        biome,
                        probe,
                        vein,
                    ));
                    assert forall|i: int| s + 1 <= i < e implies self.tape@[i] == b3.tape@[i] by {}
                    lemma_run_same(self.tape@, b3.tape@, s + 1, e, answers, band, vein_answers);
                    lemma_answer_stable(b1.tables, self.tables, condition as int, biome, probe);
                    assert(answers[condition as int] == condition_answer(
                        self.tables,
                        condition as int,
                        biome,
                        probe,
                    ));
                    assert(self.tape@[s] == Op::Guard { condition, skip_to: end as u32 });
                    assert(run_within(self.tape@, e, e, answers, band, vein_answers) is None);
                }
            }
        }
        Ok(())
    }
}

proof fn lemma_tables_only_trans(b0: Builder, b1: Builder, b2: Builder)
    requires
        tables_only(b0, b1),
        tables_only(b1, b2),
    ensures
        tables_only(b0, b2),
{
    lemma_extend_trans(b0.tables, b1.tables, b2.tables);
}

proof fn lemma_extend_trans(t0: ConditionTables, t1: ConditionTables, t2: ConditionTables)
    requires
        tables_extend(t0, t1),
        tables_extend(t1, t2),
    ensures
        tables_extend(t0, t2),
{
    assert(t2.conditions@.take(t0.conditions@.len() as int) =~= t1.conditions@.take(
        t0.conditions@.len() as int,
    ));
    assert(t2.noises@.take(t0.noises@.len() as int) =~= t1.noises@.take(t0.noises@.len() as int));
    assert(t2.biome_sets@.take(t0.biome_sets@.len() as int) =~= t1.biome_sets@.take(
        t0.biome_sets@.len() as int,
    ));
    assert(t2.randoms@.take(t0.randoms@.len() as int) =~= t1.randoms@.take(
        t0.randoms@.len() as int,
    ));
}

/// Interning a new condition keeps the tables well formed.
proof fn lemma_push_condition(t0: ConditionTables, t1: ConditionTables, kind: Condition, scope: Scope)
    requires
        tables_wf(t0),
        kind_refs(t0, kind),
        scope == kind_scope(t0, kind),
        t1.conditions@ == t0.conditions@.push(CompiledCondition { kind, scope }),
        t1.noises@ == t0.noises@,
        t1.biome_sets@ == t0.biome_sets@,
        t1.randoms@ == t0.randoms@,
    ensures
        tables_wf(t1),
        tables_extend(t0, t1),
{
    assert(t1.conditions@.take(t0.conditions@.len() as int) =~= t0.conditions@);
    assert(t1.noises@.take(t0.noises@.len() as int) =~= t0.noises@);
    assert(t1.biome_sets@.take(t0.biome_sets@.len() as int) =~= t0.biome_sets@);
    assert(t1.randoms@.take(t0.randoms@.len() as int) =~= t0.randoms@);
    assert forall|c: int| 0 <= c < t1.conditions@.len() implies {
        let cc = #[trigger] t1.conditions@[c];
        &&& cc.scope == kind_scope(t1, cc.kind)
        &&& match cc.kind {
            Condition::Not(inner) => inner < c,
            Condition::Biome { set } => set < t1.biome_sets@.len(),
            Condition::NoiseThreshold { noise, is_3d, .. } => noise < t1.noises@.len()
                && t1.noises@[noise as int].1 == is_3d,
            Condition::VerticalGradient { random, .. } => random < t1.randoms@.len(),
            _ => true,
        }
    } by {
        if c < t0.conditions@.len() {
            assert(t0.conditions@[c] == t1.conditions@[c]);
            match t1.conditions@[c].kind {
                Condition::Not(inner) => {
                    assert(t0.conditions@[inner as int] == t1.conditions@[inner as int]);
                },
                _ => {},
            }
        } else {
            match kind {
                Condition::Not(inner) => {
                    assert(t0.conditions@[inner as int] == t1.conditions@[inner as int]);
                },
                _ => {},
            }
        }
    }
}

/// Growing a table other than the conditions keeps the tables well formed.
proof fn lemma_push_table(t0: ConditionTables, t1: ConditionTables)
    requires
        tables_wf(t0),
        t1.conditions@ == t0.conditions@,
        t1.noises@ == t0.noises@,
        t1.biome_sets@.take(t0.biome_sets@.len() as int) == t0.biome_sets@,
        t0.biome_sets@.len() <= t1.biome_sets@.len(),
        t1.randoms@.take(t0.randoms@.len() as int) == t0.randoms@,
        t0.randoms@.len() <= t1.randoms@.len(),
    ensures
        tables_wf(t1),
        tables_extend(t0, t1),
{
    assert(t1.noises@.take(t0.noises@.len() as int) =~= t0.noises@);
    assert(t1.conditions@.take(t0.conditions@.len() as int) =~= t0.conditions@);
}

/// Interning a noise keeps the tables well formed.
proof fn lemma_push_noise(t0: ConditionTables, t1: ConditionTables)
    requires
        tables_wf(t0),
        t1.conditions@ == t0.conditions@,
        t1.biome_sets@ == t0.biome_sets@,
        t1.randoms@ == t0.randoms@,
        t1.noises@.take(t0.noises@.len() as int) == t0.noises@,
        t0.noises@.len() <= t1.noises@.len(),
    ensures
        tables_wf(t1),
        tables_extend(t0, t1),
{
    assert(t1.biome_sets@.take(t0.biome_sets@.len() as int) =~= t0.biome_sets@);
    assert(t1.randoms@.take(t0.randoms@.len() as int) =~= t0.randoms@);
    assert(t1.conditions@.take(t0.conditions@.len() as int) =~= t0.conditions@);
    assert forall|c: int| 0 <= c < t1.conditions@.len() implies {
        let cc = #[trigger] t1.conditions@[c];
        &&& cc.scope == kind_scope(t1, cc.kind)
        &&& match cc.kind {
            Condition::Not(inner) => inner < c,
            Condition::Biome { set } => set < t1.biome_sets@.len(),
            Condition::NoiseThreshold { noise, is_3d, .. } => noise < t1.noises@.len()
                && t1.noises@[noise as int].1 == is_3d,
            Condition::VerticalGradient { random, .. } => random < t1.randoms@.len(),
            _ => true,
        }
    } by {
        assert(t0.conditions@[c] == t1.conditions@[c]);
        match t1.conditions@[c].kind {
            Condition::NoiseThreshold { noise, .. } => {
                assert(t1.noises@[noise as int] == t1.noises@.take(
                    t0.noises@.len() as int,
                )[noise as int]);
            },
            _ => {},
        }
    }
}

// ---------------------------------------------------------------------------
// The whole stage
// ---------------------------------------------------------------------------
/// The heights anchors resolve against.
pub open spec fn height_of(settings: NoiseSettings, sea_level: i32) -> HeightContext {
    HeightContext {
        min_y: settings.min_y,
        depth: settings.height as i32,
        sea_level,
    }
}

/// The first of the first `n` surface noises the registry lacks.
pub open spec fn surface_error(inp: MaterialInputs, n: int) -> Option<CompileError>
    decreases n,
{
    if n <= 0 || n > 9 {
        None
    } else {
        match surface_error(inp, n - 1) {
            Some(e) => Some(e),
            None => if noise_known(inp, inp.surface_noises@[n - 1]) {
                None
            } else {
                Some(CompileError::UnknownNoise(inp.surface_noises@[n - 1]))
            },
        }
    }
}

/// The first of the first `n` clay colours the block registry lacks.
pub open spec fn colour_error(inp: MaterialInputs, n: int) -> Option<CompileError>
    decreases n,
{
    if n <= 0 || n > 7 {
        None
    } else {
        match colour_error(inp, n - 1) {
            Some(e) => Some(e),
            None => block_error(inp, inp.clay_colours@[n - 1]),
        }
    }
}

/// The first error compiling the rules named `root` meets: in the rules, then
/// in the surface noises, then in the clay colours.
pub open spec fn material_error(inp: MaterialInputs, root: NameId) -> Option<CompileError> {
    match rule_entry(inp, root) {
        None => Some(CompileError::UnknownRule(root)),
        Some(holder) => match rule_holder_error(inp, Seq::empty(), holder) {
            Some(e) => Some(e),
            None => match surface_error(inp, 9) {
                Some(e) => Some(e),
                None => colour_error(inp, 7),
            },
        },
    }
}

/// How many tape and table entries compiling the rules named `root` can
/// add; ids are 32 bits wide, so compilation fails once this reaches
/// `u32::MAX`.
pub open spec fn material_size(inp: MaterialInputs, root: NameId) -> nat {
    match rule_entry(inp, root) {
        Some(holder) => rule_holder_size(inp, Seq::empty(), holder) + 9,
        None => 0,
    }
}

/// The block the rules named `root` give a position.
pub open spec fn material_value(
    inp: MaterialInputs,
    height: HeightContext,
    root: NameId,
    biome: u32,
    probe: spec_fn(Probe) -> bool,
    band: VoxelId,
    vein: spec_fn(VeinSource) -> Option<VoxelId>,
) -> Option<VoxelId> {
    match rule_entry(inp, root) {
        Some(holder) => rule_holder_value(inp, height, Seq::empty(), holder, biome, probe, band, vein),
        None => None,
    }
}

proof fn lemma_prefix_error_stays_surface(inp: MaterialInputs, k: int, n: int)
    requires
        0 <= k <= n <= 9,
        surface_error(inp, k) is Some,
    ensures
        surface_error(inp, n) == surface_error(inp, k),
    decreases n - k,
{
    if k < n {
        lemma_prefix_error_stays_surface(inp, k, n - 1);
    }
}

proof fn lemma_prefix_error_stays_colour(inp: MaterialInputs, k: int, n: int)
    requires
        0 <= k <= n <= 7,
        colour_error(inp, k) is Some,
    ensures
        colour_error(inp, n) == colour_error(inp, k),
    decreases n - k,
{
    if k < n {
        lemma_prefix_error_stays_colour(inp, k, n - 1);
    }
}

/// Compiles the rules named `material_rule` into a tape. The density nodes
/// the ore veins read are appended to `roots`, and the veins refer to them
/// by their index there.
///
/// On success, walking the tape gives every position exactly the block the
/// rules give it: the first error the rules, the surface noises or the clay
/// colours meet is returned otherwise.
pub fn compile_material(
    roots: &mut Vec<DensityNode>,
    settings: &NoiseSettings,
    sea_level: i32,
    material_rule: NameId,
    inputs: &MaterialInputs,
) -> (res: Result<MaterialProgram, CompileError>)
    ensures
        outcome(res, material_error(*inputs, material_rule)),
        (res matches Err(e) && e == CompileError::TableOverflow) ==> material_size(
            *inputs,
            material_rule,
        ) >= u32::MAX,
        res is Ok ==> old(roots)@.len() <= final(roots)@.len() && final(roots)@.take(
            old(roots)@.len() as int,
        ) == old(roots)@,
        res matches Ok(program) ==> {
            &&& tables_wf(program.tables_view())
            &&& forall|v: int|
                0 <= v < program.veins_view().len() ==> {
                    let vein = #[trigger] program.veins_view()[v];
                    &&& vein.density < final(roots)@.len()
                    &&& vein.richness < final(roots)@.len()
                    &&& vein.filler_gap < final(roots)@.len()
                    &&& program.tables_view().randoms@[vein.random as int] == inputs.ore_random
                }
            &&& forall|k: int|
                0 <= k < 9 ==> program.tables_view().noises@[#[trigger] program.surface_noises_view()[k] as int]
                    == (inputs.surface_noises@[k], false)
            &&& forall|k: int|
                0 <= k < 7 ==> block_entry(*inputs, inputs.clay_colours@[k]) == Some(
                    #[trigger] program.clay_colours_view()[k],
                )
            &&& forall|
                answers: Seq<bool>,
                band: VoxelId,
                vein_answers: Seq<Option<VoxelId>>,
                biome: u32,
                probe: spec_fn(Probe) -> bool,
                vein: spec_fn(VeinSource) -> Option<VoxelId>,
            |
                answers_fit(
                    program.tables_view(),
                    program.veins_view(),
                    final(roots)@,
                    answers,
                    vein_answers,
                    biome,
                    probe,
                    vein,
                ) ==> #[trigger] run_within(
                    program.tape_view(),
                    0,
                    program.tape_view().len() as int,
                    answers,
                    band,
                    vein_answers,
                ) == #[trigger] material_value(
                    *inputs,
                    height_of(*settings, sea_level),
                    material_rule,
                    biome,
                    probe,
                    band,
                    vein,
                )
        },
{
    proof {
        reveal(builder_wf);
    }
    let height = HeightContext {
        min_y: settings.min_y,
        depth: #[verifier::truncate] (settings.height as i32),
        sea_level,
    };
    let mut builder = Builder {
        tape: Vec::new(),
        tables: ConditionTables {
            conditions: Vec::new(),
            noises: Vec::new(),
            biome_sets: Vec::new(),
            randoms: Vec::new(),
        },
        veins: Vec::new(),
        rule_stack: Vec::new(),
        condition_stack: Vec::new(),
    };
    if material_rule as usize >= inputs.rules.len() {
        return Err(CompileError::UnknownRule(material_rule));
    }
    let root = match &inputs.rules[material_rule as usize] {
        Some(root) => root,
        None => {
            return Err(CompileError::UnknownRule(material_rule));
        },
    };
    let ghost b0 = builder;
    let ghost r0 = roots@;
    proof {
        assert(builder.rule_stack@ =~= Seq::<NameId>::empty());
    }
    builder.rule_holder(inputs, height, roots, root)?;
    let ghost b1 = builder;
    let ghost r1 = roots@;
    proof {
        lemma_extend_refl(b1.tables);
    }
    let mut surface_noises: Vec<NoiseId> = Vec::new();
    let mut k: usize = 0;
    while k < 9
        invariant
            k <= 9,
            surface_noises@.len() == k,
            builder_wf(builder, *inputs),
            tables_only(b1, builder),
            material_error(*inputs, material_rule) == match surface_error(*inputs, 9) {
                Some(e) => Some(e),
                None => colour_error(*inputs, 7),
            },
            surface_error(*inputs, k as int) is None,
            load(builder) + 9 <= material_size(*inputs, material_rule) + k,
            forall|j: int|
                0 <= j < k ==> #[trigger] surface_noises@[j] < builder.tables.noises@.len()
                    && builder.tables.noises@[surface_noises@[j] as int] == (
                    inputs.surface_noises@[j],
                    false,
                ),
        decreases 9 - k,
    {
        let ghost bk = builder;
        let id = match builder.noise(inputs, inputs.surface_noises[k], false) {
            Ok(id) => id,
            Err(e) => {
                proof {
                    if e != CompileError::TableOverflow {
                        assert(surface_error(*inputs, k + 1) == Some(e));
                        lemma_prefix_error_stays_surface(*inputs, k + 1, 9);
                    }
                }
                return Err(e);
            },
        };
        proof {
            lemma_tables_only_trans(b1, bk, builder);
            assert forall|j: int| 0 <= j < k implies builder.tables.noises@[surface_noises@[j] as int]
                == bk.tables.noises@[surface_noises@[j] as int] by {
                assert(builder.tables.noises@.take(bk.tables.noises@.len() as int)[surface_noises@[j] as int]
                    == bk.tables.noises@[surface_noises@[j] as int]);
            }
        }
        surface_noises.push(id);
        k += 1;
    }
    let mut clay_colours: Vec<VoxelId> = Vec::new();
    let mut c: usize = 0;
    while c < 7
        invariant
            c <= 7,
            clay_colours@.len() == c,
            material_error(*inputs, material_rule) == colour_error(*inputs, 7),
            colour_error(*inputs, c as int) is None,
            forall|j: int|
                0 <= j < c ==> block_entry(*inputs, inputs.clay_colours@[j]) == Some(
                    #[trigger] clay_colours@[j],
                ),
        decreases 7 - c,
    {
        let colour = match resolve_block(inputs, inputs.clay_colours[c]) {
            Ok(colour) => colour,
            Err(e) => {
                proof {
                    assert(colour_error(*inputs, c + 1) == Some(e));
                    lemma_prefix_error_stays_colour(*inputs, c + 1, 7);
                }
                return Err(e);
            },
        };
        clay_colours.push(colour);
        c += 1;
    }
    let ghost b2 = builder;
    let program = MaterialProgram {
        tape: builder.tape,
        tables: builder.tables,
        veins: builder.veins,
        surface_noises,
        clay_colours,
    };
    proof {
        assert(grown(b1, b2, r1, r1)) by {
            assert(b2.veins@.take(b1.veins@.len() as int) =~= b1.veins@);
            assert(r1.take(r1.len() as int) =~= r1);
            assert(b2.tape@.take(b1.tape@.len() as int) =~= b1.tape@);
        }
        assert forall|
            answers: Seq<bool>,
            band: VoxelId,
            vein_answers: Seq<Option<VoxelId>>,
            biome: u32,
            probe: spec_fn(Probe) -> bool,
            vein: spec_fn(VeinSource) -> Option<VoxelId>,
        |
            answers_fit(
                program.tables_view(),
                program.veins_view(),
                r1,
                answers,
                vein_answers,
                biome,
                probe,
                vein,
            ) implies #[trigger] run_within(
                program.tape_view(),
                0,
                program.tape_view().len() as int,
                answers,
                band,
                vein_answers,
            ) == #[trigger] material_value(*inputs, height, material_rule, biome, probe, band, vein) by {
            lemma_fits_prefix(b1, b2, r1, r1, answers, vein_answers, biome, probe, vein);
            assert(holder_means(
                b1,
                r1,
                0,
                *inputs,
                height,
                b0.rule_stack@,
                *root,
                answers,
                band,
                vein_answers,
                biome,
                probe,
                vein,
            ));
        }
    }
    Ok(program)
}

} // verus!
