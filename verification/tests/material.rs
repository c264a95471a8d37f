use mcrs_minecraft_worldgen::material::compile::{
    compile_material, BiomeMask, CompileError, Condition, MaterialInputs, Op, Scope, SurfaceNoise,
    Tri,
};
use mcrs_minecraft_worldgen::material::proto::{
    BiomeSet, CaveSurface, HeightContext, MaterialCondition, MaterialConditionHolder,
    MaterialRule, MaterialRuleHolder, VerticalAnchor,
};
use mcrs_minecraft_worldgen::proto::NoiseSettings;

const ROOT: u32 = 0;
const ORE: u32 = 50;
const SURFACE_NAMES: [u32; 9] = [60, 61, 62, 63, 64, 65, 66, 67, 68];
const CLAY: [u32; 7] = [90, 91, 92, 93, 94, 95, 96];

/// Every block state resolves to its own id plus one thousand, every biome
/// name to itself, every noise exists; the root rule is the only rule.
fn inputs(root: MaterialRuleHolder) -> MaterialInputs {
    let mut rules: Vec<Option<MaterialRuleHolder>> = Vec::new();
    rules.push(Some(root));
    for _ in 1..10 {
        rules.push(None);
    }
    MaterialInputs {
        rules,
        conditions: (0..10).map(|_| None).collect(),
        blocks: (0..200u16).map(|i| Some(1000 + i)).collect(),
        biomes: (0..200u32).map(Some).collect(),
        noises: vec![true; 200],
        ore_random: ORE,
        surface_noises: SURFACE_NAMES,
        clay_colours: CLAY,
    }
}

fn block(state: u32) -> MaterialRuleHolder {
    MaterialRuleHolder::Owned(Box::new(MaterialRule::Block { result_state: state }))
}

fn condition(condition: MaterialCondition, then_run: MaterialRuleHolder) -> MaterialRuleHolder {
    MaterialRuleHolder::Owned(Box::new(MaterialRule::Condition {
        if_true: MaterialConditionHolder::Owned(Box::new(condition)),
        then_run,
    }))
}

fn sequence(members: Vec<MaterialRuleHolder>) -> MaterialRuleHolder {
    MaterialRuleHolder::Owned(Box::new(MaterialRule::Sequence { sequence: members }))
}

fn settings() -> NoiseSettings {
    NoiseSettings { min_y: -64, height: 384 }
}

fn compile(inputs: &MaterialInputs) -> Result<mcrs_minecraft_worldgen::material::compile::MaterialProgram, CompileError> {
    let mut roots = Vec::new();
    compile_material(&mut roots, &settings(), 63, ROOT, inputs)
}

#[test]
fn a_biome_set_folds_over_the_columns_biomes() {
    let mask = BiomeMask::new(&[3, 70]);
    assert_eq!(mask.fold(&[3, 70]), Tri::Always);
    assert_eq!(mask.fold(&[3, 4]), Tri::Maybe);
    assert_eq!(mask.fold(&[4, 5]), Tri::Never);
    assert_eq!(mask.fold(&[]), Tri::Never);
    assert!(!mask.contains(4096));
}

#[test]
fn a_biome_mask_holds_exactly_its_ids() {
    let mask = BiomeMask::new(&[0, 63, 64, 200]);
    for id in [0, 63, 64, 200] {
        assert!(mask.contains(id));
    }
    for id in [1, 62, 65, 199, 201, 256] {
        assert!(!mask.contains(id));
    }
    assert!(!BiomeMask::new(&[]).contains(0));
}

#[test]
fn an_unresolvable_block_state_is_a_compile_error() {
    let mut inputs = inputs(block(7));
    inputs.blocks[7] = None;
    assert_eq!(compile(&inputs).err(), Some(CompileError::UnknownBlockState(7)));
}

#[test]
fn an_unknown_rule_id_is_a_compile_error() {
    let inputs = inputs(sequence(vec![MaterialRuleHolder::Reference(5)]));
    assert_eq!(compile(&inputs).err(), Some(CompileError::UnknownRule(5)));
}

#[test]
fn an_unknown_root_is_a_compile_error() {
    let mut inputs = inputs(block(1));
    inputs.rules[0] = None;
    assert_eq!(compile(&inputs).err(), Some(CompileError::UnknownRule(ROOT)));
}

#[test]
fn the_temperature_condition_names_itself_as_unsupported() {
    let inputs = inputs(condition(MaterialCondition::Temperature, block(1)));
    let error = compile(&inputs).err().unwrap();
    assert_eq!(error, CompileError::UnsupportedCondition);
    assert!(error.unsupported_name().unwrap().contains("temperature"));
}

#[test]
fn a_rule_that_references_itself_is_a_cycle() {
    let inputs = inputs(sequence(vec![MaterialRuleHolder::Reference(ROOT)]));
    let error = compile(&inputs).err().unwrap();
    assert!(matches!(error, CompileError::ReferenceCycle(_)), "{error:?}");
}

#[test]
fn a_condition_that_references_itself_is_a_cycle() {
    let mut inputs = inputs(MaterialRuleHolder::Owned(Box::new(MaterialRule::Condition {
        if_true: MaterialConditionHolder::Reference(3),
        then_run: block(1),
    })));
    inputs.conditions[3] = Some(MaterialConditionHolder::Owned(Box::new(MaterialCondition::Not {
        invert: MaterialConditionHolder::Reference(3),
    })));
    assert_eq!(compile(&inputs).err(), Some(CompileError::ReferenceCycle(3)));
}

#[test]
fn an_unknown_condition_id_is_a_compile_error() {
    let inputs = inputs(MaterialRuleHolder::Owned(Box::new(MaterialRule::Condition {
        if_true: MaterialConditionHolder::Reference(4),
        then_run: block(1),
    })));
    assert_eq!(compile(&inputs).err(), Some(CompileError::UnknownCondition(4)));
}

#[test]
fn an_unknown_biome_is_a_compile_error() {
    let mut inputs = inputs(condition(
        MaterialCondition::Biome { biome_is: BiomeSet::Many(vec![2, 9, 11]) },
        block(1),
    ));
    inputs.biomes[9] = None;
    inputs.biomes[11] = None;
    assert_eq!(compile(&inputs).err(), Some(CompileError::UnknownBiome(9)));
}

#[test]
fn a_missing_noise_is_a_compile_error() {
    let mut inputs = inputs(block(1));
    inputs.noises = vec![false; 200];
    assert!(matches!(compile(&inputs).err(), Some(CompileError::UnknownNoise(_))));
}

#[test]
fn a_missing_clay_colour_is_a_compile_error() {
    let mut inputs = inputs(block(1));
    inputs.blocks[CLAY[3] as usize] = None;
    assert_eq!(compile(&inputs).err(), Some(CompileError::UnknownBlockState(CLAY[3])));
}

#[test]
fn the_nine_surface_noises_are_interned_and_present() {
    let inputs = inputs(condition(
        MaterialCondition::NoiseThreshold {
            noise: SURFACE_NAMES[0],
            min_threshold: 0,
            max_threshold: 0,
            is_3d: false,
        },
        block(1),
    ));
    let material = compile(&inputs).unwrap();
    let ids = [
        SurfaceNoise::Surface,
        SurfaceNoise::SurfaceSecondary,
        SurfaceNoise::ClayBandsOffset,
        SurfaceNoise::BadlandsPillar,
        SurfaceNoise::BadlandsPillarRoof,
        SurfaceNoise::BadlandsSurface,
        SurfaceNoise::IcebergPillar,
        SurfaceNoise::IcebergPillarRoof,
        SurfaceNoise::IcebergSurface,
    ]
    .map(|noise| material.surface_noise(noise));
    let mut distinct = ids.to_vec();
    distinct.sort();
    distinct.dedup();
    assert_eq!(distinct.len(), 9, "nine distinct samplers");
    for (slot, id) in ids.iter().enumerate() {
        assert_eq!(material.noise(*id), (SURFACE_NAMES[slot], false));
    }
    // The surface noise is also named by the threshold condition, so it is the
    // same interned id.
    let threshold = material.conditions().iter().find_map(|c| match c.kind {
        Condition::NoiseThreshold { noise, .. }
            if noise == material.surface_noise(SurfaceNoise::Surface) =>
        {
            Some(noise)
        }
        _ => None,
    });
    assert!(threshold.is_some(), "surface is shared with a threshold");
}

#[test]
fn every_guard_jumps_to_the_end_of_its_own_subtree() {
    let y_above = |y: i32| MaterialCondition::YAbove {
        anchor: VerticalAnchor::Absolute(y),
        surface_depth_multiplier: 0,
        add_stone_depth: false,
    };
    let inputs = inputs(sequence(vec![
        condition(y_above(10), condition(y_above(20), block(1))),
        condition(y_above(5), sequence(vec![block(2), block(3)])),
        block(4),
    ]));
    let material = compile(&inputs).unwrap();
    let tape = material.tape();
    assert_eq!(tape.len(), 7);
    assert!(matches!(tape[0], Op::Guard { skip_to: 3, .. }));
    assert!(matches!(tape[1], Op::Guard { skip_to: 3, .. }));
    assert_eq!(tape[2], Op::Block { state: 1001 });
    assert!(matches!(tape[3], Op::Guard { skip_to: 6, .. }));
    assert_eq!(tape[4], Op::Block { state: 1002 });
    assert_eq!(tape[5], Op::Block { state: 1003 });
    assert_eq!(tape[6], Op::Block { state: 1004 });
}

#[test]
fn the_tape_answers_as_the_rules_do() {
    let inputs = inputs(sequence(vec![
        condition(MaterialCondition::Steep, block(1)),
        condition(
            MaterialCondition::Not {
                invert: MaterialConditionHolder::Owned(Box::new(MaterialCondition::Hole)),
            },
            block(2),
        ),
        MaterialRuleHolder::Owned(Box::new(MaterialRule::Bandlands)),
    ]));
    let material = compile(&inputs).unwrap();
    let conditions = material.conditions();
    assert_eq!(conditions.len(), 3);
    assert_eq!(conditions[0].kind, Condition::Steep);
    assert_eq!(conditions[1].kind, Condition::Hole);
    assert_eq!(conditions[2].kind, Condition::Not(1));
    // steep holds
    assert_eq!(material.run(&[true, false, true], 77, &[]), Some(1001));
    // not steep, no hole
    assert_eq!(material.run(&[false, false, true], 77, &[]), Some(1002));
    // not steep, a hole: the band table
    assert_eq!(material.run(&[false, true, false], 77, &[]), Some(77));
}

#[test]
fn a_tape_that_finds_nothing_gives_nothing() {
    let inputs = inputs(condition(MaterialCondition::Hole, block(1)));
    let material = compile(&inputs).unwrap();
    assert_eq!(material.run(&[false], 0, &[]), None);
    assert_eq!(material.run(&[true], 0, &[]), Some(1001));
}

#[test]
fn the_shared_condition_files_intern_to_one_id_each() {
    let mut inputs = inputs(sequence(vec![
        MaterialRuleHolder::Owned(Box::new(MaterialRule::Condition {
            if_true: MaterialConditionHolder::Reference(2),
            then_run: block(1),
        })),
        MaterialRuleHolder::Owned(Box::new(MaterialRule::Condition {
            if_true: MaterialConditionHolder::Reference(2),
            then_run: block(2),
        })),
        condition(
            MaterialCondition::Biome { biome_is: BiomeSet::Many(vec![4, 3]) },
            block(3),
        ),
    ]));
    inputs.conditions[2] = Some(MaterialConditionHolder::Owned(Box::new(
        MaterialCondition::Biome { biome_is: BiomeSet::Many(vec![3, 4]) },
    )));
    let material = compile(&inputs).unwrap();
    assert_eq!(material.conditions().len(), 1, "one condition, shared");
    assert_eq!(material.biome_sets().len(), 1, "one biome set, shared");
    assert!(material.biome_sets()[0].contains(3));
    assert!(material.biome_sets()[0].contains(4));
}

#[test]
fn each_condition_kind_carries_the_scope_the_design_assigns_it() {
    let inputs = inputs(sequence(vec![
        condition(MaterialCondition::Steep, block(1)),
        condition(
            MaterialCondition::NoiseThreshold {
                noise: 5,
                min_threshold: 1,
                max_threshold: 2,
                is_3d: false,
            },
            block(1),
        ),
        condition(
            MaterialCondition::NoiseThreshold {
                noise: 5,
                min_threshold: 1,
                max_threshold: 2,
                is_3d: true,
            },
            block(1),
        ),
        condition(
            MaterialCondition::StoneDepth {
                offset: 0,
                add_surface_depth: true,
                secondary_depth_range: 0,
                surface_type: CaveSurface::Ceiling,
            },
            block(1),
        ),
        condition(
            MaterialCondition::Not {
                invert: MaterialConditionHolder::Owned(Box::new(MaterialCondition::Steep)),
            },
            block(1),
        ),
    ]));
    let material = compile(&inputs).unwrap();
    let scopes: Vec<Scope> = material.conditions().iter().map(|c| c.scope).collect();
    assert_eq!(scopes, vec![Scope::Xz, Scope::Xz, Scope::Y, Scope::Y, Scope::Xz]);
    assert_eq!(
        material.conditions()[3].kind,
        Condition::StoneDepth {
            offset: 0,
            add_surface_depth: true,
            secondary_depth_range: 0,
            ceiling: true,
        }
    );
    // the two dimensionalities of one noise are two ids
    assert_ne!(material.noise_id(5, false), material.noise_id(5, true));
}

#[test]
fn anchors_resolve_against_the_world_height() {
    let inputs = inputs(condition(
        MaterialCondition::VerticalGradient {
            random_name: 7,
            true_at_and_below: VerticalAnchor::AboveBottom(5),
            false_at_and_above: VerticalAnchor::BelowTop(5),
        },
        block(1),
    ));
    let material = compile(&inputs).unwrap();
    let random = material.random_id(7).unwrap();
    assert_eq!(material.random(random), 7);
    assert_eq!(
        material.conditions()[0].kind,
        Condition::VerticalGradient {
            random,
            true_at_and_below: -59,
            false_at_and_above: 314,
        }
    );
    let height = HeightContext { min_y: -64, depth: 384, sea_level: 63 };
    assert_eq!(VerticalAnchor::RelativeToSeaLevel(-3).resolve_y(height), 60);
}

#[test]
fn every_vein_density_function_is_a_root() {
    let inputs = inputs(MaterialRuleHolder::Owned(Box::new(MaterialRule::OreVein {
        ore_block: 10,
        raw_ore_block: 11,
        filler_block: 12,
        raw_ore_chance: 0x3fe0_0000_0000_0000,
        density: 500,
        richness: 501,
        filler_gap: 502,
    })));
    let mut roots = vec![9];
    let material = compile_material(&mut roots, &settings(), 63, ROOT, &inputs).unwrap();
    assert_eq!(roots, vec![9, 500, 501, 502]);
    let vein = material.veins()[0];
    assert_eq!((vein.ore, vein.raw_ore, vein.filler), (1010, 1011, 1012));
    assert_eq!((vein.density, vein.richness, vein.filler_gap), (1, 2, 3));
    assert_eq!(material.random(vein.random), ORE);
    assert_eq!(material.run(&[], 0, &[Some(1010)]), Some(1010));
    assert_eq!(material.run(&[], 0, &[None]), None);
    assert_eq!(material.clay_colours(), &[1090, 1091, 1092, 1093, 1094, 1095, 1096]);
}

#[test]
fn only_an_unset_flag_is_left_out() {
    assert!(mcrs_minecraft_worldgen::material::proto::is_false(&false));
    assert!(!mcrs_minecraft_worldgen::material::proto::is_false(&true));
}
