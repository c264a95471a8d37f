use mcrs_minecraft_worldgen::material::compile::{
    compile_material, Condition, MaterialInputs, MaterialProgram, Op,
};
use mcrs_minecraft_worldgen::material::eval::{
    answers_at, apply, condition_breaks, cut_run, fold_conditions, over, settle, settled_runs,
    split, Column, Piece, Position, Run, RunPiece, Settled, Split, NO_WATER,
};
use mcrs_minecraft_worldgen::material::eval::{covered_rows, vein_lattice, VeinLattice};
use mcrs_minecraft_worldgen::program::Vec3i;
use mcrs_minecraft_worldgen::material::proto::{
    BiomeSet, CaveSurface, MaterialCondition, MaterialConditionHolder, MaterialRule,
    MaterialRuleHolder, VerticalAnchor,
};
use mcrs_minecraft_worldgen::proto::NoiseSettings;

fn block(state: u32) -> MaterialRuleHolder {
    MaterialRuleHolder::Owned(Box::new(MaterialRule::Block { result_state: state }))
}

fn guarded(condition: MaterialCondition, then_run: MaterialRuleHolder) -> MaterialRuleHolder {
    MaterialRuleHolder::Owned(Box::new(MaterialRule::Condition {
        if_true: MaterialConditionHolder::Owned(Box::new(condition)),
        then_run,
    }))
}

fn program(root: MaterialRuleHolder) -> MaterialProgram {
    let inputs = MaterialInputs {
        rules: vec![Some(root)],
        conditions: Vec::new(),
        blocks: (0..200u16).map(|i| Some(1000 + i)).collect(),
        biomes: (0..200u32).map(Some).collect(),
        noises: vec![true; 200],
        ore_random: 50,
        surface_noises: [60, 61, 62, 63, 64, 65, 66, 67, 68],
        clay_colours: [90, 91, 92, 93, 94, 95, 96],
    };
    let mut roots = Vec::new();
    compile_material(&mut roots, &NoiseSettings { min_y: -64, height: 384 }, 63, 0, &inputs)
        .unwrap()
}

/// Grass on the floor of the first block down, dirt to three deep, stone
/// below; plains biomes (3 and 4) only for the grass.
fn surface_rules() -> MaterialProgram {
    let floor = |offset| MaterialCondition::StoneDepth {
        offset,
        add_surface_depth: false,
        secondary_depth_range: 0,
        surface_type: CaveSurface::Floor,
    };
    program(MaterialRuleHolder::Owned(Box::new(MaterialRule::Sequence {
        sequence: vec![
            guarded(
                floor(0),
                guarded(
                    MaterialCondition::Biome { biome_is: BiomeSet::Many(vec![3, 4]) },
                    block(1),
                ),
            ),
            guarded(floor(2), block(2)),
            block(3),
        ],
    })))
}

fn position(y: i32, depth_above: i32, biome: u32) -> Position {
    Position {
        block_y: y,
        depth_above,
        depth_below: 10,
        water_level: NO_WATER,
        surface_depth: 3,
        min_surface_level: 60,
        gradient_x: 0,
        gradient_z: 0,
        biome,
    }
}

#[test]
fn a_position_is_answered_condition_by_condition() {
    let material = surface_rules();
    let none = vec![false; material.conditions().len()];
    let zero = vec![0; material.conditions().len()];
    assert_eq!(apply(&material, &position(70, 1, 3), &none, &zero, 0, &[]), Some(1001));
    assert_eq!(apply(&material, &position(70, 1, 9), &none, &zero, 0, &[]), Some(1002));
    assert_eq!(apply(&material, &position(69, 2, 9), &none, &zero, 0, &[]), Some(1002));
    assert_eq!(apply(&material, &position(66, 5, 3), &none, &zero, 0, &[]), Some(1003));
    let answers = answers_at(&material, &position(70, 1, 3), &none, &zero);
    assert_eq!(answers, vec![true, true, true]);
}

#[test]
fn a_water_condition_holds_without_water() {
    let material = program(guarded(
        MaterialCondition::Water { offset: -1, surface_depth_multiplier: 0, add_stone_depth: false },
        block(1),
    ));
    let mut pos = position(10, 1, 0);
    assert_eq!(apply(&material, &pos, &[false], &[0], 0, &[]), Some(1001));
    pos.water_level = 20;
    assert_eq!(apply(&material, &pos, &[false], &[0], 0, &[]), None);
    pos.block_y = 19;
    assert_eq!(apply(&material, &pos, &[false], &[0], 0, &[]), Some(1001));
}

#[test]
fn a_vertical_gradient_is_decided_outside_its_band_and_drawn_inside() {
    let material = program(guarded(
        MaterialCondition::VerticalGradient {
            random_name: 7,
            true_at_and_below: VerticalAnchor::Absolute(0),
            false_at_and_above: VerticalAnchor::Absolute(5),
        },
        block(1),
    ));
    for (y, draw, expected) in
        [(0, false, Some(1001)), (5, true, None), (3, true, Some(1001)), (3, false, None)]
    {
        let pos = position(y, 1, 0);
        assert_eq!(apply(&material, &pos, &[draw], &[0], 0, &[]), expected, "y {y}");
    }
}

fn run() -> Run {
    Run {
        top: 70,
        bottom: 40,
        depth: 1,
        water_level: NO_WATER,
        surface_depth: 3,
        min_surface_level: 60,
        gradient_x: 0,
        gradient_z: 0,
    }
}

#[test]
fn depth_conditions_split_a_run_where_they_turn() {
    let floor = Condition::StoneDepth {
        offset: 2,
        add_surface_depth: false,
        secondary_depth_range: 0,
        ceiling: false,
    };
    // depth 1 at y 70: three deep reaches y 68
    assert_eq!(split(floor, &run(), 0), Some(Split::At(68)));
    let ceiling = Condition::StoneDepth {
        offset: 0,
        add_surface_depth: true,
        secondary_depth_range: 0,
        ceiling: true,
    };
    assert_eq!(split(ceiling, &run(), 1), Some(Split::AtOrBelow(44)));
    assert_eq!(split(Condition::Steep, &run(), 0), None);
    assert_eq!(split(Condition::AbovePreliminarySurface, &run(), 0), Some(Split::At(60)));
}

#[test]
fn a_run_settles_where_every_guard_is_decided() {
    let material = surface_rules();
    let column = Column {
        folded: vec![None; 3],
        xz: vec![false; 3],
        reachable: vec![3, 4],
        reachable_ok: true,
        secondary: vec![0; 3],
        vein_open: Vec::new(),
    };
    // below the dirt, stone throughout
    assert_eq!(settle(&material, 0, 40, 67, &run(), &column), Settled::Answer(Some(1003)));
    // the first block is grass, the plains being all the run can reach
    assert_eq!(over(&material, 1, 70, 70, &run(), &column), Some(true));
    assert_eq!(settle(&material, 0, 70, 70, &run(), &column), Settled::Answer(Some(1001)));
    // a piece across the dirt's bottom stays open
    assert!(matches!(settle(&material, 0, 60, 70, &run(), &column), Settled::Open { .. }));
    // once a desert is reachable the biome is open too
    let mixed = Column { reachable: vec![3, 9], ..column };
    assert_eq!(over(&material, 1, 70, 70, &run(), &mixed), None);
    assert!(matches!(material.tape()[0], Op::Guard { .. }));
}

fn open_column(conditions: usize) -> Column {
    Column {
        folded: vec![None; conditions],
        xz: vec![false; conditions],
        reachable: vec![3, 4],
        reachable_ok: true,
        secondary: vec![0; conditions],
        vein_open: Vec::new(),
    }
}

#[test]
fn a_column_folds_biome_sets_over_what_it_can_reach() {
    let material = surface_rules();
    assert_eq!(fold_conditions(&material, &[3, 4]), vec![None, Some(true), None]);
    assert_eq!(fold_conditions(&material, &[9]), vec![None, Some(false), None]);
    assert_eq!(fold_conditions(&material, &[3, 9]), vec![None, None, None]);
    let negated = program(guarded(
        MaterialCondition::Not {
            invert: MaterialConditionHolder::Owned(Box::new(MaterialCondition::Biome {
                biome_is: BiomeSet::Many(vec![3]),
            })),
        },
        block(1),
    ));
    assert_eq!(fold_conditions(&negated, &[3]), vec![Some(true), Some(false)]);
    assert_eq!(fold_conditions(&negated, &[]), vec![Some(false), Some(true)]);
}

#[test]
fn each_threshold_breaks_a_run_on_both_sides() {
    let material = surface_rules();
    assert_eq!(condition_breaks(&material, &run(), &open_column(3)), vec![70, 71, 68, 69]);
    let gradient = program(guarded(
        MaterialCondition::VerticalGradient {
            random_name: 7,
            true_at_and_below: VerticalAnchor::Absolute(0),
            false_at_and_above: VerticalAnchor::Absolute(5),
        },
        block(1),
    ));
    assert_eq!(condition_breaks(&gradient, &run(), &open_column(1)), vec![1, 5]);
}

#[test]
fn a_run_is_cut_at_the_breaks_inside_it() {
    assert_eq!(
        cut_run(40, 70, &[70, 71, 68, 69, 40, 12]),
        vec![
            Piece { lo: 70, hi: 70 },
            Piece { lo: 69, hi: 69 },
            Piece { lo: 68, hi: 68 },
            Piece { lo: 40, hi: 67 },
        ]
    );
    assert_eq!(cut_run(40, 70, &[]), vec![Piece { lo: 40, hi: 70 }]);
}

#[test]
fn a_long_run_settles_piece_by_piece() {
    let material = surface_rules();
    let column = open_column(3);
    let breaks = condition_breaks(&material, &run(), &column);
    assert_eq!(
        settled_runs(&material, &run(), &column, &breaks),
        vec![
            RunPiece::Settled { lo: 70, hi: 70, state: Some(1001) },
            RunPiece::Settled { lo: 69, hi: 69, state: Some(1002) },
            RunPiece::Settled { lo: 68, hi: 68, state: Some(1002) },
            RunPiece::Settled { lo: 40, hi: 67, state: Some(1003) },
        ]
    );
    let short = Run { top: 47, bottom: 40, ..run() };
    assert_eq!(settled_runs(&material, &short, &column, &breaks), Vec::new());
}

#[test]
fn a_gradient_band_settles_to_a_draw() {
    let material = program(guarded(
        MaterialCondition::VerticalGradient {
            random_name: 7,
            true_at_and_below: VerticalAnchor::Absolute(0),
            false_at_and_above: VerticalAnchor::Absolute(5),
        },
        block(1),
    ));
    let column = open_column(1);
    let tall = Run { top: 20, bottom: -10, ..run() };
    let breaks = condition_breaks(&material, &tall, &column);
    assert_eq!(
        settled_runs(&material, &tall, &column, &breaks),
        vec![
            RunPiece::Settled { lo: 5, hi: 20, state: None },
            RunPiece::Drawn { lo: 1, hi: 4, condition: 0, whenever: Some(1001), otherwise: None },
            RunPiece::Settled { lo: -10, hi: 0, state: Some(1001) },
        ]
    );
}

#[test]
fn the_band_table_wraps_round_at_both_ends() {
    let bands = [10u16, 11, 12, 13];
    assert_eq!(mcrs_minecraft_worldgen::material::eval::band_at(&bands, 5, 0), 11);
    assert_eq!(mcrs_minecraft_worldgen::material::eval::band_at(&bands, 5, 2), 13);
    assert_eq!(mcrs_minecraft_worldgen::material::eval::band_at(&bands, -1, 0), 13);
    assert_eq!(mcrs_minecraft_worldgen::material::eval::band_at(&bands, -64, -3), 11);
}

#[test]
fn a_vein_is_open_over_a_piece_that_meets_an_open_cell() {
    // two strips of four cells, each cell eight blocks high from y -64; the
    // second strip, from index 4, has its third cell open
    let cells = [false, false, false, false, false, false, true, false];
    assert!(!mcrs_minecraft_worldgen::material::eval::vein_open_in(&cells, 4, 4, 8, -64, -64, -49));
    assert!(mcrs_minecraft_worldgen::material::eval::vein_open_in(&cells, 4, 4, 8, -64, -50, -48));
    assert!(mcrs_minecraft_worldgen::material::eval::vein_open_in(&cells, 4, 4, 8, -64, -48, -41));
    assert!(!mcrs_minecraft_worldgen::material::eval::vein_open_in(&cells, 4, 4, 8, -64, -40, -33));
    // above the lattice nothing is known
    assert!(mcrs_minecraft_worldgen::material::eval::vein_open_in(&cells, 4, 4, 8, -64, -40, -32));
    assert!(!mcrs_minecraft_worldgen::material::eval::vein_open_in(&cells, 0, 4, 8, -64, -64, -33));
}

#[test]
fn a_vein_lattice_tiles_the_column_or_is_the_column() {
    let v = |x: i32, y: i32, z: i32| Vec3i { x, y, z };
    assert_eq!(
        vein_lattice(Some(v(4, 8, 4)), 384),
        VeinLattice { cell: v(4, 8, 4), size: v(4, 48, 4) }
    );
    assert_eq!(
        vein_lattice(Some(v(3, 8, 4)), 384),
        VeinLattice { cell: v(16, 384, 16), size: v(1, 1, 1) }
    );
    assert_eq!(
        vein_lattice(Some(v(4, 7, 4)), 384),
        VeinLattice { cell: v(16, 384, 16), size: v(1, 1, 1) }
    );
    assert_eq!(vein_lattice(None, 256), VeinLattice { cell: v(16, 256, 16), size: v(1, 1, 1) });
}

#[test]
fn a_cell_is_prefilled_only_where_the_column_covers_it() {
    assert_eq!(covered_rows(319, 312, 8), 8);
    assert_eq!(covered_rows(319, 316, 8), 4);
    assert_eq!(covered_rows(319, 320, 8), 0);
    assert_eq!(covered_rows(319, 330, 8), -10);
}
