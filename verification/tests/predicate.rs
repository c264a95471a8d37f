use mcrs_minecraft_worldgen::feature::placement::{heightmap_keeps, VerticalDirection};
use mcrs_minecraft_worldgen::feature::placer::{
    environment_scan, mask_of, single_state, Predicate, Rule, RuleStep, WorldGenVolume,
};
use mcrs_minecraft_worldgen::material::proto::{HeightContext, VerticalAnchor};
use mcrs_minecraft_worldgen::program::Vec3i;

/// Stone up to y 64, air above; biome 7 west of x 0, biome 2 elsewhere;
/// only y 65 lets anything survive.
struct Terrain;

impl WorldGenVolume for Terrain {
    fn state_at(&self, p: Vec3i) -> u16 {
        self.get(p)
    }

    fn biome_at(&self, p: Vec3i) -> u32 {
        self.biome(p)
    }

    fn survives_at(&self, state: u16, p: Vec3i) -> bool {
        self.would_survive(state, p)
    }

    fn extent_of(&self) -> HeightContext {
        self.extent()
    }

    fn get(&self, p: Vec3i) -> u16 {
        if p.y <= 64 {
            1
        } else {
            0
        }
    }

    fn biome(&self, p: Vec3i) -> u32 {
        if p.x < 0 {
            7
        } else {
            2
        }
    }

    fn would_survive(&self, _state: u16, p: Vec3i) -> bool {
        p.y == 65
    }

    fn extent(&self) -> HeightContext {
        HeightContext { min_y: -64, depth: 384, sea_level: 63 }
    }
}

fn at(x: i32, y: i32, z: i32) -> Vec3i {
    Vec3i { x, y, z }
}

fn stone_at(offset: Vec3i) -> Predicate {
    Predicate::MatchingStates { offset, states: single_state(1) }
}

#[test]
fn a_state_predicate_reads_the_offset_block() {
    assert!(stone_at(at(0, 0, 0)).test(&Terrain, at(3, 64, 3)));
    assert!(!stone_at(at(0, 1, 0)).test(&Terrain, at(3, 64, 3)));
    let either = Predicate::MatchingStates { offset: at(0, 0, 0), states: mask_of(&[0, 1]) };
    assert!(either.test(&Terrain, at(3, 200, 3)));
}

#[test]
fn biome_survival_and_bounds_predicates_ask_the_volume() {
    let west = Predicate::MatchingBiomes(mask_of(&[7]));
    assert!(west.test(&Terrain, at(-1, 70, 0)));
    assert!(!west.test(&Terrain, at(0, 70, 0)));
    let survives = Predicate::WouldSurvive { offset: at(0, 1, 0), state: 5 };
    assert!(survives.test(&Terrain, at(0, 64, 0)));
    assert!(!survives.test(&Terrain, at(0, 65, 0)));
    let inside = Predicate::InsideWorldBounds { offset_y: -5 };
    assert!(inside.test(&Terrain, at(0, -59, 0)));
    assert!(!inside.test(&Terrain, at(0, -60, 0)));
    assert!(!Predicate::InsideWorldBounds { offset_y: 0 }.test(&Terrain, at(0, 320, 0)));
    let band = Predicate::HeightRange {
        min_inclusive: VerticalAnchor::AboveBottom(4),
        max_inclusive: VerticalAnchor::RelativeToSeaLevel(0),
    };
    assert!(band.test(&Terrain, at(0, -60, 0)));
    assert!(band.test(&Terrain, at(0, 63, 0)));
    assert!(!band.test(&Terrain, at(0, 64, 0)));
    assert!(!band.test(&Terrain, at(0, -61, 0)));
}

#[test]
fn a_volume_match_asks_every_cell_of_its_box() {
    let buried = Predicate::VolumeMatch {
        min: [-1, -2, -1],
        max: [1, -1, 1],
        matches: Box::new(stone_at(at(0, 0, 0))),
    };
    assert!(buried.test(&Terrain, at(0, 65, 0)));
    assert!(!buried.test(&Terrain, at(0, 66, 0)));
    let empty = Predicate::VolumeMatch {
        min: [0, 1, 0],
        max: [0, 0, 0],
        matches: Box::new(Predicate::Not(Box::new(Predicate::True))),
    };
    assert!(empty.test(&Terrain, at(0, 0, 0)));
}

#[test]
fn lists_and_negation_combine_predicates() {
    let none = Predicate::AnyOf(Vec::new());
    assert!(!none.test(&Terrain, at(0, 0, 0)));
    let all = Predicate::AllOf(Vec::new());
    assert!(all.test(&Terrain, at(0, 0, 0)));
    let any = Predicate::AnyOf(vec![stone_at(at(0, 10, 0)), stone_at(at(0, 0, 0))]);
    assert!(any.test(&Terrain, at(0, 60, 0)));
    assert!(!any.test(&Terrain, at(0, 65, 0)));
    let both = Predicate::AllOf(vec![stone_at(at(0, 0, 0)), Predicate::True]);
    assert!(both.test(&Terrain, at(0, 60, 0)));
    assert!(!Predicate::Not(Box::new(both)).test(&Terrain, at(0, 60, 0)));
}

fn scan_walks_to_the_target() {
    let found = environment_scan(
        &Terrain,
        at(0, 70, 0),
        VerticalDirection::Down,
        &stone_at(at(0, 0, 0)),
        &None,
        32,
    );
    assert_eq!(found, Some(at(0, 64, 0)));
}

fn scan_gives_up_where_the_search_condition_fails() {
    let never = Predicate::MatchingStates { offset: at(0, 0, 0), states: mask_of(&[]) };
    let through_air = Some(Predicate::MatchingStates { offset: at(0, 0, 0), states: mask_of(&[0]) });
    let found =
        environment_scan(&Terrain, at(0, 70, 0), VerticalDirection::Down, &never, &through_air, 32);
    assert_eq!(found, None);
}

#[test]
fn placer_environment_scan_walks_to_the_target_and_draws_nothing() {
    scan_walks_to_the_target();
}

#[test]
fn mod_environment_scan_walks_to_the_target_and_draws_nothing() {
    scan_walks_to_the_target();
}

#[test]
fn placer_environment_scan_gives_up_once_the_search_condition_fails() {
    scan_gives_up_where_the_search_condition_fails();
}

#[test]
fn mod_environment_scan_gives_up_once_the_search_condition_fails() {
    scan_gives_up_where_the_search_condition_fails();
}

#[test]
fn a_scan_stops_at_the_edge_of_the_world_and_after_its_steps() {
    let air = Predicate::MatchingStates { offset: at(0, 0, 0), states: mask_of(&[0]) };
    let stone = stone_at(at(0, 0, 0));
    // upwards from the top block: the next step leaves the world
    assert_eq!(environment_scan(&Terrain, at(0, 319, 0), VerticalDirection::Up, &stone, &None, 5), None);
    // six blocks down to the stone, but only five steps allowed
    assert_eq!(environment_scan(&Terrain, at(0, 70, 0), VerticalDirection::Down, &stone, &None, 5), None);
    assert_eq!(
        environment_scan(&Terrain, at(0, 70, 0), VerticalDirection::Down, &stone, &None, 6),
        Some(at(0, 64, 0))
    );
    // no steps: only the origin itself is asked
    assert_eq!(
        environment_scan(&Terrain, at(0, 60, 0), VerticalDirection::Up, &stone, &None, 0),
        Some(at(0, 60, 0))
    );
    // a search condition that refuses the origin finds nothing
    assert_eq!(
        environment_scan(&Terrain, at(0, 60, 0), VerticalDirection::Up, &stone, &Some(air), 10),
        None
    );
}

fn filter_on_the_surface() {
    // the height map of the stub answers 65, above the bottom of the world
    assert!(heightmap_keeps(65, -64));
    let stone_below = stone_at(at(0, -1, 0));
    assert!(stone_below.test(&Terrain, at(16, 65, 32)));
}

#[test]
fn placer_a_block_predicate_filter_draws_nothing() {
    filter_on_the_surface();
}

#[test]
fn mod_a_block_predicate_filter_draws_nothing() {
    filter_on_the_surface();
}

const AIR: u16 = 0;
const STONE: u16 = 1;

fn draws_only_once_the_block_matched() {
    let rule = Rule::RandomStates { states: mask_of(&[STONE]), probability: 1.0f32.to_bits() };
    // a failed identity never asks for a draw
    assert_eq!(rule.test(AIR, 0, &[], 0), RuleStep::Done { holds: false, used: 0 });
    // a matching block asks for one, then reads it
    assert_eq!(rule.test(STONE, 0, &[], 0), RuleStep::Draw { probability: 1.0f32.to_bits() });
    assert_eq!(rule.test(STONE, 0, &[true], 0), RuleStep::Done { holds: true, used: 1 });
}

#[test]
fn placer_a_rule_test_draws_only_once_the_block_matched() {
    draws_only_once_the_block_matched();
}

#[test]
fn mod_a_rule_test_draws_only_once_the_block_matched() {
    draws_only_once_the_block_matched();
}

#[test]
fn rule_lists_stop_at_the_first_rule_that_decides_them() {
    let chance = 0.5f32.to_bits();
    let random = || Rule::RandomStates { states: mask_of(&[STONE]), probability: chance };
    let all = Rule::AllOf(vec![random(), Rule::HeightMatch { min_inclusive: 0, max_inclusive: 10 }, random()]);
    // the first draw fails: the second random test is never reached
    assert_eq!(all.test(STONE, 5, &[false], 0), RuleStep::Done { holds: false, used: 1 });
    // a finished walk finishes alike with draws to spare
    assert_eq!(all.test(STONE, 5, &[false, true, true], 0), RuleStep::Done { holds: false, used: 1 });
    // the first passes, the height holds, the second asks for its draw
    assert_eq!(all.test(STONE, 5, &[true], 0), RuleStep::Draw { probability: chance });
    assert_eq!(all.test(STONE, 5, &[true, true], 0), RuleStep::Done { holds: true, used: 2 });
    // out of the height range: one draw used, then the list fails
    assert_eq!(all.test(STONE, 20, &[true, true], 0), RuleStep::Done { holds: false, used: 1 });
    let any = Rule::AnyOf(vec![Rule::MatchingStates(single_state(AIR)), random()]);
    assert_eq!(any.test(AIR, 0, &[], 0), RuleStep::Done { holds: true, used: 0 });
    assert_eq!(any.test(STONE, 0, &[false], 0), RuleStep::Done { holds: false, used: 1 });
    let not = Rule::Not(Box::new(Rule::AlwaysTrue));
    assert_eq!(not.test(STONE, 0, &[], 0), RuleStep::Done { holds: false, used: 0 });
    assert_eq!(Rule::AllOf(Vec::new()).test(STONE, 0, &[], 0), RuleStep::Done { holds: true, used: 0 });
    assert_eq!(Rule::AnyOf(Vec::new()).test(STONE, 0, &[], 0), RuleStep::Done { holds: false, used: 0 });
    // draws before `used` are not read again
    assert_eq!(random().test(STONE, 0, &[false, true], 1), RuleStep::Done { holds: true, used: 2 });
}
