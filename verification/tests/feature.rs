use mcrs_minecraft_worldgen::feature::block_predicate::{
    BlockPredicate, HolderSet, InvertedVolume, Offset, VolumeMatch,
};
use mcrs_minecraft_worldgen::feature::config::{OreConfig, OreYOffset, TargetBlockState};
use mcrs_minecraft_worldgen::feature::placer::{BlockLayout, PropertyLayout};
use mcrs_minecraft_worldgen::feature::block_predicate::Direction;
use mcrs_minecraft_worldgen::feature::tree::{
    branch_start_offset, variety_range, IntRange, RangeError, TreeDecorator, UniformIntRange,
};

#[test]
fn an_int_range_reads_its_bounds_in_every_shape() {
    assert_eq!(IntRange::Point(4).min_inclusive(), 4);
    assert_eq!(IntRange::Point(4).max_inclusive(), 4);
    assert_eq!(IntRange::Pair(2, 9).min_inclusive(), 2);
    assert_eq!(IntRange::Pair(2, 9).max_inclusive(), 9);
    let named = IntRange::Named { min_inclusive: -1, max_inclusive: 3 };
    assert_eq!((named.min_inclusive(), named.max_inclusive()), (-1, 3));
}

#[test]
fn a_variety_range_must_lie_in_one_to_sixty_four() {
    assert_eq!(variety_range(IntRange::Pair(1, 64)), Ok(IntRange::Pair(1, 64)));
    assert_eq!(
        variety_range(IntRange::Pair(0, 100)),
        Err(RangeError::TooLow { min_inclusive: 0, max_inclusive: 100 })
    );
    assert_eq!(
        variety_range(IntRange::Point(65)),
        Err(RangeError::TooHigh { min_inclusive: 65, max_inclusive: 65 })
    );
}

#[test]
fn a_uniform_range_must_not_be_inverted() {
    assert_eq!(UniformIntRange { min_inclusive: 2, max_inclusive: 2 }.validate(), Ok(()));
    assert_eq!(
        UniformIntRange { min_inclusive: 3, max_inclusive: 2 }.validate(),
        Err(RangeError::MaxBelowMin { min_inclusive: 3, max_inclusive: 2 })
    );
}

#[test]
fn a_branch_start_offset_spans_two_blocks_of_minus_sixteen_to_zero() {
    let ok = UniformIntRange { min_inclusive: -3, max_inclusive: -1 };
    assert_eq!(branch_start_offset(ok), Ok(ok));
    assert_eq!(
        branch_start_offset(UniformIntRange { min_inclusive: -17, max_inclusive: 0 }),
        Err(RangeError::OutsideBranchOffsets { min_inclusive: -17, max_inclusive: 0 })
    );
    assert_eq!(
        branch_start_offset(UniformIntRange { min_inclusive: -2, max_inclusive: -2 }),
        Err(RangeError::TooNarrow)
    );
}

#[test]
fn an_out_of_range_offset_is_a_load_error() {
    assert_eq!(Offset::new([0, 17, 0]), Err(17));
    assert_eq!(Offset::new([0, -17, 18]), Err(-17));
    assert_eq!(Offset::new([16, -16, 0]), Ok(Offset([16, -16, 0])));
    assert_eq!(Offset::zero(), Offset([0, 0, 0]));
}

#[test]
fn the_first_target_naming_a_block_decides_it() {
    let config = OreConfig {
        targets: vec![
            TargetBlockState { target: 1, state: 20 },
            TargetBlockState { target: 1, state: 30 },
            TargetBlockState { target: 2, state: 40 },
        ],
        size: 8,
        y_offset: OreYOffset::BetaPlus2,
    };
    assert_eq!(config.replacement(1), Some(20));
    assert_eq!(config.replacement(2), Some(40));
    assert_eq!(config.replacement(3), None);
    assert_eq!(OreYOffset::BetaPlus2.blocks(), 2);
    assert_eq!(OreYOffset::ModernMinus2.blocks(), -2);
}

fn texts(values: &[&str]) -> Vec<String> {
    values.iter().map(|v| v.to_string()).collect()
}

/// A block of `facing` (four values, stride 1) times `waterlogged` (two
/// values, stride 4), its states starting at 100.
fn stairs() -> BlockLayout {
    BlockLayout {
        base: 100,
        properties: vec![
            PropertyLayout {
                name: "facing".to_string(),
                values: texts(&["north", "south", "west", "east"]),
                stride: 1,
            },
            PropertyLayout {
                name: "waterlogged".to_string(),
                values: texts(&["true", "false"]),
                stride: 4,
            },
        ],
    }
}

#[test]
fn a_property_is_a_digit_of_the_state_id() {
    let layout = stairs();
    let facing = layout.property("facing").unwrap();
    let waterlogged = layout.property("waterlogged").unwrap();
    assert!(layout.property("half").is_none());
    // 106: facing west, waterlogged false
    assert_eq!(layout.value_index(106, facing), 2);
    assert_eq!(layout.value_index(106, waterlogged), 1);
    assert_eq!(layout.with_index(106, facing, 0), 104);
    assert_eq!(layout.with_index(106, waterlogged, 0), 102);
}

#[test]
fn try_set_leaves_unknown_properties_and_values_alone() {
    let layout = stairs();
    assert_eq!(layout.try_set(100, "facing", "east"), 103);
    assert_eq!(layout.try_set(100, "facing", "up"), 100);
    assert_eq!(layout.try_set(100, "shape", "straight"), 100);
}

#[test]
fn with_properties_of_copies_what_both_blocks_share() {
    let layout = stairs();
    let slab = BlockLayout {
        base: 10,
        properties: vec![
            PropertyLayout {
                name: "type".to_string(),
                values: texts(&["top", "bottom", "double"]),
                stride: 2,
            },
            PropertyLayout {
                name: "waterlogged".to_string(),
                values: texts(&["true", "false"]),
                stride: 1,
            },
        ],
    };
    // slab state 10 + 2*1 + 0: bottom, waterlogged true
    assert_eq!(layout.with_properties_of(107, &slab, 12), 103);
    // slab state 13: bottom, waterlogged false
    assert_eq!(layout.with_properties_of(101, &slab, 13), 105);
}

#[test]
fn an_inverted_volume_is_a_load_error() {
    let inverted = VolumeMatch {
        min: Offset([0, 0, 0]),
        max: Offset([0, -1, 0]),
        matches: Box::new(BlockPredicate::True),
    };
    assert_eq!(inverted.validate(), Err(InvertedVolume));
    let flat = VolumeMatch {
        min: Offset([-2, -2, -2]),
        max: Offset([2, -1, 2]),
        matches: Box::new(BlockPredicate::True),
    };
    assert_eq!(flat.validate(), Ok(()));
    let point = VolumeMatch {
        min: Offset([3, 3, 3]),
        max: Offset([3, 3, 3]),
        matches: Box::new(BlockPredicate::True),
    };
    assert_eq!(point.validate(), Ok(()));
}

#[test]
fn a_holder_set_names_its_entries_unless_it_is_a_tag() {
    let tag: HolderSet<u32, false> = HolderSet::Tag(4);
    assert!(tag.entries().is_empty());
    let one: HolderSet<u32, false> = HolderSet::One(9);
    assert_eq!(one.entries(), &[9]);
    let list: HolderSet<u32, true> = HolderSet::List(vec![1, 2, 3]);
    assert_eq!(list.entries(), &[1, 2, 3]);
}

#[test]
fn a_value_set_reads_back() {
    let layout = stairs();
    let facing = layout.property("facing").unwrap();
    let waterlogged = layout.property("waterlogged").unwrap();
    for state in 100..108u16 {
        for index in 0..4u16 {
            let set = layout.with_index(state, facing, index);
            assert_eq!(layout.value_index(set, facing), index, "state {state}");
            // the other digit is kept
            assert_eq!(layout.value_index(set, waterlogged), layout.value_index(state, waterlogged));
        }
        for index in 0..2u16 {
            let set = layout.with_index(state, waterlogged, index);
            assert_eq!(layout.value_index(set, waterlogged), index, "state {state}");
        }
    }
}

#[test]
fn only_the_property_set_is_read() {
    // `broken` cannot be read, but setting `facing` never reads it
    let mut layout = stairs();
    layout.properties.push(PropertyLayout {
        name: "broken".to_string(),
        values: Vec::new(),
        stride: 0,
    });
    assert_eq!(layout.try_set(100, "facing", "east"), 103);
    assert_eq!(layout.try_set(100, "broken", "x"), 100);
}

#[test]
fn mapping_a_decorator_resolves_its_provider_and_keeps_the_rest() {
    let decorator = TreeDecorator::AttachedToLogs {
        probability: 0.5f32.to_bits(),
        block_provider: 7u32,
        directions: vec![Direction::Up, Direction::North],
    };
    let mapped: Result<TreeDecorator<String>, ()> =
        decorator.map_provider(|provider: &u32| Ok(format!("state {}", provider)));
    match mapped {
        Ok(TreeDecorator::AttachedToLogs { probability, block_provider, directions }) => {
            assert_eq!(f32::from_bits(probability), 0.5);
            assert_eq!(block_provider, "state 7");
            assert_eq!(directions, vec![Direction::Up, Direction::North]);
        }
        _ => panic!("the decorator changed kind"),
    }
    let failed = decorator.map_provider(|_: &u32| Err::<u32, &str>("unknown block"));
    assert!(matches!(failed, Err("unknown block")));
}

#[test]
fn a_decorator_without_a_provider_never_asks_for_one() {
    let decorator: TreeDecorator<u32> = TreeDecorator::Cocoa { probability: 0.2f32.to_bits() };
    let mapped = decorator.map_provider(|_: &u32| Err::<u64, &str>("never asked"));
    match mapped {
        Ok(TreeDecorator::Cocoa { probability }) => assert_eq!(f32::from_bits(probability), 0.2),
        _ => panic!("a provider was asked for"),
    }
}

#[test]
fn a_decorator_keeps_its_codec_bounds() {
    let leaves = |radius: i32, empty: i32, directions: Vec<Direction>| TreeDecorator::AttachedToLeaves {
        probability: 0.5f32.to_bits(),
        exclusion_radius_xz: radius,
        exclusion_radius_y: 1,
        block_provider: 0u32,
        required_empty_blocks: empty,
        directions,
    };
    assert!(leaves(16, 1, vec![Direction::Down]).in_bounds());
    assert!(!leaves(17, 1, vec![Direction::Down]).in_bounds());
    assert!(!leaves(2, 0, vec![Direction::Down]).in_bounds());
    assert!(!leaves(2, 1, Vec::new()).in_bounds());
    let ground = |tries: i32| TreeDecorator::PlaceOnGround {
        tries,
        radius: 2,
        height: 1,
        block_state_provider: 0u32,
    };
    assert!(ground(128).in_bounds());
    assert!(!ground(0).in_bounds());
    assert!(TreeDecorator::<u32>::TrunkVine.in_bounds());
}
