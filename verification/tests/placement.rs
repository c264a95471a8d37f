use fixedbitset::FixedBitSet;
use mcrs_minecraft_worldgen::feature::placement::{
    copies, cuboid, fixed_placement, heightmap_keeps, surface_relative_keeps, water_depth_keeps,
    Cuboid, LayerAction, LayerScan,
};
use mcrs_minecraft_worldgen::feature::placer::{
    on_ground_y, BlockLayout, PropertyLayout, WorldStates,
};
use mcrs_minecraft_worldgen::program::Vec3i;

const ORIGIN: Vec3i = Vec3i { x: 16, y: 0, z: 32 };

#[test]
fn placer_a_cuboid_shell_drops_the_interior() {
    let shell = Cuboid {
        width: 2,
        height: 2,
        length: 2,
        include_edges: true,
        include_interior: false,
    };
    let hits = cuboid(&shell, ORIGIN);
    assert_eq!(hits.len(), 26, "a 3x3x3 without its centre");
    assert!(!hits.contains(&Vec3i { x: 17, y: 1, z: 33 }));
    assert_eq!(hits[0], ORIGIN);
    assert_eq!(hits[1], Vec3i { x: 16, y: 0, z: 33 }, "z is the innermost axis");
}

#[test]
fn a_cuboid_without_edges_keeps_faces_and_interior() {
    let c = Cuboid {
        width: 2,
        height: 2,
        length: 2,
        include_edges: false,
        include_interior: true,
    };
    // 27 cells less the 8 corners and the 12 edge middles
    assert_eq!(cuboid(&c, ORIGIN).len(), 7);
    let empty = Cuboid { width: -1, ..c };
    assert!(cuboid(&empty, ORIGIN).is_empty());
}

#[test]
fn placer_fixed_placement_keeps_only_its_own_chunk() {
    let positions = [Vec3i { x: 20, y: 5, z: 35 }, Vec3i { x: -3, y: 5, z: 35 }];
    assert_eq!(fixed_placement(&positions, ORIGIN), vec![Vec3i { x: 20, y: 5, z: 35 }]);
    // -3 lies in chunk -1, not chunk 0
    let west = Vec3i { x: -16, y: 0, z: 32 };
    assert_eq!(fixed_placement(&positions, west), vec![Vec3i { x: -3, y: 5, z: 35 }]);
}

#[test]
fn the_threshold_filters_read_plain_heights() {
    assert!(surface_relative_keeps(64, -2, 2, 62));
    assert!(!surface_relative_keeps(64, -2, 2, 67));
    assert!(surface_relative_keeps(i32::MAX, 1, 1, i32::MIN) == false);
    assert!(water_depth_keeps(60, 60, 0));
    assert!(!water_depth_keeps(50, 60, 5));
    assert!(heightmap_keeps(-63, -64));
    assert!(!heightmap_keeps(-64, -64));
    assert_eq!(copies(-3), 0);
    assert_eq!(copies(4), 4);
}

fn mask(states: &[usize]) -> FixedBitSet {
    let mut set = FixedBitSet::with_capacity(16);
    for &state in states {
        set.insert(state);
    }
    set
}

fn world() -> WorldStates {
    WorldStates {
        air: 0,
        cave_air: 1,
        water: 2,
        lava: 3,
        air_states: mask(&[0, 1]),
        water_states: mask(&[2]),
        lava_states: mask(&[3]),
        bedrock: mask(&[9]),
        block_of_state: vec![0, 1, 2, 3, 4, 4, 4],
        layouts: vec![
            BlockLayout { base: 0, properties: Vec::new() },
            BlockLayout { base: 1, properties: Vec::new() },
            BlockLayout { base: 2, properties: Vec::new() },
            BlockLayout { base: 3, properties: Vec::new() },
            BlockLayout {
                base: 4,
                properties: vec![PropertyLayout {
                    name: "age".to_string(),
                    values: vec!["0".to_string(), "1".to_string(), "2".to_string()],
                    stride: 1,
                }],
            },
        ],
    }
}

#[test]
fn the_world_states_answer_from_their_masks() {
    let world = world();
    assert!(world.is_empty_or_water(1));
    assert!(world.is_empty_or_water(2));
    assert!(!world.is_empty_or_water(3));
    assert!(world.is_empty_or_water_or_lava(3));
    assert!(!world.is_empty_or_water_or_lava(5));
    assert_eq!(world.block_of(6), 4);
    assert_eq!(world.block_of(40), 40);
}

#[test]
fn a_state_finds_the_layout_of_its_block() {
    let world = world();
    assert_eq!(world.layout_of(5).map(|layout| layout.base), Some(4));
    assert_eq!(world.layout_of(5).map(|layout| layout.properties.len()), Some(1));
    assert_eq!(world.layout_of(2).map(|layout| layout.base), Some(2));
    assert!(world.layout_of(40).is_none());
}

#[test]
fn every_layer_finds_the_next_top_face_down() {
    let world = world();
    // from y = 0 up: bedrock, stone, air, stone, stone, air, air
    let column = [9, 5, 0, 5, 5, 0, 0];
    assert_eq!(on_ground_y(&world, &column, 0, 6, 0), Some(5));
    assert_eq!(on_ground_y(&world, &column, 0, 6, 1), Some(2));
    // the face on bedrock does not count
    assert_eq!(on_ground_y(&world, &column, 0, 6, 2), None);
    assert_eq!(on_ground_y(&world, &column, 0, 0, 0), None);
}

#[test]
fn mod_a_cuboid_shell_drops_the_interior() {
    let shell = Cuboid {
        width: 2,
        height: 2,
        length: 2,
        include_edges: true,
        include_interior: false,
    };
    assert_eq!(cuboid(&shell, ORIGIN).len(), 26, "a 3x3x3 without its centre");
}

#[test]
fn mod_fixed_placement_keeps_only_its_own_chunk() {
    let positions = [Vec3i { x: 20, y: 5, z: 35 }, Vec3i { x: -3, y: 5, z: 35 }];
    assert_eq!(fixed_placement(&positions, ORIGIN), vec![Vec3i { x: 20, y: 5, z: 35 }]);
}

#[test]
fn placer_surface_water_depth_reads_two_maps_and_draws_nothing() {
    // the two maps are equal
    assert!(water_depth_keeps(65, 65, 0));
}

#[test]
fn mod_surface_water_depth_reads_two_maps_and_draws_nothing() {
    assert!(water_depth_keeps(65, 65, 0));
}

/// Runs a scan whose count is always `count` and whose probe on layer `l`
/// finds a face while `l < faces`; the actions it asks for, in order.
fn scan(count: i32, faces: i32) -> Vec<LayerAction> {
    let mut scan = LayerScan::new();
    let mut asked = Vec::new();
    loop {
        let action = scan.next_action();
        asked.push(action);
        match action {
            LayerAction::Count => scan.counted(count),
            LayerAction::Probe { layer } => scan.probed(layer < faces),
            LayerAction::Done => return asked,
        }
    }
}

#[test]
fn count_on_every_layer_stops_after_a_pass_that_finds_nothing() {
    // one face on layer zero: a pass that finds it, then one that does not;
    // the count is sampled before each probe and once more to end each pass
    assert_eq!(scan(1, 1), vec![LayerAction::Count, LayerAction::Probe { layer: 0 }, LayerAction::Count, LayerAction::Count, LayerAction::Probe { layer: 1 }, LayerAction::Count, LayerAction::Done]);
    assert_eq!(
        scan(2, 1),
        vec![
            LayerAction::Count,
            LayerAction::Probe { layer: 0 },
            LayerAction::Count,
            LayerAction::Probe { layer: 0 },
            LayerAction::Count,
            LayerAction::Count,
            LayerAction::Probe { layer: 1 },
            LayerAction::Count,
            LayerAction::Probe { layer: 1 },
            LayerAction::Count,
            LayerAction::Done,
        ]
    );
    // a count of nothing ends the first pass at once
    assert_eq!(scan(0, 5), vec![LayerAction::Count, LayerAction::Done]);
}
