use mcrs_minecraft_worldgen::jmath::{floor_div, floor_mod};
use mcrs_minecraft_worldgen::node::distance::{DistanceMetric, DistanceParams};
use mcrs_minecraft_worldgen::node::gradient::{tile_offset, Tiling};
use mcrs_minecraft_worldgen::program::{
    is_lattice_volume, lattice_volume, EvalCount, Node, Vec3i, Volume,
};

/// The value of a gradient from `from` to `to` at `c`: the tiled offset,
/// scaled by the slope.
fn gradient(tiling: Tiling, from: f32, to: f32, from_value: f32, to_value: f32, c: i32) -> f32 {
    let from_coordinate = from as i32;
    let to_coordinate = to as i32;
    let factor = (to_value - from_value) / (to_coordinate - from_coordinate) as f32;
    from_value + tile_offset(tiling, c, from_coordinate, to_coordinate) as f32 * factor
}

#[test]
fn a_descending_clamped_gradient_keeps_both_coordinates() {
    let at = |y| gradient(Tiling::ClampToEdge, 64.0, -64.0, 1.0, -1.0, y);
    assert_eq!(at(64), 1.0);
    assert_eq!(at(-64), -1.0);
    assert_eq!(at(100), 1.0, "clamped to the sorted maximum");
    assert_eq!(at(-100), -1.0);
    // Collapsing the sorted minimum into from_coordinate would answer 2.0.
    assert_eq!(at(0), 0.0);
}

#[test]
fn repeat_wraps_below_the_origin() {
    let at = |z| gradient(Tiling::Repeat, 0.0, 4.0, 0.0, 4.0, z);
    assert_eq!(at(-1), 3.0, "floor_mod, not the truncating remainder");
    assert_eq!(at(-4), 0.0);
}

#[test]
fn mirrored_repeat_alternates_across_negative_tiles() {
    let at = |x| gradient(Tiling::MirroredRepeat, 0.0, 4.0, 0.0, 4.0, x);
    assert_eq!(at(0), 0.0);
    assert_eq!(at(3), 3.0);
    assert_eq!(at(5), 3.0, "tile 1 mirrors");
    assert_eq!(at(-1), 1.0, "tile -1 is odd");
    assert_eq!(at(-4), 4.0);
    assert_eq!(at(-5), 3.0);
}

#[test]
fn the_codec_default_is_clamp_to_edge() {
    assert_eq!(Tiling::default(), Tiling::ClampToEdge);
}

#[test]
fn clamping_takes_coordinates_far_from_the_gradient() {
    assert_eq!(tile_offset(Tiling::ClampToEdge, i32::MIN, 100, 200), 0);
    assert_eq!(tile_offset(Tiling::ClampToEdge, i32::MAX, -100, -200), 0);
    assert_eq!(tile_offset(Tiling::ClampToEdge, i32::MAX, -100, 200), 300);
}

#[test]
fn a_one_block_mirrored_gradient_stays_on_its_first_block() {
    assert_eq!(tile_offset(Tiling::MirroredRepeat, i32::MIN + 5, 5, 4), 0);
    assert_eq!(tile_offset(Tiling::MirroredRepeat, 9, 5, 4), 0);
}

#[test]
fn the_delta_wraps_like_java_int_subtraction() {
    let p = DistanceParams::new(i32::MIN, 0, 0, DistanceMetric::Chebyshev);
    let (dx, dy, dz) = p.offset_from(1, 0, 0);
    let chebyshev = (dx as f32).abs().max((dy as f32).abs()).max((dz as f32).abs());
    assert_eq!(chebyshev, i32::MAX as f32);
    assert_eq!(p.offset_from(1, 2, -3), (i32::MAX, -2, 3));
}

#[test]
fn floor_division_rounds_towards_negative_infinity() {
    assert_eq!(floor_div(7, 2), 3);
    assert_eq!(floor_div(-7, 2), -4);
    assert_eq!(floor_div(7, -2), -4);
    assert_eq!(floor_div(-7, -2), 3);
    assert_eq!(floor_mod(-7, 2), 1);
    assert_eq!(floor_mod(7, -2), -1);
    assert_eq!(floor_mod(i32::MIN, -1), 0);
    assert_eq!(floor_div(i32::MIN, 1), i32::MIN);
}

#[test]
fn a_volume_on_the_cell_lattice_is_recognised() {
    let on = Volume {
        size: Vec3i { x: 3, y: 1, z: 1 },
        min: Vec3i { x: 0, y: 0, z: 0 },
        step: Vec3i { x: 4, y: 4, z: 4 },
    };
    assert!(is_lattice_volume(&on, 4, 4));
    let dense = Volume {
        size: Vec3i { x: 5, y: 1, z: 1 },
        min: Vec3i { x: 0, y: 0, z: 0 },
        step: Vec3i { x: 1, y: 1, z: 1 },
    };
    assert!(!is_lattice_volume(&dense, 4, 4));
    let shifted = Volume { min: Vec3i { x: -3, y: 0, z: 0 }, ..on };
    assert!(!is_lattice_volume(&shifted, 4, 4));
}

#[test]
fn the_lattice_encloses_the_volume_with_a_far_corner() {
    let dense = Volume {
        size: Vec3i { x: 5, y: 3, z: 1 },
        min: Vec3i { x: -3, y: 10, z: 8 },
        step: Vec3i { x: 1, y: 1, z: 1 },
    };
    let lattice = lattice_volume(&dense, true, 4, 8);
    assert_eq!(lattice.min, Vec3i { x: -4, y: 8, z: 8 });
    assert_eq!(lattice.size, Vec3i { x: 3, y: 2, z: 2 });
    assert_eq!(lattice.step, Vec3i { x: 4, y: 8, z: 4 });
    let flat = lattice_volume(&dense, false, 4, 8);
    assert_eq!(flat.size.y, 2);
}

#[test]
fn nested_counts_add_up() {
    let mut count = EvalCount::new();
    count.absorb(EvalCount { evaluated: 3, skipped: 1 });
    count.absorb(EvalCount { evaluated: 2, skipped: 0 });
    assert_eq!(count, EvalCount { evaluated: 5, skipped: 1 });
}

#[test]
fn a_lattice_far_from_the_origin_stays_in_range() {
    let far = Volume {
        size: Vec3i { x: 2, y: 1, z: 1 },
        min: Vec3i { x: 2_000_000_000, y: -2_000_000_000, z: 0 },
        step: Vec3i { x: 4, y: 1, z: 1 },
    };
    let lattice = lattice_volume(&far, false, 4, 8);
    assert_eq!(lattice.min, Vec3i { x: 2_000_000_000, y: -2_000_000_000, z: 0 });
    assert_eq!(lattice.size, Vec3i { x: 3, y: 2, z: 2 });
}

#[test]
fn visit_inputs_reaches_every_edge_of_a_select() {
    let node = Node::IntervalSelect {
        input: 7,
        thresholds: vec![0.0f32.to_bits(), 1.0f32.to_bits()],
        arms: vec![10, 11, 12],
    };
    assert_eq!(node.inputs(), vec![7, 10, 11, 12]);
}

#[test]
fn the_re_entrant_kinds_hide_what_they_sample_elsewhere() {
    let interpolated = Node::Interpolated { input: 3, cell_xz: 4, cell_y: 8, cell: 0 };
    assert_eq!(interpolated.inputs(), vec![3]);
    assert!(interpolated.local_inputs().is_empty());
    let surface = Node::FindTopSurface { density: 4, upper_bound: 5, lower_bound: -64, cell_height: 8 };
    assert_eq!(surface.inputs(), vec![4, 5]);
    assert_eq!(surface.local_inputs(), vec![5]);
    let lerp = Node::Lerp { alpha: 1, first: 2, second: 3 };
    assert_eq!(lerp.local_inputs(), vec![1, 2, 3]);
    assert!(Node::Constant(0).inputs().is_empty());
    let spline = Node::Spline { spline: 0, coords: vec![9, 8] };
    assert_eq!(spline.inputs(), vec![9, 8]);
}
