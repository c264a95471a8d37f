use mcrs_minecraft_worldgen::proto::{Either, NoiseSettings};

#[test]
fn either_reads_and_swaps_its_side() {
    let left: Either<i32, &str> = Either::Left(3);
    assert_eq!(left.left(), Some(&3));
    assert_eq!(left.right(), None);
    let swapped = left.swap();
    assert_eq!(swapped.right(), Some(&3));
    let right: Either<i32, &str> = Either::Right("x");
    assert_eq!(right.map(|l| l.to_string(), |r| r.to_string()), "x");
}

#[test]
fn flat_map_chains_left_values_and_passes_right_ones() {
    let left: Either<i32, &str> = Either::Left(3);
    let mapped = left.flat_map(|l| if l > 2 { Either::Left(l * 2) } else { Either::Right("small") });
    assert_eq!(mapped.left(), Some(&6));
    let right: Either<i32, &str> = Either::Right("r");
    assert_eq!(right.flat_map(|l| Either::<i32, &str>::Left(l)).right(), Some(&"r"));
    let settings = NoiseSettings { min_y: -64, height: 384 };
    assert_eq!(settings.height, 384);
}
