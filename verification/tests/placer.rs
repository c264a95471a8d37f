use fixedbitset::FixedBitSet;
use mcrs_minecraft_worldgen::feature::placer::{
    feature_seed, schedule, PlaceAction, Placer, Scheduled,
};
use mcrs_minecraft_worldgen::program::Vec3i;

fn at(x: i32) -> Vec3i {
    Vec3i { x, y: 0, z: 0 }
}

/// Runs a chain whose modifier `m` turns position `x` into `emit(m, x)`,
/// recording every apply and every generation.
fn run(
    chain: usize,
    emit: impl Fn(usize, i32) -> Vec<i32>,
    place: impl Fn(i32) -> bool,
) -> (Vec<(i32, usize)>, Vec<i32>, bool) {
    let mut placer = Placer::new(chain, at(0));
    let mut applied = Vec::new();
    let mut generated = Vec::new();
    loop {
        match placer.next_action() {
            PlaceAction::Apply { at: pos, modifier } => {
                applied.push((pos.x, modifier));
                placer.applied(emit(modifier, pos.x).into_iter().map(at).collect());
            }
            PlaceAction::Generate { at: pos } => {
                generated.push(pos.x);
                placer.generated(place(pos.x));
            }
            PlaceAction::Done => return (applied, generated, placer.placed_any()),
        }
    }
}

#[test]
fn an_empty_chain_runs_the_generator_at_the_origin() {
    let (applied, generated, placed) = run(0, |_, _| Vec::new(), |_| true);
    assert!(applied.is_empty());
    assert_eq!(generated, vec![0]);
    assert!(placed);
}

#[test]
fn outputs_are_consumed_depth_first_in_emission_order() {
    // the first modifier emits 1 and 2; the second emits ten times and ten
    // times plus one of each
    let emit = |m: usize, x: i32| if m == 0 { vec![1, 2] } else { vec![x * 10, x * 10 + 1] };
    let (applied, generated, placed) = run(2, emit, |_| false);
    assert_eq!(applied, vec![(0, 0), (1, 1), (2, 1)]);
    assert_eq!(generated, vec![10, 11, 20, 21]);
    assert!(!placed);
}

#[test]
fn a_filter_after_a_count_interleaves_one_branch_at_a_time() {
    // a count of three, then a filter that keeps only odd positions, then a
    // modifier that moves each by a hundred
    let emit = |m: usize, x: i32| match m {
        0 => vec![1, 2, 3],
        1 => if x % 2 == 1 { vec![x] } else { Vec::new() },
        _ => vec![x + 100],
    };
    let (applied, generated, placed) = run(3, emit, |x| x == 103);
    assert_eq!(applied, vec![(0, 0), (1, 1), (1, 2), (2, 1), (3, 1), (3, 2)]);
    assert_eq!(generated, vec![101, 103]);
    assert!(placed);
}

#[test]
fn the_step_loop_seeds_each_object_from_the_decoration_seed() {
    assert_eq!(feature_seed(5, 2, 3), 5 + 3 + 20_000);
    assert_eq!(feature_seed(i64::MAX, 0, 1), i64::MIN);
    let mut first = FixedBitSet::with_capacity(8);
    first.insert(6);
    first.insert(2);
    let empty = FixedBitSet::with_capacity(8);
    let mut third = FixedBitSet::with_capacity(8);
    third.insert(0);
    let present = vec![first, empty, third];
    let order = schedule(&present, 0, 5, 100);
    assert_eq!(
        order,
        vec![
            Scheduled { step: 0, index: 2, seed: 102 },
            Scheduled { step: 0, index: 6, seed: 106 },
            Scheduled { step: 2, index: 0, seed: 20_100 },
        ]
    );
    assert_eq!(schedule(&present, 1, 2, 100), Vec::new());
}

const ORIGIN: Vec3i = Vec3i { x: 16, y: 0, z: 32 };

fn empty_chain_at_origin() {
    let mut placer = Placer::new(0, ORIGIN);
    assert_eq!(placer.next_action(), PlaceAction::Generate { at: ORIGIN });
    placer.generated(true);
    assert_eq!(placer.next_action(), PlaceAction::Done);
    assert!(placer.placed_any());
}

#[test]
fn placer_an_empty_chain_runs_the_generator_at_the_origin() {
    empty_chain_at_origin();
}

#[test]
fn mod_an_empty_chain_runs_the_generator_at_the_origin() {
    empty_chain_at_origin();
}

/// Step 0 carries its second feature, step 1 its first; the seed is the
/// decoration seed plus the index plus ten thousand per step, and walking
/// the steps one at a time schedules the same objects.
fn seeds_from_the_decoration_seed() {
    let mut first = FixedBitSet::with_capacity(2);
    first.insert(1);
    let mut second = FixedBitSet::with_capacity(1);
    second.insert(0);
    let present = vec![first, second];
    let whole = schedule(&present, 0, 2, 777);
    assert_eq!(
        whole,
        vec![
            Scheduled { step: 0, index: 1, seed: 777 + 1 },
            Scheduled { step: 1, index: 0, seed: 777 + 10_000 },
        ]
    );
    let mut rungs = schedule(&present, 0, 1, 777);
    rungs.extend(schedule(&present, 1, 2, 777));
    assert_eq!(rungs, whole);
}

#[test]
fn placer_the_step_loop_seeds_each_object_from_the_decoration_seed() {
    seeds_from_the_decoration_seed();
}

#[test]
fn mod_the_step_loop_seeds_each_object_from_the_decoration_seed() {
    seeds_from_the_decoration_seed();
}

#[test]
fn every_bit_the_blocks_hold_is_scheduled() {
    // a set of length one built from a whole block also holds bits 2 and 5,
    // past its length; `ones` walks them, so they are scheduled too
    let present = vec![FixedBitSet::with_capacity_and_blocks(1, vec![0b100101])];
    assert!(!present[0].contains(2));
    let order = schedule(&present, 0, 1, 0);
    let indices: Vec<usize> = order.iter().map(|item| item.index).collect();
    assert_eq!(indices, vec![0, 2, 5]);
}
