use mcrs_minecraft_worldgen::feature::sort::build_features_per_step;

#[test]
fn unrelated_features_come_out_in_reverse_order_of_first_encounter() {
    let steps = build_features_per_step(&[vec![vec![7]], vec![vec![2]]]).unwrap();
    assert_eq!(steps, vec![vec![2, 7]]);
}

#[test]
fn keeps_each_biome_in_its_own_order() {
    let steps = build_features_per_step(&[
        vec![vec![10, 20, 30]],
        vec![vec![20, 40]],
        vec![vec![50], vec![60]],
    ])
    .unwrap();
    assert_eq!(steps, vec![vec![50, 10, 20, 40, 30], vec![60]]);
}

#[test]
fn the_same_feature_at_two_steps_is_two_vertices() {
    let steps = build_features_per_step(&[vec![vec![1], vec![1]]]).unwrap();
    assert_eq!(steps, vec![vec![1], vec![1]]);
}

#[test]
fn a_cycle_names_a_feature_on_it() {
    let steps = vec![
        vec![vec![1, 2]],
        vec![vec![3, 4]],
        vec![vec![2, 1]],
        vec![vec![5]],
    ];
    assert!(matches!(build_features_per_step(&steps), Err(1 | 2)));
}

#[test]
fn no_biomes_order_nothing() {
    let steps = build_features_per_step(&[]).unwrap();
    assert!(steps.is_empty());
}

#[test]
fn a_repeated_token_in_one_step_is_a_cycle() {
    assert_eq!(build_features_per_step(&[vec![vec![4, 4]]]), Err(4));
}

#[test]
fn empty_steps_still_count_towards_the_step_total() {
    let steps = build_features_per_step(&[vec![vec![], vec![], vec![9]]]).unwrap();
    assert_eq!(steps, vec![vec![], vec![], vec![9]]);
}

#[test]
fn a_shared_feature_orders_two_biomes_across_each_other() {
    // 1 before 2 in one biome, 2 before 3 in the other: 1 must precede 3.
    let steps = build_features_per_step(&[vec![vec![3]], vec![vec![2, 3]], vec![vec![1, 2]]]).unwrap();
    let list = &steps[0];
    let at = |t: usize| list.iter().position(|&x| x == t).unwrap();
    assert!(at(1) < at(2) && at(2) < at(3));
}
