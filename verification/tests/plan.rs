use mcrs_minecraft_worldgen::plan::{assign_slots, live_nodes, live_order};
use mcrs_minecraft_worldgen::program::{BinaryOp, Node};

fn program() -> Vec<Node> {
    vec![
        Node::Constant(1.0f32.to_bits()),
        Node::Constant(2.0f32.to_bits()),
        Node::Binary { op: BinaryOp::Add, a: 0, b: 1 },
        Node::Constant(5.0f32.to_bits()),
        Node::Affine { input: 2, scale: 3.0f32.to_bits(), offset: 0.0f32.to_bits() },
        Node::Binary { op: BinaryOp::Mul, a: 4, b: 2 },
    ]
}

#[test]
fn only_what_the_target_reads_is_live() {
    let nodes = program();
    assert_eq!(live_nodes(&nodes, 5), vec![true, true, true, false, true, true]);
    assert_eq!(live_nodes(&nodes, 2), vec![true, true, true, false, false, false]);
    assert_eq!(live_nodes(&nodes, 3), vec![false, false, false, true, false, false]);
}

#[test]
fn the_live_order_keeps_program_order() {
    let mut nodes = program();
    nodes.push(Node::Interpolated { input: 5, cell_xz: 4, cell_y: 8, cell: 0 });
    nodes.push(Node::Binary { op: BinaryOp::Add, a: 6, b: 3 });
    // an interpolated node reads its input on the lattice, not where it fills
    let live = live_nodes(&nodes, 7);
    let (order, lattice) = live_order(&nodes, &live);
    assert_eq!(order, vec![3, 6, 7]);
    assert_eq!(lattice, vec![6]);
    let (order, lattice) = live_order(&nodes, &live_nodes(&nodes, 5));
    assert_eq!(order, vec![0, 1, 2, 4, 5]);
    assert!(lattice.is_empty());
}

#[test]
fn a_slot_is_reused_once_its_last_reader_has_run() {
    let nodes = program();
    let (slot, count) = assign_slots(&nodes, &[0; 6], 5, &[0, 1, 2, 4, 5]);
    assert_eq!(slot, vec![0, 1, 2, 1, 0]);
    assert_eq!(count, [3, 0, 0, 0, 0, 0, 0, 0]);
}

#[test]
fn slots_are_kept_apart_by_strata() {
    let nodes = program();
    let (slot, count) = assign_slots(&nodes, &[0, 1, 0, 0, 0, 0], 5, &[0, 1, 2, 4, 5]);
    assert_eq!(slot, vec![0, 0, 1, 0, 2]);
    assert_eq!(count, [3, 1, 0, 0, 0, 0, 0, 0]);
}

#[test]
fn the_target_keeps_its_slot_to_the_end() {
    let nodes = program();
    // the target is read by nothing after it, yet its buffer is never handed back
    let (slot, _) = assign_slots(&nodes, &[0; 6], 2, &[0, 1, 2]);
    assert_eq!(slot, vec![0, 1, 2]);
}
