use crate::program::{lemma_inputs_are_operands, names_operand, node_local_inputs, Node, NodeId};
use vstd::prelude::*;

verus! {

/// Whether the node at position `r` of `order` reads node `j` at the
/// position it fills.
pub open spec fn reads_at(nodes: Seq<Node>, order: Seq<NodeId>, j: NodeId, r: int) -> bool {
    node_local_inputs(nodes[order[r] as int]).contains(j)
}

/// The last of the first `n` positions of `order` whose node reads `j`.
pub open spec fn last_read(nodes: Seq<Node>, order: Seq<NodeId>, j: NodeId, n: int) -> Option<int>
    decreases n,
{
    if n <= 0 {
        None
    } else if reads_at(nodes, order, j, n - 1) {
        Some(n - 1)
    } else {
        last_read(nodes, order, j, n - 1)
    }
}

/// The position after whose node the buffer of `j` is free again: that of
/// its last reader. The target's buffer, which the fill reads once the
/// order is done, and that of a node nothing reads, are never free again.
pub open spec fn release_at(nodes: Seq<Node>, order: Seq<NodeId>, target: NodeId, j: NodeId) -> int {
    if j == target {
        usize::MAX as int
    } else {
        match last_read(nodes, order, j, order.len() as int) {
            Some(r) => r,
            None => usize::MAX as int,
        }
    }
}

/// An evaluation order the slots can be planned for: the nodes and their
/// strata agree, each node in the order once, and every input a node reads
/// at its position placed before it.
pub open spec fn plannable(nodes: Seq<Node>, axes: Seq<u8>, target: NodeId, order: Seq<NodeId>) -> bool {
    &&& target < nodes.len()
    &&& axes.len() == nodes.len()
    &&& forall|i: int| 0 <= i < axes.len() ==> axes[i] < 8
    &&& order.len() < u32::MAX
    &&& forall|k: int| 0 <= k < order.len() ==> order[k] < nodes.len()
    &&& forall|k1: int, k2: int| 0 <= k1 < k2 < order.len() ==> order[k1] != order[k2]
    &&& forall|r: int, j: NodeId|
        0 <= r < order.len() && #[trigger] reads_at(nodes, order, j, r) ==> exists|k: int|
            0 <= k < r && order[k] == j
}

proof fn lemma_last_read(nodes: Seq<Node>, order: Seq<NodeId>, j: NodeId, n: int)
    requires
        0 <= n,
    ensures
        match last_read(nodes, order, j, n) {
            Some(m) => 0 <= m < n && reads_at(nodes, order, j, m) && forall|r: int|
                m < r < n ==> !reads_at(nodes, order, j, r),
            None => forall|r: int| 0 <= r < n ==> !reads_at(nodes, order, j, r),
        },
    decreases n,
{
    if n > 0 {
        lemma_last_read(nodes, order, j, n - 1);
    }
}

/// The buffer of the node at position `k` is free again before position
/// `q`: once its last reader has run, never for the target.
proof fn lemma_release_facts(nodes: Seq<Node>, axes: Seq<u8>, target: NodeId, order: Seq<NodeId>, k: int)
    requires
        plannable(nodes, axes, target, order),
        0 <= k < order.len(),
    ensures
        release_at(nodes, order, target, order[k]) > k,
        release_at(nodes, order, target, order[k]) < order.len() ==> order[k] != target && forall|r: int|
            release_at(nodes, order, target, order[k]) < r < order.len() ==> !reads_at(
                nodes,
                order,
                order[k],
                r,
            ),
{
    let j = order[k];
    lemma_last_read(nodes, order, j, order.len() as int);
    if j != target {
        match last_read(nodes, order, j, order.len() as int) {
            Some(m) => {
                assert(reads_at(nodes, order, j, m));
                let k2 = choose|k2: int| 0 <= k2 < m && order[k2] == j;
                if k2 != k {
                    if k2 < k {
                        assert(order[k2] != order[k]);
                    } else {
                        assert(order[k] != order[k2]);
                    }
                }
            },
            None => {},
        }
    }
}

/// Whether node `i` marks its inputs live: it is the target, or a later node
/// that marks its inputs reads it at the position it fills.
pub open spec fn marks_inputs(nodes: Seq<Node>, target: NodeId, i: int) -> bool
    decreases nodes.len() - i,
{
    if 0 <= i < nodes.len() {
        i == target || exists|r: int|
            i < r < nodes.len() && marks_inputs(nodes, target, r) && #[trigger] node_local_inputs(
                nodes[r],
            ).contains(i as NodeId)
    } else {
        false
    }
}

/// Whether a fill of `target` needs node `x`: it is the target, or a node
/// marking its inputs reads it.
pub open spec fn needed(nodes: Seq<Node>, target: NodeId, x: NodeId) -> bool {
    x == target || exists|r: int|
        0 <= r < nodes.len() && marks_inputs(nodes, target, r) && #[trigger] node_local_inputs(nodes[r]).contains(x)
}

/// In a program whose nodes read only earlier nodes where they fill, a fill
/// needs every operand a needed node reads there: all of a node's operands,
/// but for an interpolated node, which reads its input on its lattice, and a
/// top-surface search, which reads only its upper bound where it fills.
pub proof fn lemma_needed_operands(nodes: Seq<Node>, target: NodeId, x: NodeId, j: NodeId)
    requires
        target < nodes.len(),
        x < nodes.len(),
        forall|r: int, i: NodeId|
            0 <= r < nodes.len() && #[trigger] node_local_inputs(nodes[r]).contains(i) ==> i < r,
        needed(nodes, target, x),
        match nodes[x as int] {
            Node::Interpolated { .. } => false,
            Node::FindTopSurface { upper_bound, .. } => j == upper_bound,
            _ => names_operand(nodes[x as int], j),
        },
    ensures
        needed(nodes, target, j),
{
    assert(marks_inputs(nodes, target, x as int)) by {
        if x != target {
            let r = choose|r: int|
                0 <= r < nodes.len() && marks_inputs(nodes, target, r) && #[trigger] node_local_inputs(nodes[r]).contains(x);
            assert(x < r);
            assert(((x as int) as NodeId) == x);
            assert(node_local_inputs(nodes[r]).contains((x as int) as NodeId));
        }
    }
    lemma_inputs_are_operands(nodes[x as int], j);
    assert(node_local_inputs(nodes[x as int]).contains(j));
}

/// The nodes a fill of `target` evaluates, walking the program from its end:
/// the target, and every input a needed node reads at the position it fills.
pub fn live_nodes(nodes: &[Node], target: NodeId) -> (live: Vec<bool>)
    requires
        target < nodes@.len(),
        nodes@.len() <= u32::MAX,
        forall|r: int, j: NodeId|
            0 <= r < nodes@.len() && marks_inputs(nodes@, target, r) && #[trigger] node_local_inputs(
                nodes@[r],
            ).contains(j) ==> j < nodes@.len(),
    ensures
        live@.len() == nodes@.len(),
        forall|x: NodeId| x < nodes@.len() ==> #[trigger] live@[x as int] == needed(nodes@, target, x),
{
    let n = nodes.len();
    let mut live: Vec<bool> = Vec::new();
    while live.len() < n
        invariant
            live@.len() <= n,
            forall|x: int| 0 <= x < live@.len() ==> !live@[x],
        decreases n - live@.len(),
    {
        live.push(false);
    }
    live.set(target as usize, true);
    let mut i: usize = n;
    while i > 0
        invariant
            n == nodes@.len(),
            n <= u32::MAX,
            target < n,
            i <= n,
            live@.len() == n,
            forall|r: int, j: NodeId|
                0 <= r < nodes@.len() && marks_inputs(nodes@, target, r) && #[trigger] node_local_inputs(
                    nodes@[r],
                ).contains(j) ==> j < nodes@.len(),
            forall|x: NodeId|
                x < n ==> #[trigger] live@[x as int] == (x == target || exists|r: int|
                    i <= r < n && marks_inputs(nodes@, target, r) && #[trigger] node_local_inputs(
                        nodes@[r],
                    ).contains(x)),
        decreases i,
    {
        i -= 1;
        proof {
            assert(live@[i as int] == marks_inputs(nodes@, target, i as int)) by {
                assert((i as NodeId) as int == i);
            }
        }
        if live[i] {
            let ins = nodes[i].local_inputs();
            let mut t: usize = 0;
            while t < ins.len()
                invariant
                    n == nodes@.len(),
                    target < n,
                    i < n,
                    marks_inputs(nodes@, target, i as int),
                    ins@ == node_local_inputs(nodes@[i as int]),
                    t <= ins@.len(),
                    live@.len() == n,
                    forall|r: int, j: NodeId|
                        0 <= r < nodes@.len() && marks_inputs(nodes@, target, r) && #[trigger] node_local_inputs(
                            nodes@[r],
                        ).contains(j) ==> j < nodes@.len(),
                    forall|x: NodeId|
                        x < n ==> #[trigger] live@[x as int] == (x == target || ins@.take(t as int).contains(x)
                            || exists|r: int|
                            i + 1 <= r < n && marks_inputs(nodes@, target, r) && #[trigger] node_local_inputs(
                                nodes@[r],
                            ).contains(x)),
                decreases ins@.len() - t,
            {
                let j = ins[t];
                proof {
                    assert(ins@.contains(j));
                    lemma_take_push(ins@, t as int);
                }
                let ghost before = live@;
                live.set(j as usize, true);
                proof {
                    assert forall|x: NodeId| x < n implies #[trigger] live@[x as int] == (x == target
                        || ins@.take(t + 1).contains(x) || exists|r: int|
                        i + 1 <= r < n && marks_inputs(nodes@, target, r) && #[trigger] node_local_inputs(
                            nodes@[r],
                        ).contains(x)) by {
                        if x != j {
                            assert(live@[x as int] == before[x as int]);
                        }
                    }
                }
                t += 1;
            }
            proof {
                assert(ins@.take(ins@.len() as int) =~= ins@);
                assert forall|x: NodeId| x < n implies #[trigger] live@[x as int] == (x == target || exists|r: int|
                    i <= r < n && marks_inputs(nodes@, target, r) && #[trigger] node_local_inputs(
                        nodes@[r],
                    ).contains(x)) by {
                    if ins@.contains(x) {
                        assert(node_local_inputs(nodes@[i as int]).contains(x));
                    }
                    if exists|r: int|
                        i <= r < n && marks_inputs(nodes@, target, r) && #[trigger] node_local_inputs(
                            nodes@[r],
                        ).contains(x) {
                        let r = choose|r: int|
                            i <= r < n && marks_inputs(nodes@, target, r) && #[trigger] node_local_inputs(
                                nodes@[r],
                            ).contains(x);
                        if r == i {
                            assert(ins@.contains(x));
                        }
                    }
                }
            }
        } else {
            proof {
                assert forall|x: NodeId| x < n implies #[trigger] live@[x as int] == (x == target || exists|r: int|
                    i <= r < n && marks_inputs(nodes@, target, r) && #[trigger] node_local_inputs(
                        nodes@[r],
                    ).contains(x)) by {
                    if exists|r: int|
                        i <= r < n && marks_inputs(nodes@, target, r) && #[trigger] node_local_inputs(
                            nodes@[r],
                        ).contains(x) {
                        let r = choose|r: int|
                            i <= r < n && marks_inputs(nodes@, target, r) && #[trigger] node_local_inputs(
                                nodes@[r],
                            ).contains(x);
                        assert(r != i);
                    }
                }
            }
        }
    }
    live
}

/// Whether node `x` is live and sampled on a lattice, whose cells a fill
/// interpolates.
pub open spec fn live_lattice(nodes: Seq<Node>, live: Seq<bool>, x: int) -> bool {
    live[x] && nodes[x] is Interpolated
}

/// `ids` lists, in ascending order, exactly the live nodes below `n`, or
/// with `lattice_only` exactly those live nodes sampled on a lattice.
pub open spec fn lists_ascending(ids: Seq<NodeId>, n: int, nodes: Seq<Node>, live: Seq<bool>, lattice_only: bool) -> bool {
    &&& forall|a: int, b: int| 0 <= a < b < ids.len() ==> ids[a] < ids[b]
    &&& forall|a: int|
        0 <= a < ids.len() ==> ids[a] < n && live[ids[a] as int] && (lattice_only ==> live_lattice(
            nodes,
            live,
            ids[a] as int,
        ))
    &&& forall|x: int|
        0 <= x < n && #[trigger] live[x] && (lattice_only ==> live_lattice(nodes, live, x)) ==> ids.contains(
            x as NodeId,
        )
}

/// The live nodes in program order, and among them those sampled on a
/// lattice, whose cells a fill interpolates.
pub fn live_order(nodes: &[Node], live: &[bool]) -> (res: (Vec<NodeId>, Vec<NodeId>))
    requires
        live@.len() == nodes@.len(),
        nodes@.len() <= u32::MAX,
    ensures
        lists_ascending(res.0@, nodes@.len() as int, nodes@, live@, false),
        lists_ascending(res.1@, nodes@.len() as int, nodes@, live@, true),
{
    let mut order: Vec<NodeId> = Vec::new();
    let mut lattice: Vec<NodeId> = Vec::new();
    let mut i: usize = 0;
    while i < nodes.len()
        invariant
            live@.len() == nodes@.len(),
            nodes@.len() <= u32::MAX,
            i <= nodes@.len(),
            lists_ascending(order@, i as int, nodes@, live@, false),
            lists_ascending(lattice@, i as int, nodes@, live@, true),
        decreases nodes@.len() - i,
    {
        if live[i] {
            let ghost old_order = order@;
            order.push(i as NodeId);
            proof {
                assert forall|x: int| 0 <= x < i + 1 && #[trigger] live@[x] implies order@.contains(x as NodeId) by {
                    if x < i {
                        let k = choose|k: int| 0 <= k < old_order.len() && old_order[k] == x as NodeId;
                        assert(order@[k] == x as NodeId);
                    } else {
                        assert(order@[old_order.len() as int] == x as NodeId);
                    }
                }
            }
            if matches!(nodes[i], Node::Interpolated { .. }) {
                let ghost old_lattice = lattice@;
                lattice.push(i as NodeId);
                proof {
                    assert forall|x: int| 0 <= x < i + 1 && #[trigger] live@[x] && live_lattice(nodes@, live@, x) implies lattice@.contains(
                        x as NodeId,
                    ) by {
                        if x < i {
                            let k = choose|k: int| 0 <= k < old_lattice.len() && old_lattice[k] == x as NodeId;
                            assert(lattice@[k] == x as NodeId);
                        } else {
                            assert(lattice@[old_lattice.len() as int] == x as NodeId);
                        }
                    }
                }
            }
        }
        i += 1;
    }
    (order, lattice)
}

/// For every node, the position after which its buffer is free again, or
/// `usize::MAX` for never.
fn release_positions(nodes: &[Node], axes: &[u8], target: NodeId, order: &[NodeId]) -> (last_use: Vec<usize>)
    requires
        plannable(nodes@, axes@, target, order@),
    ensures
        last_use@.len() == nodes@.len(),
        forall|j: NodeId|
            j < nodes@.len() ==> #[trigger] last_use@[j as int] as int == release_at(
                nodes@,
                order@,
                target,
                j,
            ),
{
    let n = nodes.len();
    let mut last_use: Vec<usize> = Vec::new();
    while last_use.len() < n
        invariant
            last_use@.len() <= n,
            n == nodes@.len(),
            forall|j: int| 0 <= j < last_use@.len() ==> last_use@[j] == usize::MAX,
        decreases n - last_use@.len(),
    {
        last_use.push(usize::MAX);
    }
    let mut p: usize = 0;
    while p < order.len()
        invariant
            plannable(nodes@, axes@, target, order@),
            n == nodes@.len(),
            p <= order@.len(),
            last_use@.len() == n,
            forall|j: NodeId|
                j < n ==> #[trigger] last_use@[j as int] as int == (match last_read(nodes@, order@, j, p as int) {
                    Some(r) => r,
                    None => usize::MAX as int,
                }),
        decreases order@.len() - p,
    {
        let ins = nodes[order[p] as usize].local_inputs();
        let mut t: usize = 0;
        while t < ins.len()
            invariant
                plannable(nodes@, axes@, target, order@),
                n == nodes@.len(),
                p < order@.len(),
                ins@ == node_local_inputs(nodes@[order@[p as int] as int]),
                t <= ins@.len(),
                last_use@.len() == n,
                forall|j: NodeId|
                    j < n ==> #[trigger] last_use@[j as int] as int == (if ins@.take(t as int).contains(j) {
                        p as int
                    } else {
                        match last_read(nodes@, order@, j, p as int) {
                            Some(r) => r,
                            None => usize::MAX as int,
                        }
                    }),
            decreases ins@.len() - t,
        {
            let j = ins[t];
            proof {
                assert(ins@.contains(j));
                assert(reads_at(nodes@, order@, j, p as int));
                let k = choose|k: int| 0 <= k < p && order@[k] == j;
                assert(j < n);
            }
            let ghost before = last_use@;
            last_use.set(j as usize, p);
            proof {
                assert(ins@.take(t + 1) =~= ins@.take(t as int).push(j));
                assert forall|i: NodeId| ins@.take(t + 1).contains(i) <==> (ins@.take(t as int).contains(i)
                    || i == j) by {
                    if ins@.take(t + 1).contains(i) {
                        let x = choose|x: int| 0 <= x < t + 1 && #[trigger] ins@.take(t + 1)[x] == i;
                        if x < t {
                            assert(ins@.take(t as int)[x] == i);
                        }
                    }
                    if ins@.take(t as int).contains(i) {
                        let x = choose|x: int| 0 <= x < t && #[trigger] ins@.take(t as int)[x] == i;
                        assert(ins@.take(t + 1)[x] == i);
                    }
                    if i == j {
                        assert(ins@.take(t + 1)[t as int] == i);
                    }
                }
                assert forall|i: NodeId| i < n implies #[trigger] last_use@[i as int] as int == (if ins@.take(
                    t + 1,
                ).contains(i) {
                    p as int
                } else {
                    match last_read(nodes@, order@, i, p as int) {
                        Some(r) => r,
                        None => usize::MAX as int,
                    }
                }) by {
                    if i != j {
                        assert(last_use@[i as int] == before[i as int]);
                        assert(ins@.take(t + 1).contains(i) == ins@.take(t as int).contains(i));
                    } else {
                        assert(ins@.take(t + 1)[t as int] == i);
                        assert(ins@.take(t + 1).contains(i));
                    }
                }
            }
            t += 1;
        }
        proof {
            assert(ins@.take(ins@.len() as int) =~= ins@);
            assert forall|j: NodeId| j < n implies #[trigger] last_use@[j as int] as int == (match last_read(
                nodes@,
                order@,
                j,
                p + 1,
            ) {
                Some(r) => r,
                None => usize::MAX as int,
            }) by {
                assert(ins@.contains(j) == reads_at(nodes@, order@, j, p as int));
            }
        }
        p += 1;
    }
    last_use.set(target as usize, usize::MAX);
    last_use
}

proof fn lemma_take_push(s: Seq<NodeId>, t: int)
    requires
        0 <= t < s.len(),
    ensures
        forall|x: NodeId| #[trigger] s.take(t + 1).contains(x) <==> (s.take(t).contains(x) || x == s[t]),
{
    assert(s.take(t + 1) =~= s.take(t).push(s[t]));
    assert forall|x: NodeId| #[trigger] s.take(t + 1).contains(x) <==> (s.take(t).contains(x) || x == s[t]) by {
        if s.take(t + 1).contains(x) {
            let i = choose|i: int| 0 <= i < t + 1 && #[trigger] s.take(t + 1)[i] == x;
            if i < t {
                assert(s.take(t)[i] == x);
            }
        }
        if s.take(t).contains(x) {
            let i = choose|i: int| 0 <= i < t && #[trigger] s.take(t)[i] == x;
            assert(s.take(t + 1)[i] == x);
        }
        if x == s[t] {
            assert(s.take(t + 1)[t] == x);
        }
    }
}

/// Whether the buffer of the node at position `k` is still held while the
/// node at position `p` hands back its inputs, `done` being the inputs it
/// has gone through.
pub open spec fn held(nodes: Seq<Node>, order: Seq<NodeId>, target: NodeId, done: Seq<NodeId>, p: int, k: int) -> bool {
    freed_after(nodes, order, target, k) > p || (freed_after(nodes, order, target, k) == p && !done.contains(
        order[k],
    ))
}

/// The strata of the node at position `k` of `order`.
pub open spec fn axis_of(axes: Seq<u8>, order: Seq<NodeId>, k: int) -> u8 {
    axes[order[k] as int]
}

/// The position after which the buffer of the node at position `k` of
/// `order` is free again.
pub open spec fn freed_after(nodes: Seq<Node>, order: Seq<NodeId>, target: NodeId, k: int) -> int {
    release_at(nodes, order, target, order[k])
}

/// No node writes over a buffer still to be read: where two nodes of one
/// strata share a slot, the earlier is not the target and no node from the
/// later one on reads it.
pub open spec fn slots_safe(nodes: Seq<Node>, axes: Seq<u8>, target: NodeId, order: Seq<NodeId>, slot: Seq<u32>) -> bool {
    forall|k: int, q: int|
        0 <= k < q < order.len() && axis_of(axes, order, k) == axis_of(axes, order, q) && #[trigger] slot[k]
            == #[trigger] slot[q] ==> order[k] != target && forall|r: int|
            q <= r < order.len() ==> !reads_at(nodes, order, order[k], r)
}

/// Some node among the first `taken.len()` of the order, of strata `a`, took
/// slot `s`; `taken` holds their slots.
pub open spec fn slot_used(axes: Seq<u8>, order: Seq<NodeId>, taken: Seq<u32>, a: u8, s: u32) -> bool {
    exists|k: int| 0 <= k < taken.len() && axis_of(axes, order, k) == a && #[trigger] taken[k] == s
}

/// Every node among the first `taken.len()` of the order that took slot `s`
/// of strata `a` is freed before the next one.
pub open spec fn all_freed(
    nodes: Seq<Node>,
    axes: Seq<u8>,
    order: Seq<NodeId>,
    target: NodeId,
    taken: Seq<u32>,
    a: u8,
    s: u32,
) -> bool {
    forall|k: int|
        0 <= k < taken.len() && axis_of(axes, order, k) == a && #[trigger] taken[k] == s ==> freed_after(
            nodes,
            order,
            target,
            k,
        ) < taken.len()
}

/// Slot `s` of strata `a` is free for the node after the first
/// `taken.len()`: some of them took it, and all of those are freed.
pub open spec fn slot_free(
    nodes: Seq<Node>,
    axes: Seq<u8>,
    order: Seq<NodeId>,
    target: NodeId,
    taken: Seq<u32>,
    a: u8,
    s: u32,
) -> bool {
    slot_used(axes, order, taken, a, s) && all_freed(nodes, axes, order, target, taken, a, s)
}

/// No node that took slot `s` of strata `a` is held while the node at `p`
/// hands back its inputs.
pub open spec fn none_held(
    nodes: Seq<Node>,
    axes: Seq<u8>,
    order: Seq<NodeId>,
    target: NodeId,
    done: Seq<NodeId>,
    p: int,
    taken: Seq<u32>,
    a: u8,
    s: u32,
) -> bool {
    forall|k: int|
        0 <= k < taken.len() && axis_of(axes, order, k) == a && #[trigger] taken[k] == s ==> !held(
            nodes,
            order,
            target,
            done,
            p,
            k,
        )
}

/// The last position among the first `taken.len()` of the order whose node,
/// of strata `a`, took slot `s`, or -1 where none did.
pub open spec fn last_holder(axes: Seq<u8>, order: Seq<NodeId>, taken: Seq<u32>, a: u8, s: u32) -> int
    decreases taken.len(),
{
    if taken.len() == 0 {
        -1
    } else if axis_of(axes, order, taken.len() - 1) == a && taken.last() == s {
        taken.len() - 1
    } else {
        last_holder(axes, order, taken.drop_last(), a, s)
    }
}

/// Where `x` first occurs in `s`.
pub open spec fn first_index(s: Seq<NodeId>, x: NodeId) -> int {
    choose|t: int| 0 <= t < s.len() && s[t] == x && !s.take(t).contains(x)
}

/// The buffer of the node at position `k1` is handed back before that of the
/// node at `k2`: by an earlier node, or by the same node, met earlier among
/// its inputs.
pub open spec fn handed_back_before(nodes: Seq<Node>, order: Seq<NodeId>, target: NodeId, k1: int, k2: int) -> bool {
    let r1 = freed_after(nodes, order, target, k1);
    let r2 = freed_after(nodes, order, target, k2);
    r1 < r2 || (r1 == r2 && first_index(node_local_inputs(nodes[order[r1] as int]), order[k1])
        < first_index(node_local_inputs(nodes[order[r2] as int]), order[k2]))
}

proof fn lemma_first_index(s: Seq<NodeId>, x: NodeId, t: int)
    requires
        0 <= t < s.len(),
        s[t] == x,
    ensures
        first_index(s, x) <= t,
        !s.take(t).contains(x) ==> first_index(s, x) == t,
    decreases t,
{
    if s.take(t).contains(x) {
        let t1 = choose|i: int| 0 <= i < t && #[trigger] s.take(t)[i] == x;
        assert(s[t1] == x);
        lemma_first_index(s, x, t1);
    } else {
        let t2 = first_index(s, x);
        assert(0 <= t2 < s.len() && s[t2] == x && !s.take(t2).contains(x));
        if t2 < t {
            assert(s.take(t)[t2] == x);
        } else if t2 > t {
            assert(s.take(t2)[t] == x);
        }
    }
}

proof fn lemma_last_holder(axes: Seq<u8>, order: Seq<NodeId>, taken: Seq<u32>, a: u8, s: u32, k0: int)
    requires
        0 <= k0 < taken.len(),
        axis_of(axes, order, k0) == a,
        taken[k0] == s,
        forall|k: int| k0 < k < taken.len() && axis_of(axes, order, k) == a ==> taken[k] != s,
    ensures
        last_holder(axes, order, taken, a, s) == k0,
    decreases taken.len(),
{
    if k0 < taken.len() - 1 {
        lemma_last_holder(axes, order, taken.drop_last(), a, s, k0);
    }
}

/// Hand back the buffers of the inputs the node at position `p` reads for
/// the last time, in the order it reads them.
fn hand_back(
    nodes: &[Node],
    axes: &[u8],
    target: NodeId,
    order: &[NodeId],
    p: usize,
    ins: &Vec<NodeId>,
    last_use: &mut Vec<usize>,
    free: &mut Vec<(u8, u32)>,
    node_slot: &Vec<u32>,
    slot: &Vec<u32>,
    count: &Vec<u32>,
)
    requires
            plannable(nodes@, axes@, target, order@),
            p < order@.len(),
            ins@ == node_local_inputs(nodes@[order@[p as int] as int]),
            forall|k: int| 0 <= k < order@.len() ==> #[trigger] freed_after(nodes@, order@, target, k) > k,
            old(last_use)@.len() == nodes@.len(),
            forall|j: NodeId|
                j < nodes@.len() ==> #[trigger] old(last_use)@[j as int] as int == (if release_at(
                    nodes@,
                    order@,
                    target,
                    j,
                ) < p || (release_at(nodes@, order@, target, j) == p && ins@.take(0).contains(j)) {
                    usize::MAX as int
                } else {
                    release_at(nodes@, order@, target, j)
                }),
            node_slot@.len() == nodes@.len(),
            slot@.len() == p + 1,
            count@.len() == 8,
            forall|k: int| 0 <= k <= p ==> node_slot@[order@[k] as int] == #[trigger] slot@[k],
            forall|a: int| 0 <= a < 8 ==> #[trigger] count@[a] <= p + 1,
            forall|k: int| 0 <= k <= p ==> #[trigger] slot@[k] < count@[axis_of(axes@, order@, k) as int],
            forall|y: int|
                0 <= y < old(free)@.len() ==> (#[trigger] old(free)@[y]).0 < 8 && old(free)@[y].1 < count@[old(free)@[y].0 as int],
            forall|y1: int, y2: int| 0 <= y1 < y2 < old(free)@.len() ==> old(free)@[y1] != old(free)@[y2],
            forall|k: int, y: int|
                0 <= k <= p && 0 <= y < old(free)@.len() && held(nodes@, order@, target, ins@.take(0), p as int, k)
                    ==> #[trigger] old(free)@[y] != (axis_of(axes@, order@, k), #[trigger] slot@[k]),
            forall|k1: int, k2: int|
                0 <= k1 < k2 <= p && held(nodes@, order@, target, ins@.take(0), p as int, k1) && held(
                    nodes@,
                    order@,
                    target,
                    ins@.take(0),
                    p as int,
                    k2,
                ) && axis_of(axes@, order@, k1) == axis_of(axes@, order@, k2) ==> #[trigger] slot@[k1]
                    != #[trigger] slot@[k2],
            forall|k: int, q: int|
                0 <= k < q <= p && axis_of(axes@, order@, k) == axis_of(axes@, order@, q) && #[trigger] slot@[k]
                    == #[trigger] slot@[q] ==> freed_after(nodes@, order@, target, k) < q,
            forall|b: u8, s2: u32| b < 8 && s2 < count@[b as int] ==> #[trigger] slot_used(axes@, order@, slot@, b, s2),
            forall|b: u8, s2: u32|
                b < 8 && s2 < count@[b as int] && #[trigger] none_held(
                    nodes@,
                    axes@,
                    order@,
                    target,
                    ins@.take(0),
                    p as int,
                    slot@,
                    b,
                    s2,
                ) ==> old(free)@.contains((b, s2)),
            forall|y: int| 0 <= y < old(free)@.len() ==> slot_used(axes@, order@, slot@, (#[trigger] old(free)@[y]).0, old(free)@[y].1),
            forall|q: int|
                0 <= q <= p && !slot_used(axes@, order@, slot@.take(q), axis_of(axes@, order@, q), #[trigger] slot@[q])
                    ==> (forall|s2: u32| !slot_free(nodes@, axes@, order@, target, slot@.take(q), axis_of(axes@, order@, q), s2))
                    && (forall|s2: u32| s2 < slot@[q] ==> slot_used(axes@, order@, slot@.take(q), axis_of(axes@, order@, q), s2)),
            forall|y: int|
                0 <= y < old(free)@.len() ==> 0 <= last_holder(axes@, order@, slot@, (#[trigger] old(free)@[y]).0, old(free)@[y].1)
                    <= p && (freed_after(
                    nodes@,
                    order@,
                    target,
                    last_holder(axes@, order@, slot@, old(free)@[y].0, old(free)@[y].1),
                ) < p || (freed_after(
                    nodes@,
                    order@,
                    target,
                    last_holder(axes@, order@, slot@, old(free)@[y].0, old(free)@[y].1),
                ) == p && first_index(
                    ins@,
                    order@[last_holder(axes@, order@, slot@, old(free)@[y].0, old(free)@[y].1)],
                ) < 0)),
            forall|y1: int, y2: int|
                0 <= y1 < y2 < old(free)@.len() ==> handed_back_before(
                    nodes@,
                    order@,
                    target,
                    last_holder(axes@, order@, slot@, (#[trigger] old(free)@[y1]).0, old(free)@[y1].1),
                    last_holder(axes@, order@, slot@, (#[trigger] old(free)@[y2]).0, old(free)@[y2].1),
                ),
            forall|q: int, s2: u32|
            0 <= q < p + 1 && slot_used(axes@, order@, slot@.take(q), axis_of(axes@, order@, q), slot@[q])
                && #[trigger] slot_free(nodes@, axes@, order@, target, slot@.take(q), axis_of(axes@, order@, q), s2)
                && s2 != slot@[q] ==> handed_back_before(
                nodes@,
                order@,
                target,
                last_holder(axes@, order@, slot@.take(q), axis_of(axes@, order@, q), s2),
                last_holder(axes@, order@, slot@.take(q), axis_of(axes@, order@, q), slot@[q]),
            ),
    ensures
        final(last_use)@.len() == nodes@.len(),
        forall|j: NodeId|
            j < nodes@.len() ==> #[trigger] final(last_use)@[j as int] as int == (if release_at(nodes@, order@, target, j)
                < p + 1 {
                usize::MAX as int
            } else {
                release_at(nodes@, order@, target, j)
            }),
        forall|y: int|
            0 <= y < final(free)@.len() ==> (#[trigger] final(free)@[y]).0 < 8 && final(free)@[y].1 < count@[final(free)@[y].0 as int],
        forall|y1: int, y2: int| 0 <= y1 < y2 < final(free)@.len() ==> final(free)@[y1] != final(free)@[y2],
        forall|k: int, y: int|
            0 <= k < p + 1 && 0 <= y < final(free)@.len() && freed_after(nodes@, order@, target, k) >= p + 1
                ==> #[trigger] final(free)@[y] != (axis_of(axes@, order@, k), #[trigger] slot@[k]),
        forall|b: u8, s: u32|
            b < 8 && s < count@[b as int] && #[trigger] all_freed(nodes@, axes@, order@, target, slot@, b, s)
                ==> final(free)@.contains((b, s)),
        forall|y: int| 0 <= y < final(free)@.len() ==> slot_used(axes@, order@, slot@, (#[trigger] final(free)@[y]).0, final(free)@[y].1),
        forall|y: int|
            0 <= y < final(free)@.len() ==> 0 <= last_holder(axes@, order@, slot@, (#[trigger] final(free)@[y]).0, final(free)@[y].1) < p + 1
                && freed_after(nodes@, order@, target, last_holder(axes@, order@, slot@, final(free)@[y].0, final(free)@[y].1)) < p + 1,
        forall|y1: int, y2: int|
            0 <= y1 < y2 < final(free)@.len() ==> handed_back_before(
                nodes@,
                order@,
                target,
                last_holder(axes@, order@, slot@, (#[trigger] final(free)@[y1]).0, final(free)@[y1].1),
                last_holder(axes@, order@, slot@, (#[trigger] final(free)@[y2]).0, final(free)@[y2].1),
            ),
{
    let n = nodes.len();
    let mut t: usize = 0;
    while t < ins.len()
        invariant
            plannable(nodes@, axes@, target, order@),
            n == nodes@.len(),
            p < order@.len(),
            ins@ == node_local_inputs(nodes@[order@[p as int] as int]),
            t <= ins@.len(),
            forall|k: int| 0 <= k < order@.len() ==> #[trigger] freed_after(nodes@, order@, target, k) > k,
            last_use@.len() == n,
            forall|j: NodeId|
                j < n ==> #[trigger] last_use@[j as int] as int == (if release_at(
                    nodes@,
                    order@,
                    target,
                    j,
                ) < p || (release_at(nodes@, order@, target, j) == p && ins@.take(t as int).contains(j)) {
                    usize::MAX as int
                } else {
                    release_at(nodes@, order@, target, j)
                }),
            node_slot@.len() == n,
            slot@.len() == p + 1,
            count@.len() == 8,
            forall|k: int| 0 <= k <= p ==> node_slot@[order@[k] as int] == #[trigger] slot@[k],
            forall|a: int| 0 <= a < 8 ==> #[trigger] count@[a] <= p + 1,
            forall|k: int| 0 <= k <= p ==> #[trigger] slot@[k] < count@[axis_of(axes@, order@, k) as int],
            forall|y: int|
                0 <= y < free@.len() ==> (#[trigger] free@[y]).0 < 8 && free@[y].1 < count@[free@[y].0 as int],
            forall|y1: int, y2: int| 0 <= y1 < y2 < free@.len() ==> free@[y1] != free@[y2],
            forall|k: int, y: int|
                0 <= k <= p && 0 <= y < free@.len() && held(nodes@, order@, target, ins@.take(t as int), p as int, k)
                    ==> #[trigger] free@[y] != (axis_of(axes@, order@, k), #[trigger] slot@[k]),
            forall|k1: int, k2: int|
                0 <= k1 < k2 <= p && held(nodes@, order@, target, ins@.take(t as int), p as int, k1) && held(
                    nodes@,
                    order@,
                    target,
                    ins@.take(t as int),
                    p as int,
                    k2,
                ) && axis_of(axes@, order@, k1) == axis_of(axes@, order@, k2) ==> #[trigger] slot@[k1]
                    != #[trigger] slot@[k2],
            forall|k: int, q: int|
                0 <= k < q <= p && axis_of(axes@, order@, k) == axis_of(axes@, order@, q) && #[trigger] slot@[k]
                    == #[trigger] slot@[q] ==> freed_after(nodes@, order@, target, k) < q,
            forall|b: u8, s2: u32| b < 8 && s2 < count@[b as int] ==> #[trigger] slot_used(axes@, order@, slot@, b, s2),
            forall|b: u8, s2: u32|
                b < 8 && s2 < count@[b as int] && #[trigger] none_held(
                    nodes@,
                    axes@,
                    order@,
                    target,
                    ins@.take(t as int),
                    p as int,
                    slot@,
                    b,
                    s2,
                ) ==> free@.contains((b, s2)),
            forall|y: int| 0 <= y < free@.len() ==> slot_used(axes@, order@, slot@, (#[trigger] free@[y]).0, free@[y].1),
            forall|q: int|
                0 <= q <= p && !slot_used(axes@, order@, slot@.take(q), axis_of(axes@, order@, q), #[trigger] slot@[q])
                    ==> (forall|s2: u32| !slot_free(nodes@, axes@, order@, target, slot@.take(q), axis_of(axes@, order@, q), s2))
                    && (forall|s2: u32| s2 < slot@[q] ==> slot_used(axes@, order@, slot@.take(q), axis_of(axes@, order@, q), s2)),
            forall|y: int|
                0 <= y < free@.len() ==> 0 <= last_holder(axes@, order@, slot@, (#[trigger] free@[y]).0, free@[y].1)
                    <= p && (freed_after(
                    nodes@,
                    order@,
                    target,
                    last_holder(axes@, order@, slot@, free@[y].0, free@[y].1),
                ) < p || (freed_after(
                    nodes@,
                    order@,
                    target,
                    last_holder(axes@, order@, slot@, free@[y].0, free@[y].1),
                ) == p && first_index(
                    ins@,
                    order@[last_holder(axes@, order@, slot@, free@[y].0, free@[y].1)],
                ) < t)),
            forall|y1: int, y2: int|
                0 <= y1 < y2 < free@.len() ==> handed_back_before(
                    nodes@,
                    order@,
                    target,
                    last_holder(axes@, order@, slot@, (#[trigger] free@[y1]).0, free@[y1].1),
                    last_holder(axes@, order@, slot@, (#[trigger] free@[y2]).0, free@[y2].1),
                ),
            forall|q: int, s2: u32|
            0 <= q < p + 1 && slot_used(axes@, order@, slot@.take(q), axis_of(axes@, order@, q), slot@[q])
                && #[trigger] slot_free(nodes@, axes@, order@, target, slot@.take(q), axis_of(axes@, order@, q), s2)
                && s2 != slot@[q] ==> handed_back_before(
                nodes@,
                order@,
                target,
                last_holder(axes@, order@, slot@.take(q), axis_of(axes@, order@, q), s2),
                last_holder(axes@, order@, slot@.take(q), axis_of(axes@, order@, q), slot@[q]),
            ),
        decreases ins@.len() - t,
    {
        let j = ins[t];
        proof {
            assert(ins@.contains(j));
            assert(reads_at(nodes@, order@, j, p as int));
            lemma_take_push(ins@, t as int);
        }
        let ghost k0 = choose|k: int| 0 <= k < p && order@[k] == j;
        if last_use[j as usize] == p {
            let ghost free_old = free@;
            last_use.set(j as usize, usize::MAX);
            free.push((axes[j as usize], node_slot[j as usize]));
            proof {
                assert(node_slot@[order@[k0] as int] == slot@[k0]);
                assert(axis_of(axes@, order@, k0) == axes@[j as int]);
                assert(slot@[k0] < count@[axis_of(axes@, order@, k0) as int]);
                assert(free@[free_old.len() as int] == (axis_of(axes@, order@, k0), slot@[k0]));
                assert forall|y: int| 0 <= y < free@.len() implies (#[trigger] free@[y]).0 < 8 && free@[y].1
                    < count@[free@[y].0 as int] by {
                    if y < free_old.len() {
                        assert(free@[y] == free_old[y]);
                    }
                }
                assert(freed_after(nodes@, order@, target, k0) == p);
                assert(held(nodes@, order@, target, ins@.take(t as int), p as int, k0));
                assert forall|y: int| 0 <= y < free_old.len() implies free_old[y] != free@[free_old.len() as int] by {
                    assert(free_old[y] != (axis_of(axes@, order@, k0), slot@[k0]));
                }
                assert forall|k: int, y: int|
                    0 <= k <= p && 0 <= y < free@.len() && held(nodes@, order@, target, ins@.take(t + 1), p as int, k)
                        implies #[trigger] free@[y] != (axis_of(axes@, order@, k), #[trigger] slot@[k]) by {
                    assert(held(nodes@, order@, target, ins@.take(t as int), p as int, k));
                    if y < free_old.len() {
                        assert(free@[y] == free_old[y]);
                    } else if k != k0 {
                        if k < k0 {
                            assert(slot@[k] != slot@[k0] || axis_of(axes@, order@, k) != axis_of(axes@, order@, k0));
                        } else {
                            assert(slot@[k0] != slot@[k] || axis_of(axes@, order@, k) != axis_of(axes@, order@, k0));
                        }
                    }
                }
                assert forall|y: int| 0 <= y < free@.len() implies slot_used(
                    axes@,
                    order@,
                    slot@,
                    (#[trigger] free@[y]).0,
                    free@[y].1,
                ) by {
                    if y < free_old.len() {
                        assert(free@[y] == free_old[y]);
                    }
                }
                assert forall|k: int|
                    k0 < k < slot@.len() && axis_of(axes@, order@, k) == axis_of(axes@, order@, k0) implies slot@[k]
                    != slot@[k0] by {
                    if slot@[k] == slot@[k0] {
                        assert(freed_after(nodes@, order@, target, k0) < k);
                    }
                }
                lemma_last_holder(axes@, order@, slot@, axis_of(axes@, order@, k0), slot@[k0], k0);
                assert(!ins@.take(t as int).contains(j));
                lemma_first_index(ins@, j, t as int);
                assert(order@[k0] == j);
                assert forall|y: int| 0 <= y < free@.len() implies 0 <= last_holder(
                    axes@,
                    order@,
                    slot@,
                    (#[trigger] free@[y]).0,
                    free@[y].1,
                ) <= p && (freed_after(
                    nodes@,
                    order@,
                    target,
                    last_holder(axes@, order@, slot@, free@[y].0, free@[y].1),
                ) < p || (freed_after(
                    nodes@,
                    order@,
                    target,
                    last_holder(axes@, order@, slot@, free@[y].0, free@[y].1),
                ) == p && first_index(
                    ins@,
                    order@[last_holder(axes@, order@, slot@, free@[y].0, free@[y].1)],
                ) < t + 1)) by {
                    if y < free_old.len() {
                        assert(free@[y] == free_old[y]);
                    }
                }
                assert forall|y1: int, y2: int| 0 <= y1 < y2 < free@.len() implies handed_back_before(
                    nodes@,
                    order@,
                    target,
                    last_holder(axes@, order@, slot@, (#[trigger] free@[y1]).0, free@[y1].1),
                    last_holder(axes@, order@, slot@, (#[trigger] free@[y2]).0, free@[y2].1),
                ) by {
                    assert(free@[y1] == free_old[y1]);
                    if y2 < free_old.len() {
                        assert(free@[y2] == free_old[y2]);
                    } else {
                        let h1 = last_holder(axes@, order@, slot@, free_old[y1].0, free_old[y1].1);
                        assert(0 <= h1 <= p);
                    }
                }
                assert forall|b: u8, s2: u32|
                    b < 8 && s2 < count@[b as int] && #[trigger] none_held(
                        nodes@,
                        axes@,
                        order@,
                        target,
                        ins@.take(t + 1),
                        p as int,
                        slot@,
                        b,
                        s2,
                    ) implies free@.contains((b, s2)) by {
                    if (b, s2) == (axis_of(axes@, order@, k0), slot@[k0]) {
                        assert(free@[free_old.len() as int] == (b, s2));
                    } else {
                        assert forall|k: int|
                            0 <= k < slot@.len() && axis_of(axes@, order@, k) == b && #[trigger] slot@[k] == s2
                                implies !held(nodes@, order@, target, ins@.take(t as int), p as int, k) by {
                            assert(!held(nodes@, order@, target, ins@.take(t + 1), p as int, k));
                            if k != k0 {
                                if k < k0 {
                                    assert(order@[k] != order@[k0]);
                                } else {
                                    assert(order@[k0] != order@[k]);
                                }
                            }
                        }
                        assert(none_held(nodes@, axes@, order@, target, ins@.take(t as int), p as int, slot@, b, s2));
                        assert(free_old.contains((b, s2)));
                        let y = choose|y: int| 0 <= y < free_old.len() && free_old[y] == (b, s2);
                        assert(free@[y] == free_old[y]);
                    }
                }
            }
        } else {
            proof {
                assert forall|k: int|
                    0 <= k <= p implies #[trigger] held(nodes@, order@, target, ins@.take(t + 1), p as int, k)
                    == held(nodes@, order@, target, ins@.take(t as int), p as int, k) by {
                    if order@[k] == j {
                        if k != k0 {
                            if k < k0 {
                                assert(order@[k] != order@[k0]);
                            } else {
                                assert(order@[k0] != order@[k]);
                            }
                        }
                    }
                }
                assert forall|b: u8, s2: u32|
                    b < 8 && s2 < count@[b as int] && #[trigger] none_held(
                        nodes@,
                        axes@,
                        order@,
                        target,
                        ins@.take(t + 1),
                        p as int,
                        slot@,
                        b,
                        s2,
                    ) implies free@.contains((b, s2)) by {
                    assert forall|k: int|
                        0 <= k < slot@.len() && axis_of(axes@, order@, k) == b && #[trigger] slot@[k] == s2
                            implies !held(nodes@, order@, target, ins@.take(t as int), p as int, k) by {
                        assert(!held(nodes@, order@, target, ins@.take(t + 1), p as int, k));
                    }
                    assert(none_held(nodes@, axes@, order@, target, ins@.take(t as int), p as int, slot@, b, s2));
                }
            }
        }
        proof {
            assert forall|k: int|
                0 <= k <= p && #[trigger] held(nodes@, order@, target, ins@.take(t + 1), p as int, k)
                implies held(nodes@, order@, target, ins@.take(t as int), p as int, k) by {}
        }
        t += 1;
    }
    proof {
        assert(ins@.take(ins@.len() as int) =~= ins@);
        assert forall|k: int| 0 <= k <= p && freed_after(nodes@, order@, target, k) == p implies ins@.contains(
            #[trigger] order@[k],
        ) by {
            lemma_release_facts(nodes@, axes@, target, order@, k);
            lemma_last_read(nodes@, order@, order@[k], order@.len() as int);
        }
        assert forall|j: NodeId| j < n && release_at(nodes@, order@, target, j) == p implies ins@.contains(j) by {
            lemma_last_read(nodes@, order@, j, order@.len() as int);
        }
        assert forall|b: u8, s2: u32|
            b < 8 && s2 < count@[b as int] && #[trigger] all_freed(nodes@, axes@, order@, target, slot@, b, s2)
                implies free@.contains((b, s2)) by {
            assert forall|k: int|
                0 <= k < slot@.len() && axis_of(axes@, order@, k) == b && #[trigger] slot@[k] == s2 implies !held(
                nodes@,
                order@,
                target,
                ins@.take(ins@.len() as int),
                p as int,
                k,
            ) by {
                if freed_after(nodes@, order@, target, k) == p {
                    assert(ins@.contains(order@[k]));
                }
            }
            assert(none_held(nodes@, axes@, order@, target, ins@.take(ins@.len() as int), p as int, slot@, b, s2));
        }
    }
}

/// Taking a slot keeps the free slots in the order they were handed back,
/// each with the node that last held it.
proof fn lemma_take_keeps_hand_back_order(
    nodes: Seq<Node>,
    axes: Seq<u8>,
    target: NodeId,
    order: Seq<NodeId>,
    p: int,
    ins: Seq<NodeId>,
    free_before: Seq<(u8, u32)>,
    free: Seq<(u8, u32)>,
    slot_before: Seq<u32>,
    slot: Seq<u32>,
    count_before: Seq<u32>,
    a: u8,
    taken: u32,
    x: int,
)
    requires
        slot_before.len() == p,
        slot == slot_before.push(taken),
        0 <= p < order.len(),
        axis_of(axes, order, p) == a,
        forall|y1: int, y2: int| 0 <= y1 < y2 < free_before.len() ==> free_before[y1] != free_before[y2],
        0 <= x <= free_before.len(),
        x > 0 ==> free_before[x - 1] == (a, taken) && free == free_before.remove(x - 1),
        x == 0 ==> free == free_before && taken == count_before[a as int] && forall|y: int|
            0 <= y < free_before.len() && (#[trigger] free_before[y]).0 == a ==> free_before[y].1 < count_before[a as int],
        forall|y: int|
            0 <= y < free_before.len() ==> 0 <= last_holder(axes, order, slot_before, (#[trigger] free_before[y]).0, free_before[y].1) < p
                && freed_after(nodes, order, target, last_holder(axes, order, slot_before, free_before[y].0, free_before[y].1)) < p,
        forall|y1: int, y2: int|
            0 <= y1 < y2 < free_before.len() ==> handed_back_before(
                nodes,
                order,
                target,
                last_holder(axes, order, slot_before, (#[trigger] free_before[y1]).0, free_before[y1].1),
                last_holder(axes, order, slot_before, (#[trigger] free_before[y2]).0, free_before[y2].1),
            ),
    ensures
        forall|y: int|
            0 <= y < free.len() ==> 0 <= last_holder(axes, order, slot, (#[trigger] free[y]).0, free[y].1)
                <= p && (freed_after(
                nodes,
                order,
                target,
                last_holder(axes, order, slot, free[y].0, free[y].1),
            ) < p || (freed_after(
                nodes,
                order,
                target,
                last_holder(axes, order, slot, free[y].0, free[y].1),
            ) == p && first_index(
                ins,
                order[last_holder(axes, order, slot, free[y].0, free[y].1)],
            ) < 0)),
        forall|y1: int, y2: int|
            0 <= y1 < y2 < free.len() ==> handed_back_before(
                nodes,
                order,
                target,
                last_holder(axes, order, slot, (#[trigger] free[y1]).0, free[y1].1),
                last_holder(axes, order, slot, (#[trigger] free[y2]).0, free[y2].1),
            ),
{
        assert(slot.drop_last() =~= slot_before);
        assert(slot.last() == taken);
        assert forall|y: int| 0 <= y < free.len() implies last_holder(
            axes,
            order,
            slot,
            (#[trigger] free[y]).0,
            free[y].1,
        ) == last_holder(axes, order, slot_before, free[y].0, free[y].1) && free_before.contains(free[y]) by {
            let yb = if x > 0 && y >= x - 1 {
                y + 1
            } else {
                y
            };
            if x > 0 {
                if y < x - 1 {
                    assert(free[y] == free_before[y]);
                } else {
                    assert(free[y] == free_before[y + 1]);
                }
                assert(free[y] != free_before[x - 1]);
            } else {
                assert(free[y] == free_before[y]);
                if free[y].0 == a {
                    assert(free[y].1 < count_before[a as int]);
                }
            }
            assert(free_before[yb] == free[y]);
        }
        assert forall|y: int| 0 <= y < free.len() implies 0 <= last_holder(
            axes,
            order,
            slot,
            (#[trigger] free[y]).0,
            free[y].1,
        ) <= p && (freed_after(
            nodes,
            order,
            target,
            last_holder(axes, order, slot, free[y].0, free[y].1),
        ) < p || (freed_after(
            nodes,
            order,
            target,
            last_holder(axes, order, slot, free[y].0, free[y].1),
        ) == p && first_index(
            ins,
            order[last_holder(axes, order, slot, free[y].0, free[y].1)],
        ) < 0)) by {
            let yb = choose|yb: int| 0 <= yb < free_before.len() && free_before[yb] == free[y];
            assert(free_before[yb] == free[y]);
        }
        assert forall|y1: int, y2: int| 0 <= y1 < y2 < free.len() implies handed_back_before(
            nodes,
            order,
            target,
            last_holder(axes, order, slot, (#[trigger] free[y1]).0, free[y1].1),
            last_holder(axes, order, slot, (#[trigger] free[y2]).0, free[y2].1),
        ) by {
            if x > 0 {
                let b1 = if y1 < x - 1 {
                    y1
                } else {
                    y1 + 1
                };
                let b2 = if y2 < x - 1 {
                    y2
                } else {
                    y2 + 1
                };
                if y1 < x - 1 {
                    assert(free[y1] == free_before[y1]);
                } else {
                    assert(free[y1] == free_before[y1 + 1]);
                }
                if y2 < x - 1 {
                    assert(free[y2] == free_before[y2]);
                } else {
                    assert(free[y2] == free_before[y2 + 1]);
                }
                assert(free[y1] == free_before[b1] && free[y2] == free_before[b2]);
            } else {
                assert(free[y1] == free_before[y1]);
                assert(free[y2] == free_before[y2]);
            }
        }
}

/// The slot a node takes, where one of its strata is free, is the free one
/// handed back last.
proof fn lemma_take_latest(
    nodes: Seq<Node>,
    axes: Seq<u8>,
    target: NodeId,
    order: Seq<NodeId>,
    p: int,
    free_before: Seq<(u8, u32)>,
    slot_before: Seq<u32>,
    slot: Seq<u32>,
    count_before: Seq<u32>,
    a: u8,
    taken: u32,
    x: int,
)
    requires
        slot_before.len() == p,
        slot == slot_before.push(taken),
        0 <= p < order.len(),
        axis_of(axes, order, p) == a,
        a < 8,
        count_before.len() == 8,
        forall|y1: int, y2: int| 0 <= y1 < y2 < free_before.len() ==> free_before[y1] != free_before[y2],
        0 <= x <= free_before.len(),
        forall|y: int| x <= y < free_before.len() ==> (#[trigger] free_before[y]).0 != a,
        x > 0 ==> free_before[x - 1] == (a, taken),
        x == 0 ==> taken == count_before[a as int],
        forall|k: int| 0 <= k < p ==> #[trigger] slot_before[k] < count_before[axis_of(axes, order, k) as int],
        forall|b: u8, s: u32|
            b < 8 && s < count_before[b as int] && #[trigger] all_freed(nodes, axes, order, target, slot_before, b, s)
                ==> free_before.contains((b, s)),
        forall|y1: int, y2: int|
            0 <= y1 < y2 < free_before.len() ==> handed_back_before(
                nodes,
                order,
                target,
                last_holder(axes, order, slot_before, (#[trigger] free_before[y1]).0, free_before[y1].1),
                last_holder(axes, order, slot_before, (#[trigger] free_before[y2]).0, free_before[y2].1),
            ),
        forall|q: int, s2: u32|
            0 <= q < p && slot_used(axes, order, slot_before.take(q), axis_of(axes, order, q), slot_before[q])
                && #[trigger] slot_free(nodes, axes, order, target, slot_before.take(q), axis_of(axes, order, q), s2)
                && s2 != slot_before[q] ==> handed_back_before(
                nodes,
                order,
                target,
                last_holder(axes, order, slot_before.take(q), axis_of(axes, order, q), s2),
                last_holder(axes, order, slot_before.take(q), axis_of(axes, order, q), slot_before[q]),
            ),
    ensures
        forall|q: int, s2: u32|
            0 <= q < p + 1 && slot_used(axes, order, slot.take(q), axis_of(axes, order, q), slot[q])
                && #[trigger] slot_free(nodes, axes, order, target, slot.take(q), axis_of(axes, order, q), s2)
                && s2 != slot[q] ==> handed_back_before(
                nodes,
                order,
                target,
                last_holder(axes, order, slot.take(q), axis_of(axes, order, q), s2),
                last_holder(axes, order, slot.take(q), axis_of(axes, order, q), slot[q]),
            ),
{
    assert forall|q: int, s2: u32|
        0 <= q < p + 1 && slot_used(axes, order, slot.take(q), axis_of(axes, order, q), slot[q])
            && #[trigger] slot_free(nodes, axes, order, target, slot.take(q), axis_of(axes, order, q), s2)
            && s2 != slot[q] implies handed_back_before(
            nodes,
            order,
            target,
            last_holder(axes, order, slot.take(q), axis_of(axes, order, q), s2),
            last_holder(axes, order, slot.take(q), axis_of(axes, order, q), slot[q]),
        ) by {
        if q < p {
            assert(slot.take(q) =~= slot_before.take(q));
            assert(slot[q] == slot_before[q]);
        } else {
            assert(slot.take(q) =~= slot_before);
            assert(slot[q] == taken);
            if x == 0 {
                let k = choose|k: int|
                    0 <= k < slot_before.len() && axis_of(axes, order, k) == a && #[trigger] slot_before[k] == taken;
                assert(slot_before[k] < count_before[a as int]);
            } else {
                let k = choose|k: int|
                    0 <= k < slot_before.len() && axis_of(axes, order, k) == a && #[trigger] slot_before[k] == s2;
                assert(slot_before[k] < count_before[a as int]);
                assert(all_freed(nodes, axes, order, target, slot_before, a, s2));
                assert(free_before.contains((a, s2)));
                let y2 = choose|y: int| 0 <= y < free_before.len() && free_before[y] == (a, s2);
                assert(y2 != x - 1);
                assert(y2 < x - 1);
                assert(free_before[y2] == (a, s2));
            }
        }
    }
}

/// The node at position `p` takes its slot: the free slot of its strata
/// handed back last, or the next new one.
#[verifier::rlimit(100)]
#[verifier::spinoff_prover]
fn take_slot(
    nodes: &[Node],
    axes: &[u8],
    target: NodeId,
    order: &[NodeId],
    p: usize,
    ins: &Vec<NodeId>,
    last_use: &Vec<usize>,
    free: &mut Vec<(u8, u32)>,
    count: &mut Vec<u32>,
    node_slot: &mut Vec<u32>,
    slot: &mut Vec<u32>,
)
    requires
        plannable(nodes@, axes@, target, order@),
        p < order@.len(),
        ins@ == node_local_inputs(nodes@[order@[p as int] as int]),
        forall|k: int| 0 <= k < order@.len() ==> #[trigger] freed_after(nodes@, order@, target, k) > k,
        last_use@.len() == nodes@.len(),
        forall|j: NodeId|
            j < nodes@.len() ==> #[trigger] last_use@[j as int] as int == (if release_at(nodes@, order@, target, j)
                < p {
                usize::MAX as int
            } else {
                release_at(nodes@, order@, target, j)
            }),
        old(node_slot)@.len() == nodes@.len(),
        old(slot)@.len() == p,
        old(count)@.len() == 8,
        forall|k: int| 0 <= k < p ==> old(node_slot)@[order@[k] as int] == #[trigger] old(slot)@[k],
        forall|a: int| 0 <= a < 8 ==> #[trigger] old(count)@[a] <= p,
        forall|k: int| 0 <= k < p ==> #[trigger] old(slot)@[k] < old(count)@[axis_of(axes@, order@, k) as int],
        forall|y: int|
            0 <= y < old(free)@.len() ==> (#[trigger] old(free)@[y]).0 < 8 && old(free)@[y].1 < old(count)@[old(free)@[y].0 as int],
        forall|y1: int, y2: int| 0 <= y1 < y2 < old(free)@.len() ==> old(free)@[y1] != old(free)@[y2],
        forall|k: int, y: int|
            0 <= k < p && 0 <= y < old(free)@.len() && freed_after(nodes@, order@, target, k) >= p
                ==> #[trigger] old(free)@[y] != (axis_of(axes@, order@, k), #[trigger] old(slot)@[k]),
        forall|k1: int, k2: int|
            0 <= k1 < k2 < p && freed_after(nodes@, order@, target, k1) >= p && freed_after(
                nodes@,
                order@,
                target,
                k2,
            ) >= p && axis_of(axes@, order@, k1) == axis_of(axes@, order@, k2) ==> #[trigger] old(slot)@[k1]
                != #[trigger] old(slot)@[k2],
        forall|k: int, q: int|
            0 <= k < q < p && axis_of(axes@, order@, k) == axis_of(axes@, order@, q) && #[trigger] old(slot)@[k]
                == #[trigger] old(slot)@[q] ==> freed_after(nodes@, order@, target, k) < q,
        forall|b: u8, s: u32| b < 8 && s < old(count)@[b as int] ==> #[trigger] slot_used(axes@, order@, old(slot)@, b, s),
        forall|b: u8, s: u32|
            b < 8 && s < old(count)@[b as int] && #[trigger] all_freed(nodes@, axes@, order@, target, old(slot)@, b, s)
                ==> old(free)@.contains((b, s)),
        forall|y: int| 0 <= y < old(free)@.len() ==> slot_used(axes@, order@, old(slot)@, (#[trigger] old(free)@[y]).0, old(free)@[y].1),
        forall|q: int|
            0 <= q < p && !slot_used(axes@, order@, old(slot)@.take(q), axis_of(axes@, order@, q), #[trigger] old(slot)@[q])
                ==> (forall|s: u32| !slot_free(nodes@, axes@, order@, target, old(slot)@.take(q), axis_of(axes@, order@, q), s))
                && (forall|s: u32| s < old(slot)@[q] ==> slot_used(axes@, order@, old(slot)@.take(q), axis_of(axes@, order@, q), s)),
        forall|y: int|
            0 <= y < old(free)@.len() ==> 0 <= last_holder(axes@, order@, old(slot)@, (#[trigger] old(free)@[y]).0, old(free)@[y].1) < p
                && freed_after(nodes@, order@, target, last_holder(axes@, order@, old(slot)@, old(free)@[y].0, old(free)@[y].1)) < p,
        forall|y1: int, y2: int|
            0 <= y1 < y2 < old(free)@.len() ==> handed_back_before(
                nodes@,
                order@,
                target,
                last_holder(axes@, order@, old(slot)@, (#[trigger] old(free)@[y1]).0, old(free)@[y1].1),
                last_holder(axes@, order@, old(slot)@, (#[trigger] old(free)@[y2]).0, old(free)@[y2].1),
            ),
        forall|q: int, s2: u32|
            0 <= q < p && slot_used(axes@, order@, old(slot)@.take(q), axis_of(axes@, order@, q), old(slot)@[q])
                && #[trigger] slot_free(nodes@, axes@, order@, target, old(slot)@.take(q), axis_of(axes@, order@, q), s2)
                && s2 != old(slot)@[q] ==> handed_back_before(
                nodes@,
                order@,
                target,
                last_holder(axes@, order@, old(slot)@.take(q), axis_of(axes@, order@, q), s2),
                last_holder(axes@, order@, old(slot)@.take(q), axis_of(axes@, order@, q), old(slot)@[q]),
            ),
    ensures
            plannable(nodes@, axes@, target, order@),
            p < order@.len(),
            ins@ == node_local_inputs(nodes@[order@[p as int] as int]),
            forall|k: int| 0 <= k < order@.len() ==> #[trigger] freed_after(nodes@, order@, target, k) > k,
            last_use@.len() == nodes@.len(),
            forall|j: NodeId|
                j < nodes@.len() ==> #[trigger] last_use@[j as int] as int == (if release_at(
                    nodes@,
                    order@,
                    target,
                    j,
                ) < p || (release_at(nodes@, order@, target, j) == p && ins@.take(0).contains(j)) {
                    usize::MAX as int
                } else {
                    release_at(nodes@, order@, target, j)
                }),
            final(node_slot)@.len() == nodes@.len(),
            final(slot)@.len() == p + 1,
            final(count)@.len() == 8,
            forall|k: int| 0 <= k <= p ==> final(node_slot)@[order@[k] as int] == #[trigger] final(slot)@[k],
            forall|a: int| 0 <= a < 8 ==> #[trigger] final(count)@[a] <= p + 1,
            forall|k: int| 0 <= k <= p ==> #[trigger] final(slot)@[k] < final(count)@[axis_of(axes@, order@, k) as int],
            forall|y: int|
                0 <= y < final(free)@.len() ==> (#[trigger] final(free)@[y]).0 < 8 && final(free)@[y].1 < final(count)@[final(free)@[y].0 as int],
            forall|y1: int, y2: int| 0 <= y1 < y2 < final(free)@.len() ==> final(free)@[y1] != final(free)@[y2],
            forall|k: int, y: int|
                0 <= k <= p && 0 <= y < final(free)@.len() && held(nodes@, order@, target, ins@.take(0), p as int, k)
                    ==> #[trigger] final(free)@[y] != (axis_of(axes@, order@, k), #[trigger] final(slot)@[k]),
            forall|k1: int, k2: int|
                0 <= k1 < k2 <= p && held(nodes@, order@, target, ins@.take(0), p as int, k1) && held(
                    nodes@,
                    order@,
                    target,
                    ins@.take(0),
                    p as int,
                    k2,
                ) && axis_of(axes@, order@, k1) == axis_of(axes@, order@, k2) ==> #[trigger] final(slot)@[k1]
                    != #[trigger] final(slot)@[k2],
            forall|k: int, q: int|
                0 <= k < q <= p && axis_of(axes@, order@, k) == axis_of(axes@, order@, q) && #[trigger] final(slot)@[k]
                    == #[trigger] final(slot)@[q] ==> freed_after(nodes@, order@, target, k) < q,
            forall|b: u8, s2: u32| b < 8 && s2 < final(count)@[b as int] ==> #[trigger] slot_used(axes@, order@, final(slot)@, b, s2),
            forall|b: u8, s2: u32|
                b < 8 && s2 < final(count)@[b as int] && #[trigger] none_held(
                    nodes@,
                    axes@,
                    order@,
                    target,
                    ins@.take(0),
                    p as int,
                    final(slot)@,
                    b,
                    s2,
                ) ==> final(free)@.contains((b, s2)),
            forall|y: int| 0 <= y < final(free)@.len() ==> slot_used(axes@, order@, final(slot)@, (#[trigger] final(free)@[y]).0, final(free)@[y].1),
            forall|q: int|
                0 <= q <= p && !slot_used(axes@, order@, final(slot)@.take(q), axis_of(axes@, order@, q), #[trigger] final(slot)@[q])
                    ==> (forall|s2: u32| !slot_free(nodes@, axes@, order@, target, final(slot)@.take(q), axis_of(axes@, order@, q), s2))
                    && (forall|s2: u32| s2 < final(slot)@[q] ==> slot_used(axes@, order@, final(slot)@.take(q), axis_of(axes@, order@, q), s2)),
            forall|y: int|
                0 <= y < final(free)@.len() ==> 0 <= last_holder(axes@, order@, final(slot)@, (#[trigger] final(free)@[y]).0, final(free)@[y].1)
                    <= p && (freed_after(
                    nodes@,
                    order@,
                    target,
                    last_holder(axes@, order@, final(slot)@, final(free)@[y].0, final(free)@[y].1),
                ) < p || (freed_after(
                    nodes@,
                    order@,
                    target,
                    last_holder(axes@, order@, final(slot)@, final(free)@[y].0, final(free)@[y].1),
                ) == p && first_index(
                    ins@,
                    order@[last_holder(axes@, order@, final(slot)@, final(free)@[y].0, final(free)@[y].1)],
                ) < 0)),
            forall|y1: int, y2: int|
                0 <= y1 < y2 < final(free)@.len() ==> handed_back_before(
                    nodes@,
                    order@,
                    target,
                    last_holder(axes@, order@, final(slot)@, (#[trigger] final(free)@[y1]).0, final(free)@[y1].1),
                    last_holder(axes@, order@, final(slot)@, (#[trigger] final(free)@[y2]).0, final(free)@[y2].1),
                ),
            forall|q: int, s2: u32|
            0 <= q < p + 1 && slot_used(axes@, order@, final(slot)@.take(q), axis_of(axes@, order@, q), final(slot)@[q])
                && #[trigger] slot_free(nodes@, axes@, order@, target, final(slot)@.take(q), axis_of(axes@, order@, q), s2)
                && s2 != final(slot)@[q] ==> handed_back_before(
                nodes@,
                order@,
                target,
                last_holder(axes@, order@, final(slot)@.take(q), axis_of(axes@, order@, q), s2),
                last_holder(axes@, order@, final(slot)@.take(q), axis_of(axes@, order@, q), final(slot)@[q]),
            ),
{
    let id = order[p];
    let a = axes[id as usize];
    let mut x = free.len();
    while x > 0 && free[x - 1].0 != a
        invariant
            x <= free@.len(),
            forall|y: int| x <= y < free@.len() ==> (#[trigger] free@[y]).0 != a,
        decreases x,
    {
        x -= 1;
    }
    let ghost free_before = free@;
    let ghost count_before = count@;
    let taken: u32;
    if x > 0 {
        let entry = free.remove(x - 1);
        taken = entry.1;
        proof {
            assert(entry == free_before[x - 1]);
            assert forall|y: int| 0 <= y < free@.len() implies #[trigger] free@[y] != entry by {
                if y < x - 1 {
                    assert(free@[y] == free_before[y]);
                } else {
                    assert(free@[y] == free_before[y + 1]);
                }
            }
        }
    } else {
        let c = count[a as usize];
        count.set(a as usize, c + 1);
        taken = c;
    }
    let ghost slot_before = slot@;
    let ghost node_slot_before = node_slot@;
    node_slot.set(id as usize, taken);
    slot.push(taken);
    proof {
        assert(ins@.take(0) =~= Seq::<NodeId>::empty());
        assert forall|k: int| 0 <= k < p implies node_slot@[order@[k] as int] == #[trigger] slot@[k] by {
            assert(order@[k] != order@[p as int]);
            assert(slot@[k] == slot_before[k]);
        }
        assert forall|k: int, y: int|
            0 <= k <= p && 0 <= y < free@.len() && held(nodes@, order@, target, ins@.take(0), p as int, k)
                implies #[trigger] free@[y] != (axis_of(axes@, order@, k), #[trigger] slot@[k]) by {
            if k < p {
                assert(slot@[k] == slot_before[k]);
                if x > 0 {
                    if y < x - 1 {
                        assert(free@[y] == free_before[y]);
                    } else {
                        assert(free@[y] == free_before[y + 1]);
                    }
                }
            }
        }
        assert forall|k1: int, k2: int|
            0 <= k1 < k2 <= p && held(nodes@, order@, target, ins@.take(0), p as int, k1) && held(
                nodes@,
                order@,
                target,
                ins@.take(0),
                p as int,
                k2,
            ) && axis_of(axes@, order@, k1) == axis_of(axes@, order@, k2) implies #[trigger] slot@[k1]
            != #[trigger] slot@[k2] by {
            assert(slot@[k1] == slot_before[k1]);
            if k2 < p {
                assert(slot@[k2] == slot_before[k2]);
            } else if x > 0 {
                assert(free_before[x - 1] != (axis_of(axes@, order@, k1), slot_before[k1]));
            }
        }
        assert forall|k: int, q: int|
            0 <= k < q <= p && axis_of(axes@, order@, k) == axis_of(axes@, order@, q) && #[trigger] slot@[k]
                == #[trigger] slot@[q] implies freed_after(nodes@, order@, target, k) < q by {
            assert(slot@[k] == slot_before[k]);
            if q < p {
                assert(slot@[q] == slot_before[q]);
            } else if freed_after(nodes@, order@, target, k) >= p {
                if x > 0 {
                    assert(free_before[x - 1] != (axis_of(axes@, order@, k), slot_before[k]));
                }
            }
        }
    }
    proof {
        lemma_take_latest(
            nodes@,
            axes@,
            target,
            order@,
            p as int,
            free_before,
            slot_before,
            slot@,
            count_before,
            a,
            taken,
            x as int,
        );
        lemma_take_keeps_hand_back_order(
            nodes@,
            axes@,
            target,
            order@,
            p as int,
            ins@,
            free_before,
            free@,
            slot_before,
            slot@,
            count_before,
            a,
            taken,
            x as int,
        );
        assert forall|b: u8, s2: u32| b < 8 && s2 < count@[b as int] implies #[trigger] slot_used(
            axes@,
            order@,
            slot@,
            b,
            s2,
        ) by {
            if b == a && s2 == taken {
                assert(slot@[p as int] == s2);
                assert(axis_of(axes@, order@, p as int) == b);
            } else {
                assert(s2 < count_before[b as int]);
                assert(slot_used(axes@, order@, slot_before, b, s2));
                let k = choose|k: int|
                    0 <= k < slot_before.len() && axis_of(axes@, order@, k) == b && #[trigger] slot_before[k] == s2;
                assert(slot@[k] == slot_before[k]);
            }
        }
        assert forall|y: int| 0 <= y < free@.len() implies slot_used(
            axes@,
            order@,
            slot@,
            (#[trigger] free@[y]).0,
            free@[y].1,
        ) by {
            let e = free@[y];
            if x > 0 {
                if y < x - 1 {
                    assert(free@[y] == free_before[y]);
                } else {
                    assert(free@[y] == free_before[y + 1]);
                }
            } else {
                assert(free@[y] == free_before[y]);
            }
            assert(slot_used(axes@, order@, slot_before, e.0, e.1));
            let k = choose|k: int|
                0 <= k < slot_before.len() && axis_of(axes@, order@, k) == e.0 && #[trigger] slot_before[k] == e.1;
            assert(slot@[k] == slot_before[k]);
        }
        assert forall|b: u8, s2: u32|
            b < 8 && s2 < count@[b as int] && #[trigger] none_held(
                nodes@,
                axes@,
                order@,
                target,
                ins@.take(0),
                p as int,
                slot@,
                b,
                s2,
            ) implies free@.contains((b, s2)) by {
            if b == a && s2 == taken {
                assert(slot@[p as int] == s2);
                assert(axis_of(axes@, order@, p as int) == b);
                assert(!held(nodes@, order@, target, ins@.take(0), p as int, p as int));
            } else {
                assert(s2 < count_before[b as int]);
                assert forall|k: int|
                    0 <= k < slot_before.len() && axis_of(axes@, order@, k) == b && #[trigger] slot_before[k]
                        == s2 implies freed_after(nodes@, order@, target, k) < slot_before.len() by {
                    assert(slot@[k] == slot_before[k]);
                    assert(!held(nodes@, order@, target, ins@.take(0), p as int, k));
                }
                assert(all_freed(nodes@, axes@, order@, target, slot_before, b, s2));
                assert(free_before.contains((b, s2)));
                let y = choose|y: int| 0 <= y < free_before.len() && free_before[y] == (b, s2);
                if x > 0 {
                    if y < x - 1 {
                        assert(free@[y] == free_before[y]);
                    } else if y > x - 1 {
                        assert(free@[y - 1] == free_before[y]);
                    }
                } else {
                    assert(free@[y] == free_before[y]);
                }
            }
        }
    }
    proof {
        assert forall|q: int|
            0 <= q <= p && !slot_used(axes@, order@, slot@.take(q), axis_of(axes@, order@, q), #[trigger] slot@[q])
            implies (forall|s2: u32|
            !slot_free(nodes@, axes@, order@, target, slot@.take(q), axis_of(axes@, order@, q), s2)) && (forall|
            s2: u32,
        | s2 < slot@[q] ==> slot_used(axes@, order@, slot@.take(q), axis_of(axes@, order@, q), s2)) by {
            if q < p {
                assert(slot@.take(q) =~= slot_before.take(q));
                assert(slot@[q] == slot_before[q]);
            } else {
                assert(slot@.take(q) =~= slot_before);
                assert(axis_of(axes@, order@, q) == a);
                if x > 0 {
                    assert(slot_used(axes@, order@, slot_before, free_before[x - 1].0, free_before[x - 1].1));
                } else {
                    assert forall|s2: u32|
                        !slot_free(nodes@, axes@, order@, target, slot_before, a, s2) by {
                        if s2 < count_before[a as int] {
                            if all_freed(nodes@, axes@, order@, target, slot_before, a, s2) {
                                assert(free_before.contains((a, s2)));
                                let y = choose|y: int| 0 <= y < free_before.len() && free_before[y] == (a, s2);
                                assert(free_before[y].0 != a);
                            }
                        } else if slot_used(axes@, order@, slot_before, a, s2) {
                            let k = choose|k: int|
                                0 <= k < slot_before.len() && axis_of(axes@, order@, k) == a && #[trigger] slot_before[k]
                                    == s2;
                            assert(slot_before[k] < count_before[axis_of(axes@, order@, k) as int]);
                        }
                    }
                    assert forall|s2: u32| s2 < slot@[q] implies slot_used(
                        axes@,
                        order@,
                        slot_before,
                        a,
                        s2,
                    ) by {
                        assert(s2 < count_before[a as int]);
                    }
                }
            }
        }
    }
}

/// The buffer slot of each node of `order` within its strata, and how many
/// slots of each strata a fill needs. A node takes a free slot of its
/// strata, the one handed back last, or the next new one where none is
/// free; it takes it before the buffers of the inputs it reads for the last
/// time are handed back, so no node writes over a buffer still to be read.
#[verifier::rlimit(100)]
#[verifier::spinoff_prover]
pub fn assign_slots(nodes: &[Node], axes: &[u8], target: NodeId, order: &[NodeId]) -> (res: (Vec<u32>, [u32; 8]))
    requires
        plannable(nodes@, axes@, target, order@),
    ensures
        res.0@.len() == order@.len(),
        forall|k: int|
            0 <= k < order@.len() ==> #[trigger] res.0@[k] < res.1@[axis_of(axes@, order@, k) as int],
        slots_safe(nodes@, axes@, target, order@, res.0@),
        forall|q: int|
            0 <= q < order@.len() && slot_used(axes@, order@, res.0@.take(q), axis_of(axes@, order@, q), #[trigger] res.0@[q])
                ==> slot_free(nodes@, axes@, order@, target, res.0@.take(q), axis_of(axes@, order@, q), res.0@[q]),
        forall|q: int|
            0 <= q < order@.len() && !slot_used(axes@, order@, res.0@.take(q), axis_of(axes@, order@, q), #[trigger] res.0@[q])
                ==> (forall|s: u32| !slot_free(nodes@, axes@, order@, target, res.0@.take(q), axis_of(axes@, order@, q), s))
                && (forall|s: u32| s < res.0@[q] ==> slot_used(axes@, order@, res.0@.take(q), axis_of(axes@, order@, q), s)),
        forall|a: u8, s: u32| a < 8 && s < res.1@[a as int] ==> #[trigger] slot_used(axes@, order@, res.0@, a, s),
        forall|q: int, s: u32|
            0 <= q < order@.len() && slot_used(axes@, order@, res.0@.take(q), axis_of(axes@, order@, q), res.0@[q])
                && #[trigger] slot_free(nodes@, axes@, order@, target, res.0@.take(q), axis_of(axes@, order@, q), s)
                && s != res.0@[q] ==> handed_back_before(
                nodes@,
                order@,
                target,
                last_holder(axes@, order@, res.0@.take(q), axis_of(axes@, order@, q), s),
                last_holder(axes@, order@, res.0@.take(q), axis_of(axes@, order@, q), res.0@[q]),
            ),
{
    let n = nodes.len();
    let mut last_use = release_positions(nodes, axes, target, order);
    proof {
        assert forall|k: int| 0 <= k < order@.len() implies freed_after(nodes@, order@, target, k) > k by {
            lemma_release_facts(nodes@, axes@, target, order@, k);
        }
    }
    let mut node_slot: Vec<u32> = Vec::new();
    while node_slot.len() < n
        invariant
            node_slot@.len() <= n,
        decreases n - node_slot@.len(),
    {
        node_slot.push(0);
    }
    let mut count: Vec<u32> = Vec::new();
    while count.len() < 8
        invariant
            count@.len() <= 8,
            forall|a: int| 0 <= a < count@.len() ==> count@[a] == 0,
        decreases 8 - count@.len(),
    {
        count.push(0);
    }
    let mut free: Vec<(u8, u32)> = Vec::new();
    let mut slot: Vec<u32> = Vec::new();
    let mut p: usize = 0;
    while p < order.len()
        invariant
            plannable(nodes@, axes@, target, order@),
            n == nodes@.len(),
            p <= order@.len(),
            forall|k: int| 0 <= k < order@.len() ==> #[trigger] freed_after(nodes@, order@, target, k) > k,
            last_use@.len() == n,
            forall|j: NodeId|
                j < n ==> #[trigger] last_use@[j as int] as int == (if release_at(nodes@, order@, target, j)
                    < p {
                    usize::MAX as int
                } else {
                    release_at(nodes@, order@, target, j)
                }),
            node_slot@.len() == n,
            slot@.len() == p,
            count@.len() == 8,
            forall|k: int| 0 <= k < p ==> node_slot@[order@[k] as int] == #[trigger] slot@[k],
            forall|a: int| 0 <= a < 8 ==> #[trigger] count@[a] <= p,
            forall|k: int| 0 <= k < p ==> #[trigger] slot@[k] < count@[axis_of(axes@, order@, k) as int],
            forall|y: int|
                0 <= y < free@.len() ==> (#[trigger] free@[y]).0 < 8 && free@[y].1 < count@[free@[y].0 as int],
            forall|y1: int, y2: int| 0 <= y1 < y2 < free@.len() ==> free@[y1] != free@[y2],
            forall|k: int, y: int|
                0 <= k < p && 0 <= y < free@.len() && freed_after(nodes@, order@, target, k) >= p
                    ==> #[trigger] free@[y] != (axis_of(axes@, order@, k), #[trigger] slot@[k]),
            forall|k1: int, k2: int|
                0 <= k1 < k2 < p && freed_after(nodes@, order@, target, k1) >= p && freed_after(
                    nodes@,
                    order@,
                    target,
                    k2,
                ) >= p && axis_of(axes@, order@, k1) == axis_of(axes@, order@, k2) ==> #[trigger] slot@[k1]
                    != #[trigger] slot@[k2],
            forall|k: int, q: int|
                0 <= k < q < p && axis_of(axes@, order@, k) == axis_of(axes@, order@, q) && #[trigger] slot@[k]
                    == #[trigger] slot@[q] ==> freed_after(nodes@, order@, target, k) < q,
            forall|b: u8, s: u32| b < 8 && s < count@[b as int] ==> #[trigger] slot_used(axes@, order@, slot@, b, s),
            forall|b: u8, s: u32|
                b < 8 && s < count@[b as int] && #[trigger] all_freed(nodes@, axes@, order@, target, slot@, b, s)
                    ==> free@.contains((b, s)),
            forall|y: int| 0 <= y < free@.len() ==> slot_used(axes@, order@, slot@, (#[trigger] free@[y]).0, free@[y].1),
            forall|q: int|
                0 <= q < p && !slot_used(axes@, order@, slot@.take(q), axis_of(axes@, order@, q), #[trigger] slot@[q])
                    ==> (forall|s: u32| !slot_free(nodes@, axes@, order@, target, slot@.take(q), axis_of(axes@, order@, q), s))
                    && (forall|s: u32| s < slot@[q] ==> slot_used(axes@, order@, slot@.take(q), axis_of(axes@, order@, q), s)),
            forall|y: int|
                0 <= y < free@.len() ==> 0 <= last_holder(axes@, order@, slot@, (#[trigger] free@[y]).0, free@[y].1) < p
                    && freed_after(nodes@, order@, target, last_holder(axes@, order@, slot@, free@[y].0, free@[y].1)) < p,
            forall|y1: int, y2: int|
                0 <= y1 < y2 < free@.len() ==> handed_back_before(
                    nodes@,
                    order@,
                    target,
                    last_holder(axes@, order@, slot@, (#[trigger] free@[y1]).0, free@[y1].1),
                    last_holder(axes@, order@, slot@, (#[trigger] free@[y2]).0, free@[y2].1),
                ),
            forall|q: int, s2: u32|
                0 <= q < p && slot_used(axes@, order@, slot@.take(q), axis_of(axes@, order@, q), slot@[q])
                    && #[trigger] slot_free(nodes@, axes@, order@, target, slot@.take(q), axis_of(axes@, order@, q), s2)
                    && s2 != slot@[q] ==> handed_back_before(
                    nodes@,
                    order@,
                    target,
                    last_holder(axes@, order@, slot@.take(q), axis_of(axes@, order@, q), s2),
                    last_holder(axes@, order@, slot@.take(q), axis_of(axes@, order@, q), slot@[q]),
                ),
        decreases order@.len() - p,
    {
        let id = order[p];
        let ins = nodes[id as usize].local_inputs();
        take_slot(nodes, axes, target, order, p, &ins, &last_use, &mut free, &mut count, &mut node_slot, &mut slot);
        hand_back(nodes, axes, target, order, p, &ins, &mut last_use, &mut free, &node_slot, &slot, &count);
        proof {
            assert forall|k1: int, k2: int|
                0 <= k1 < k2 < p + 1 && freed_after(nodes@, order@, target, k1) >= p + 1 && freed_after(
                    nodes@,
                    order@,
                    target,
                    k2,
                ) >= p + 1 && axis_of(axes@, order@, k1) == axis_of(axes@, order@, k2) implies #[trigger] slot@[k1]
                != #[trigger] slot@[k2] by {
                assert(held(nodes@, order@, target, ins@.take(0), p as int, k1));
                assert(held(nodes@, order@, target, ins@.take(0), p as int, k2));
            }
        }
        p += 1;
    }
    let counts: [u32; 8] = [count[0], count[1], count[2], count[3], count[4], count[5], count[6], count[7]];
    proof {
        assert(counts@ =~= count@);
        assert forall|k: int, q: int|
            0 <= k < q < order@.len() && axis_of(axes@, order@, k) == axis_of(axes@, order@, q) && #[trigger] slot@[k]
                == #[trigger] slot@[q] implies order@[k] != target && forall|r: int|
                q <= r < order@.len() ==> !reads_at(nodes@, order@, order@[k], r) by {
            lemma_release_facts(nodes@, axes@, target, order@, k);
        }
    }
    (slot, counts)
}

} // verus!
