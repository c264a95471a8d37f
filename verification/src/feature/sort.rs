use vstd::prelude::*;

verus! {

// ---------------------------------------------------------------------------
// The successor graph over dense vertex positions.
// ---------------------------------------------------------------------------

/// Every successor list names a vertex that exists.
pub open spec fn adj_wf(adj: Seq<Vec<usize>>) -> bool {
    forall|u: int, j: int|
        0 <= u < adj.len() && 0 <= j < adj[u]@.len() ==> #[trigger] adj[u]@[j] < adj.len()
}

pub open spec fn adj_edge(adj: Seq<Vec<usize>>, u: usize, v: usize) -> bool {
    u < adj.len() && adj[u as int]@.contains(v)
}

/// Each consecutive pair of `walk` is an edge.
pub open spec fn adj_walk(adj: Seq<Vec<usize>>, walk: Seq<usize>) -> bool {
    forall|i: int| 0 <= i < walk.len() - 1 ==> #[trigger] adj_edge(adj, walk[i], walk[i + 1])
}

/// `v` lies on a closed walk of at least one edge.
pub open spec fn adj_on_cycle(adj: Seq<Vec<usize>>, v: usize) -> bool {
    exists|walk: Seq<usize>|
        walk.len() >= 2 && walk[0] == v && walk.last() == v && #[trigger] adj_walk(adj, walk)
}

/// The number of vertices the search has not reached.
spec fn count_unreached(colour: Seq<u8>) -> nat
    decreases colour.len(),
{
    if colour.len() == 0 {
        0
    } else {
        count_unreached(colour.drop_last()) + if colour.last() == 0 { 1nat } else { 0nat }
    }
}

proof fn lemma_unreached_monotone(before: Seq<u8>, after: Seq<u8>)
    requires
        before.len() == after.len(),
        forall|v: int| 0 <= v < before.len() && before[v] != 0 ==> after[v] != 0,
    ensures
        count_unreached(after) <= count_unreached(before),
    decreases before.len(),
{
    if before.len() > 0 {
        lemma_unreached_monotone(before.drop_last(), after.drop_last());
    }
}

proof fn lemma_unreached_strict(before: Seq<u8>, after: Seq<u8>, w: int)
    requires
        before.len() == after.len(),
        forall|v: int| 0 <= v < before.len() && before[v] != 0 ==> after[v] != 0,
        0 <= w < before.len(),
        before[w] == 0,
        after[w] != 0,
    ensures
        count_unreached(after) < count_unreached(before),
    decreases before.len(),
{
    if w == before.len() - 1 {
        lemma_unreached_monotone(before.drop_last(), after.drop_last());
    } else {
        lemma_unreached_strict(before.drop_last(), after.drop_last(), w);
    }
}

/// The search state: `1` marks the vertices on the current path, `2` those
/// finished, and every finished vertex comes after all of its successors.
spec fn search_inv(adj: Seq<Vec<usize>>, colour: Seq<u8>, out: Seq<usize>, path: Seq<usize>) -> bool {
    &&& adj_wf(adj)
    &&& colour.len() == adj.len()
    &&& forall|v: int| 0 <= v < colour.len() ==> #[trigger] colour[v] <= 2
    &&& forall|v: usize| v < colour.len() ==> (colour[v as int] == 1 <==> #[trigger] path.contains(v))
    &&& forall|v: usize| v < colour.len() ==> (colour[v as int] == 2 <==> #[trigger] out.contains(v))
    &&& forall|i: int| 0 <= i < path.len() ==> #[trigger] path[i] < adj.len()
    &&& forall|i: int| 0 <= i < out.len() ==> #[trigger] out[i] < adj.len()
    &&& out.no_duplicates()
    &&& adj_walk(adj, path)
    &&& forall|i: int, x: usize|
        0 <= i < out.len() && #[trigger] adj[out[i] as int]@.contains(x) ==> exists|j: int|
            0 <= j < i && out[j] == x
}

/// The successor lists as plain sequences.
pub open spec fn adj_view(adj: Seq<Vec<usize>>) -> Seq<Seq<usize>> {
    adj.map_values(|list: Vec<usize>| list@)
}

/// The search from `v` as it runs: a finished vertex is passed over, a
/// vertex on the current path closes a cycle, any other is put on the path,
/// its successors are searched in list order, and it is finished and
/// appended to `out`. The result is the colours, the finishing order, and
/// the vertex a cycle was found through. `fuel` bounds the depth; a search
/// given more fuel than there are unreached vertices never runs out.
pub open spec fn dfs_visit(
    adj: Seq<Seq<usize>>,
    colour: Seq<u8>,
    out: Seq<usize>,
    v: usize,
    fuel: nat,
) -> (Seq<u8>, Seq<usize>, Option<usize>)
    decreases fuel, 0int, 0int,
{
    if fuel == 0 || v >= colour.len() {
        (colour, out, None)
    } else if colour[v as int] == 2 {
        (colour, out, None)
    } else if colour[v as int] == 1 {
        (colour, out, Some(v))
    } else {
        dfs_succs(adj, colour.update(v as int, 1), out, v, 0, (fuel - 1) as nat)
    }
}

/// The search of `v`'s successors from the `k`-th on, then `v` finished.
pub open spec fn dfs_succs(
    adj: Seq<Seq<usize>>,
    colour: Seq<u8>,
    out: Seq<usize>,
    v: usize,
    k: int,
    fuel: nat,
) -> (Seq<u8>, Seq<usize>, Option<usize>)
    decreases fuel, 1int, adj[v as int].len() - k,
{
    if k < 0 || v >= adj.len() || k >= adj[v as int].len() {
        (colour.update(v as int, 2), out.push(v), None)
    } else {
        let r = dfs_visit(adj, colour, out, adj[v as int][k], fuel);
        if r.2 is Some {
            r
        } else {
            dfs_succs(adj, r.0, r.1, v, k + 1, fuel)
        }
    }
}

/// The searches from every root not yet finished, in ascending order: the
/// finishing order of them all, or the vertex the first cycle was found
/// through.
pub open spec fn dfs_roots(adj: Seq<Seq<usize>>, colour: Seq<u8>, out: Seq<usize>, root: int) -> Result<
    Seq<usize>,
    usize,
>
    decreases adj.len() - root,
{
    if root < 0 || root >= adj.len() {
        Ok(out)
    } else if colour[root] == 2 {
        dfs_roots(adj, colour, out, root + 1)
    } else {
        let r = dfs_visit(adj, colour, out, root as usize, (adj.len() + 1) as nat);
        match r.2 {
            Some(c) => Err(c),
            None => dfs_roots(adj, r.0, r.1, root + 1),
        }
    }
}

/// The order the searches give: the reverse of the finishing order.
pub open spec fn topo_spec(adj: Seq<Seq<usize>>) -> Result<Seq<usize>, usize> {
    match dfs_roots(adj, Seq::new(adj.len(), |i: int| 0u8), Seq::empty(), 0) {
        Ok(out) => Ok(Seq::new(out.len(), |i: int| out[out.len() - 1 - i])),
        Err(c) => Err(c),
    }
}

proof fn lemma_unreached_bound(colour: Seq<u8>)
    ensures
        count_unreached(colour) <= colour.len(),
    decreases colour.len(),
{
    if colour.len() > 0 {
        lemma_unreached_bound(colour.drop_last());
    }
}

fn depth_first(
    adj: &Vec<Vec<usize>>,
    colour: &mut Vec<u8>,
    out: &mut Vec<usize>,
    current: usize,
    Ghost(path): Ghost<Seq<usize>>,
    Ghost(fuel): Ghost<nat>,
) -> (cycle: Option<usize>)
    requires
        search_inv(adj@, old(colour)@, old(out)@, path),
        current < adj.len(),
        path.len() > 0 ==> adj_edge(adj@, path.last(), current),
        fuel >= count_unreached(old(colour)@) + 1,
    ensures
        cycle == dfs_visit(adj_view(adj@), old(colour)@, old(out)@, current, fuel).2,
        cycle is None ==> final(colour)@ == dfs_visit(adj_view(adj@), old(colour)@, old(out)@, current, fuel).0
            && final(out)@ == dfs_visit(adj_view(adj@), old(colour)@, old(out)@, current, fuel).1,
        cycle is None ==> {
            &&& search_inv(adj@, final(colour)@, final(out)@, path)
            &&& final(colour)@[current as int] == 2
            &&& old(out)@.is_prefix_of(final(out)@)
            &&& forall|v: int|
                0 <= v < old(colour)@.len() && old(colour)@[v] != 0 ==> #[trigger] final(colour)@[v]
                    != 0
            &&& forall|v: int|
                0 <= v < old(colour)@.len() && old(colour)@[v] == 2 ==> #[trigger] final(colour)@[v]
                    == 2
        },
        cycle matches Some(c) ==> c < adj.len() && adj_on_cycle(adj@, c),
    decreases count_unreached(old(colour)@),
{
    if colour[current] == 2 {
        return None;
    }
    if colour[current] == 1 {
        proof {
            assert(path.contains(current));
            let m = path.index_of(current);
            let walk = path.subrange(m, path.len() as int).push(current);
            assert(walk[0] == current);
            assert forall|i: int| 0 <= i < walk.len() - 1 implies #[trigger] adj_edge(
                adj@,
                walk[i],
                walk[i + 1],
            ) by {
                if i < walk.len() - 2 {
                    assert(walk[i] == path[m + i]);
                    assert(walk[i + 1] == path[m + i + 1]);
                } else {
                    assert(walk[i] == path.last());
                }
            }
            assert(adj_walk(adj@, walk));
        }
        return Some(current);
    }
    let ghost entry_colour = colour@;
    colour.set(current, 1);
    let ghost inner = path.push(current);
    proof {
        lemma_unreached_strict(entry_colour, colour@, current as int);
        assert forall|v: usize| v < colour@.len() implies (colour@[v as int] == 1
            <==> #[trigger] inner.contains(v)) by {
            if v == current {
                assert(inner[inner.len() - 1] == v);
            } else {
                if inner.contains(v) {
                    let k = inner.index_of(v);
                    assert(path[k] == v);
                }
                if path.contains(v) {
                    let k = path.index_of(v);
                    assert(inner[k] == v);
                }
            }
        }
        assert forall|i: int| 0 <= i < inner.len() - 1 implies #[trigger] adj_edge(
            adj@,
            inner[i],
            inner[i + 1],
        ) by {
            if i < path.len() - 1 {
                assert(adj_edge(adj@, path[i], path[i + 1]));
            }
        }
    }
    let ghost started_colour = colour@;
    let ghost started_out = out@;
    let ghost total = dfs_visit(adj_view(adj@), entry_colour, started_out, current, fuel);
    proof {
        assert(started_colour == entry_colour.update(current as int, 1));
        assert(adj_view(adj@)[current as int] == adj@[current as int]@);
    }
    let succ = &adj[current];
    let mut k: usize = 0;
    while k < succ.len()
        invariant
            total == dfs_succs(adj_view(adj@), colour@, out@, current, k as int, (fuel - 1) as nat),
            total == dfs_visit(adj_view(adj@), old(colour)@, old(out)@, current, fuel),
            fuel >= count_unreached(entry_colour) + 1,
            adj_view(adj@)[current as int] == adj@[current as int]@,
            adj_view(adj@).len() == adj@.len(),
            search_inv(adj@, colour@, out@, inner),
            succ == &adj@[current as int],
            inner == path.push(current),
            current < adj.len(),
            k <= succ.len(),
            colour@[current as int] == 1,
            started_out.is_prefix_of(out@),
            count_unreached(started_colour) < count_unreached(entry_colour),
            entry_colour == old(colour)@,
            started_colour.len() == colour@.len(),
            forall|v: int|
                0 <= v < started_colour.len() && started_colour[v] != 0 ==> #[trigger] colour@[v]
                    != 0,
            forall|v: int|
                0 <= v < started_colour.len() && started_colour[v] == 2 ==> #[trigger] colour@[v]
                    == 2,
            forall|j: int| 0 <= j < k ==> #[trigger] colour@[succ@[j] as int] == 2,
        decreases succ.len() - k,
    {
        let next = succ[k];
        proof {
            lemma_unreached_monotone(started_colour, colour@);
            assert(adj_edge(adj@, inner.last(), next));
        }
        let ghost colour_before = colour@;
        let ghost out_before = out@;
        proof {
            assert(next == adj_view(adj@)[current as int][k as int]);
        }
        let found = depth_first(adj, colour, out, next, Ghost(inner), Ghost((fuel - 1) as nat));
        proof {
            let r = dfs_visit(adj_view(adj@), colour_before, out_before, next, (fuel - 1) as nat);
            assert(total == if r.2 is Some {
                r
            } else {
                dfs_succs(adj_view(adj@), r.0, r.1, current, k + 1, (fuel - 1) as nat)
            });
        }
        if found.is_some() {
            return found;
        }
        proof {
            assert(inner[inner.len() - 1] == current);
            assert(inner.contains(current));
        }
        k += 1;
    }
    let ghost before_finish = colour@;
    colour.set(current, 2);
    proof {
        assert forall|x: usize| #[trigger] adj@[current as int]@.contains(x) implies out@.contains(
            x,
        ) by {
            let j = adj@[current as int]@.index_of(x);
            assert(colour@[succ@[j] as int] == 2);
        }
    }
    let ghost out_before = out@;
    out.push(current);
    proof {
        assert(inner.drop_last() == path);
        assert forall|v: usize| v < colour@.len() implies (colour@[v as int] == 1
            <==> #[trigger] path.contains(v)) by {
            if path.contains(v) {
                let k = path.index_of(v);
                assert(inner[k] == v);
            }
            if inner.contains(v) && v != current {
                let k = inner.index_of(v);
                assert(path[k] == v);
            }
            if v == current && path.contains(v) {
                let k = path.index_of(v);
                assert(inner[k] == v);
                assert(inner[inner.len() - 1] == v);
            }
        }
        assert forall|v: usize| v < colour@.len() implies (colour@[v as int] == 2
            <==> #[trigger] out@.contains(v)) by {
            if v == current {
                assert(out@[out@.len() - 1] == v);
            } else {
                assert(colour@[v as int] == before_finish[v as int]);
                assert(before_finish[v as int] == 2 <==> out_before.contains(v));
            }
            if out@.contains(v) && v != current {
                let k = out@.index_of(v);
                assert(out_before[k] == v);
            }
            if out_before.contains(v) {
                let k = out_before.index_of(v);
                assert(out@[k] == v);
            }
        }
        assert forall|i: int, x: usize|
            0 <= i < out@.len() && #[trigger] adj@[out@[i] as int]@.contains(x) implies exists|
            j: int,
        | 0 <= j < i && out@[j] == x by {
            if i < out@.len() - 1 {
                assert(out_before[i] == out@[i]);
                let j = choose|j: int| 0 <= j < i && out_before[j] == x;
                assert(out@[j] == x);
            } else {
                assert(out_before.contains(x));
                let j = out_before.index_of(x);
                assert(out@[j] == x);
            }
        }
        assert(adj_walk(adj@, path)) by {
            assert forall|i: int| 0 <= i < path.len() - 1 implies #[trigger] adj_edge(
                adj@,
                path[i],
                path[i + 1],
            ) by {
                assert(adj_edge(adj@, inner[i], inner[i + 1]));
            }
        }
        assert(out_before.is_prefix_of(out@));
        assert(old(out)@.is_prefix_of(out@)) by {
            assert forall|i: int| 0 <= i < old(out)@.len() implies old(out)@[i] == out@[i] by {
                assert(started_out[i] == out_before[i]);
            }
        }
        assert(!out_before.contains(current));
        assert(out@.no_duplicates()) by {
            assert forall|i: int, j: int| 0 <= i < out@.len() && 0 <= j < out@.len() && i != j implies out@[i] != out@[j] by {
                if i < out_before.len() && j < out_before.len() {
                    assert(out_before[i] != out_before[j]);
                } else if i < out_before.len() {
                    assert(out_before.contains(out_before[i]));
                } else if j < out_before.len() {
                    assert(out_before.contains(out_before[j]));
                }
            }
        }
        assert forall|v: int| 0 <= v < colour@.len() implies #[trigger] colour@[v] <= 2 by {
            if v != current {
                assert(colour@[v] == before_finish[v]);
            }
        }
        assert forall|i: int| 0 <= i < out@.len() implies #[trigger] out@[i] < adj.len() by {
            if i < out_before.len() {
                assert(out_before[i] < adj.len());
            }
        }
        assert forall|i: int| 0 <= i < path.len() implies #[trigger] path[i] < adj.len() by {
            assert(inner[i] < adj.len());
        }
        assert(search_inv(adj@, colour@, out@, path));
        assert(colour@[current as int] == 2);
        assert forall|v: int|
            0 <= v < entry_colour.len() && entry_colour[v] != 0 implies #[trigger] colour@[v]
            != 0 by {
            assert(started_colour[v] != 0);
        }
        assert forall|v: int|
            0 <= v < entry_colour.len() && entry_colour[v] == 2 implies #[trigger] colour@[v]
            == 2 by {
            assert(started_colour[v] == 2);
        }
    }
    None
}

/// A topological order of the graph, or a vertex on a cycle: the roots are
/// taken in ascending order, each search follows the successor lists in
/// order, and the order is the reverse of the finishing order.
fn topological_order(adj: &Vec<Vec<usize>>) -> (res: Result<Vec<usize>, usize>)
    requires
        adj_wf(adj@),
    ensures
        res matches Ok(order) ==> {
            &&& order@.no_duplicates()
            &&& forall|i: int| 0 <= i < order.len() ==> #[trigger] order@[i] < adj.len()
            &&& forall|v: usize| v < adj.len() ==> #[trigger] order@.contains(v)
            &&& forall|i: int, j: int|
                0 <= i < order.len() && 0 <= j < order.len() && #[trigger] adj_edge(
                    adj@,
                    order@[i],
                    order@[j],
                ) ==> i < j
        },
        res matches Err(c) ==> c < adj.len() && adj_on_cycle(adj@, c),
        res matches Ok(order) ==> topo_spec(adj_view(adj@)) == Ok::<Seq<usize>, usize>(order@),
        res matches Err(c) ==> topo_spec(adj_view(adj@)) == Err::<Seq<usize>, usize>(c),
{
    let n = adj.len();
    let mut colour: Vec<u8> = Vec::new();
    let mut i: usize = 0;
    while i < n
        invariant
            i <= n,
            colour@.len() == i,
            forall|v: int| 0 <= v < i ==> #[trigger] colour@[v] == 0,
        decreases n - i,
    {
        colour.push(0);
        i += 1;
    }
    let mut out: Vec<usize> = Vec::new();
    let ghost empty = Seq::<usize>::empty();
    proof {
        assert forall|v: usize| v < colour@.len() implies (colour@[v as int] == 1
            <==> #[trigger] empty.contains(v)) by {}
        assert forall|v: usize| v < colour@.len() implies (colour@[v as int] == 2
            <==> #[trigger] out@.contains(v)) by {}
    }
    let ghost av = adj_view(adj@);
    let ghost whole = dfs_roots(av, colour@, out@, 0);
    proof {
        assert(colour@ =~= Seq::new(av.len(), |i: int| 0u8));
        assert(out@ =~= Seq::<usize>::empty());
    }
    let mut root: usize = 0;
    while root < n
        invariant
            av == adj_view(adj@),
            av.len() == n,
            whole == dfs_roots(av, Seq::new(av.len(), |i: int| 0u8), Seq::empty(), 0),
            whole == dfs_roots(av, colour@, out@, root as int),
            n == adj.len(),
            root <= n,
            search_inv(adj@, colour@, out@, empty),
            empty == Seq::<usize>::empty(),
            forall|v: int| 0 <= v < root ==> #[trigger] colour@[v] == 2,
        decreases n - root,
    {
        if colour[root] != 2 {
            proof {
                lemma_unreached_bound(colour@);
            }
            let found = depth_first(
                adj,
                &mut colour,
                &mut out,
                root,
                Ghost(empty),
                Ghost((n + 1) as nat),
            );
            if let Some(cycle) = found {
                return Err(cycle);
            }
        }
        root += 1;
    }
    assert(whole == Ok::<Seq<usize>, usize>(out@));
    let mut order: Vec<usize> = Vec::new();
    let mut k: usize = out.len();
    while k > 0
        invariant
            k <= out.len(),
            order@.len() == out.len() - k,
            forall|i: int| 0 <= i < order.len() ==> #[trigger] order@[i] == out@[out.len() - 1 - i],
        decreases k,
    {
        k -= 1;
        order.push(out[k]);
    }
    proof {
        let m = out@.len();
        assert forall|i: int, j: int|
            0 <= i < order.len() && 0 <= j < order.len() && i != j implies order@[i]
            != order@[j] by {
            assert(out@[m - 1 - i] != out@[m - 1 - j]);
        }
        assert forall|i: int| 0 <= i < order.len() implies #[trigger] order@[i] < adj.len() by {
            assert(out@[m - 1 - i] < adj.len());
        }
        assert forall|v: usize| v < adj.len() implies #[trigger] order@.contains(v) by {
            assert(colour@[v as int] == 2);
            assert(out@.contains(v));
            let p = out@.index_of(v);
            assert(order@[m - 1 - p] == v);
        }
        assert(order@ =~= Seq::new(m, |i: int| out@[m - 1 - i]));
        assert forall|i: int, j: int|
            0 <= i < order.len() && 0 <= j < order.len() && #[trigger] adj_edge(
                adj@,
                order@[i],
                order@[j],
            ) implies i < j by {
            let u = order@[i];
            let w = order@[j];
            assert(u == out@[m - 1 - i]);
            assert(adj@[out@[m - 1 - i] as int]@.contains(w));
            let q = choose|q: int| 0 <= q < m - 1 - i && out@[q] == w;
            assert(out@[m - 1 - j] == w);
            if q != m - 1 - j {
                assert(out@[q] == out@[m - 1 - j]);
            }
        }
    }
    Ok(order)
}

// ---------------------------------------------------------------------------
// The graph the biomes state, over `(step, token)` pairs.
// ---------------------------------------------------------------------------

/// A biome's entries in order, each with the step it sits at.
pub open spec fn step_entries(steps: Seq<Vec<usize>>) -> Seq<(int, usize)>
    decreases steps.len(),
{
    if steps.len() == 0 {
        Seq::empty()
    } else {
        step_entries(steps.drop_last()) + steps.last()@.map_values(
            |token: usize| ((steps.len() - 1) as int, token),
        )
    }
}

pub open spec fn biome_entries(biomes: Seq<Vec<Vec<usize>>>, b: int) -> Seq<(int, usize)> {
    step_entries(biomes[b]@)
}

/// `v` directly follows `u` in some biome.
pub open spec fn feature_edge(biomes: Seq<Vec<Vec<usize>>>, u: (int, usize), v: (int, usize)) -> bool {
    exists|b: int, i: int|
        0 <= b < biomes.len() && 0 <= i && i + 1 < biome_entries(biomes, b).len()
            && #[trigger] biome_entries(biomes, b)[i] == u && biome_entries(biomes, b)[i + 1] == v
}

pub open spec fn feature_walk(biomes: Seq<Vec<Vec<usize>>>, walk: Seq<(int, usize)>) -> bool {
    forall|i: int| 0 <= i < walk.len() - 1 ==> #[trigger] feature_edge(biomes, walk[i], walk[i + 1])
}

/// The vertex `v` lies on a closed walk of at least one edge.
pub open spec fn on_feature_cycle(biomes: Seq<Vec<Vec<usize>>>, v: (int, usize)) -> bool {
    exists|walk: Seq<(int, usize)>|
        walk.len() >= 2 && walk[0] == v && walk.last() == v && #[trigger] feature_walk(biomes, walk)
}

pub open spec fn has_feature_cycle(biomes: Seq<Vec<Vec<usize>>>) -> bool {
    exists|v: (int, usize)| #[trigger] on_feature_cycle(biomes, v)
}

/// Some biome carries `token` at `step`.
pub open spec fn carries(biomes: Seq<Vec<Vec<usize>>>, step: int, token: usize) -> bool {
    exists|b: int, i: int|
        0 <= b < biomes.len() && 0 <= i < biome_entries(biomes, b).len()
            && #[trigger] biome_entries(biomes, b)[i] == (step, token)
}

/// The most steps any biome has.
pub open spec fn step_count(biomes: Seq<Vec<Vec<usize>>>) -> nat
    decreases biomes.len(),
{
    if biomes.len() == 0 {
        0
    } else {
        let rest = step_count(biomes.drop_last());
        if biomes.last()@.len() > rest {
            biomes.last()@.len()
        } else {
            rest
        }
    }
}

/// Whenever two entries of `entries` share a step, the first comes first in
/// that step's list.
pub open spec fn keeps_order(ordered: Seq<Vec<usize>>, entries: Seq<(int, usize)>) -> bool {
    forall|i: int, j: int, p: int, q: int|
        0 <= i < j < entries.len() && entries[i].0 == entries[j].0 && 0 <= entries[i].0
            < ordered.len() && 0 <= p < ordered[entries[i].0]@.len() && 0 <= q
            < ordered[entries[i].0]@.len() && #[trigger] ordered[entries[i].0]@[p]
            == entries[i].1 && #[trigger] ordered[entries[j].0]@[q] == entries[j].1 ==> p < q
}

proof fn lemma_step_entries_take(steps: Seq<Vec<usize>>, s: int)
    requires
        0 <= s < steps.len(),
    ensures
        step_entries(steps.take(s + 1)) == step_entries(steps.take(s)) + steps[s]@.map_values(
            |token: usize| (s, token),
        ),
{
    let next = steps.take(s + 1);
    assert(next.drop_last() =~= steps.take(s));
    assert(next.last() == steps[s]);
}

/// Entries carry steps in `0..steps.len()`, never decreasing along the list.
proof fn lemma_step_entries_steps(steps: Seq<Vec<usize>>)
    ensures
        forall|i: int|
            0 <= i < step_entries(steps).len() ==> 0 <= #[trigger] step_entries(steps)[i].0
                < steps.len(),
        forall|i: int, j: int|
            0 <= i <= j < step_entries(steps).len() ==> #[trigger] step_entries(steps)[i].0
                <= #[trigger] step_entries(steps)[j].0,
    decreases steps.len(),
{
    if steps.len() > 0 {
        lemma_step_entries_steps(steps.drop_last());
        let prefix = step_entries(steps.drop_last());
        let all = step_entries(steps);
        assert forall|i: int| 0 <= i < all.len() implies 0 <= #[trigger] all[i].0
            < steps.len() by {
            if i < prefix.len() {
                assert(all[i] == prefix[i]);
            }
        }
        assert forall|i: int, j: int|
            0 <= i <= j < all.len() implies #[trigger] all[i].0 <= #[trigger] all[j].0 by {
            if j < prefix.len() {
                assert(all[i] == prefix[i]);
                assert(all[j] == prefix[j]);
            } else if i < prefix.len() {
                assert(all[i] == prefix[i]);
            }
        }
    }
}

/// In a list without repeats, a token's position survives appending.
proof fn lemma_index_of_stable(short: Seq<usize>, long: Seq<usize>, token: usize)
    requires
        short.is_prefix_of(long),
        long.no_duplicates(),
        short.contains(token),
    ensures
        long.index_of(token) == short.index_of(token),
        long.contains(token),
{
    let i = short.index_of(token);
    assert(long[i] == token);
    let j = long.index_of(token);
    assert(long[j] == token);
}

/// The dense vertex of a `(step, token)` pair.
pub open spec fn key_of(token_of: Seq<usize>, entry: (int, usize)) -> (usize, usize) {
    (entry.0 as usize, token_of.index_of(entry.1) as usize)
}

/// `t` with every token of `tokens` not yet in it appended, in order of
/// first encounter.
pub open spec fn seen(t: Seq<usize>, tokens: Seq<usize>) -> Seq<usize>
    decreases tokens.len(),
{
    if tokens.len() == 0 {
        t
    } else {
        let before = seen(t, tokens.drop_last());
        if before.contains(tokens.last()) {
            before
        } else {
            before.push(tokens.last())
        }
    }
}

/// The tokens of biome `b`, step by step.
pub open spec fn biome_tokens(biomes: Seq<Vec<Vec<usize>>>, b: int) -> Seq<usize> {
    biome_entries(biomes, b).map_values(|entry: (int, usize)| entry.1)
}

/// The tokens of the first `n` biomes, biome by biome.
pub open spec fn all_tokens(biomes: Seq<Vec<Vec<usize>>>, n: int) -> Seq<usize>
    decreases n,
{
    if n <= 0 {
        Seq::empty()
    } else {
        all_tokens(biomes, n - 1) + biome_tokens(biomes, n - 1)
    }
}

/// Every distinct token the biomes carry, in order of first encounter: the
/// numbering a feature's vertex takes.
pub open spec fn first_seen(biomes: Seq<Vec<Vec<usize>>>) -> Seq<usize> {
    seen(Seq::empty(), all_tokens(biomes, biomes.len() as int))
}

proof fn lemma_seen_push(t: Seq<usize>, tokens: Seq<usize>, x: usize)
    ensures
        seen(t, tokens.push(x)) == if seen(t, tokens).contains(x) {
            seen(t, tokens)
        } else {
            seen(t, tokens).push(x)
        },
{
    assert(tokens.push(x).drop_last() =~= tokens);
}

proof fn lemma_seen_concat(t: Seq<usize>, a: Seq<usize>, c: Seq<usize>)
    ensures
        seen(t, a + c) == seen(seen(t, a), c),
    decreases c.len(),
{
    if c.len() == 0 {
        assert(a + c =~= a);
    } else {
        lemma_seen_concat(t, a, c.drop_last());
        assert((a + c).drop_last() =~= a + c.drop_last());
        assert((a + c).last() == c.last());
    }
}

fn find_token(token_of: &Vec<usize>, token: usize) -> (found: Option<usize>)
    ensures
        found matches Some(i) ==> i < token_of.len() && token_of@[i as int] == token,
        found is None ==> !token_of@.contains(token),
{
    let mut i: usize = 0;
    while i < token_of.len()
        invariant
            i <= token_of.len(),
            forall|k: int| 0 <= k < i ==> token_of@[k] != token,
        decreases token_of.len() - i,
    {
        if token_of[i] == token {
            return Some(i);
        }
        i += 1;
    }
    None
}

/// Numbers each distinct token of one biome in order of first encounter,
/// continuing the numbering `token_of` holds, and lists the biome's entries as
/// `(step, number)`.
fn index_biome(steps: &Vec<Vec<usize>>, token_of: &mut Vec<usize>) -> (list: Vec<(usize, usize)>)
    requires
        old(token_of)@.no_duplicates(),
    ensures
        final(token_of)@.no_duplicates(),
        old(token_of)@.is_prefix_of(final(token_of)@),
        final(token_of)@ == seen(
            old(token_of)@,
            step_entries(steps@).map_values(|entry: (int, usize)| entry.1),
        ),
        list@.len() == step_entries(steps@).len(),
        forall|i: int|
            0 <= i < list@.len() ==> final(token_of)@.contains(#[trigger] step_entries(steps@)[i].1)
                && list@[i] == key_of(final(token_of)@, step_entries(steps@)[i]),
{
    let mut list: Vec<(usize, usize)> = Vec::new();
    let ghost mut done: Seq<usize> = Seq::empty();
    let mut s: usize = 0;
    while s < steps.len()
        invariant
            s <= steps.len(),
            token_of@ == seen(old(token_of)@, done),
            done.len() == list@.len(),
            forall|i: int| 0 <= i < done.len() ==> done[i] == #[trigger] step_entries(steps@.take(s as int))[i].1,
            token_of@.no_duplicates(),
            old(token_of)@.is_prefix_of(token_of@),
            list@.len() == step_entries(steps@.take(s as int)).len(),
            forall|i: int|
                0 <= i < list@.len() ==> token_of@.contains(
                    #[trigger] step_entries(steps@.take(s as int))[i].1,
                ) && list@[i] == key_of(token_of@, step_entries(steps@.take(s as int))[i]),
        decreases steps.len() - s,
    {
        let tokens = &steps[s];
        let ghost before = step_entries(steps@.take(s as int));
        let ghost after = step_entries(steps@.take(s + 1));
        proof {
            lemma_step_entries_take(steps@, s as int);
        }
        let mut e: usize = 0;
        while e < tokens.len()
            invariant
                s < steps.len(),
                tokens == &steps@[s as int],
                e <= tokens.len(),
                token_of@ == seen(old(token_of)@, done),
                done.len() == list@.len(),
                forall|i: int| 0 <= i < done.len() ==> done[i] == #[trigger] after[i].1,
                token_of@.no_duplicates(),
                old(token_of)@.is_prefix_of(token_of@),
                after == before + tokens@.map_values(|token: usize| (s as int, token)),
                list@.len() == before.len() + e,
                forall|i: int|
                    0 <= i < list@.len() ==> token_of@.contains(#[trigger] after[i].1) && list@[i]
                        == key_of(token_of@, after[i]),
            decreases tokens.len() - e,
        {
            let token = tokens[e];
            let ghost prior = token_of@;
            let index = match find_token(token_of, token) {
                Some(i) => i,
                None => {
                    token_of.push(token);
                    proof {
                        assert forall|a: int, c: int|
                            0 <= a < token_of@.len() && 0 <= c < token_of@.len() && a != c implies token_of@[a]
                            != token_of@[c] by {
                            if a < prior.len() && c < prior.len() {
                            } else if a < prior.len() {
                                assert(prior.contains(prior[a]));
                            } else if c < prior.len() {
                                assert(prior.contains(prior[c]));
                            }
                        }
                    }
                    token_of.len() - 1
                },
            };
            proof {
                lemma_seen_push(old(token_of)@, done, token);
                done = done.push(token);
                assert(after[list@.len() as int] == (s as int, token));
            }
            let ghost list_before = list@;
            list.push((s, index));
            proof {
                assert(prior.is_prefix_of(token_of@));
                assert(old(token_of)@.is_prefix_of(token_of@)) by {
                    assert forall|k: int| 0 <= k < old(token_of)@.len() implies old(token_of)@[k]
                        == token_of@[k] by {
                        assert(prior[k] == old(token_of)@[k]);
                    }
                }
                assert(after[before.len() + e] == (s as int, token));
                assert(token_of@[index as int] == token);
                assert(token_of@.index_of(token) == index) by {
                    let j = token_of@.index_of(token);
                    assert(token_of@.contains(token));
                }
                assert forall|i: int| 0 <= i < list@.len() implies token_of@.contains(
                    #[trigger] after[i].1,
                ) && list@[i] == key_of(token_of@, after[i]) by {
                    if i < list_before.len() {
                        lemma_index_of_stable(prior, token_of@, after[i].1);
                    }
                }
            }
            e += 1;
        }
        proof {
            assert(tokens@.map_values(|token: usize| (s as int, token)).len() == tokens@.len());
        }
        s += 1;
    }
    proof {
        assert(steps@.take(steps@.len() as int) =~= steps@);
        assert(done =~= step_entries(steps@).map_values(|entry: (int, usize)| entry.1));
    }
    list
}

// ---------------------------------------------------------------------------
// Sorted vertex and successor lists.
// ---------------------------------------------------------------------------

/// `(step, index)` compared step first.
pub open spec fn key_lt(a: (usize, usize), b: (usize, usize)) -> bool {
    a.0 < b.0 || (a.0 == b.0 && a.1 < b.1)
}

pub open spec fn keys_sorted(keys: Seq<(usize, usize)>) -> bool {
    forall|i: int, j: int| 0 <= i < j < keys.len() ==> key_lt(#[trigger] keys[i], #[trigger] keys[j])
}

fn exec_key_lt(a: (usize, usize), b: (usize, usize)) -> (r: bool)
    ensures
        r == key_lt(a, b),
{
    a.0 < b.0 || (a.0 == b.0 && a.1 < b.1)
}

/// Adds `key` to the sorted list unless it is there; reports where it now sits
/// and whether it was added.
fn insert_key(keys: &mut Vec<(usize, usize)>, key: (usize, usize)) -> (res: (usize, bool))
    requires
        keys_sorted(old(keys)@),
    ensures
        keys_sorted(final(keys)@),
        res.0 < final(keys)@.len(),
        final(keys)@[res.0 as int] == key,
        res.1 ==> final(keys)@ == old(keys)@.insert(res.0 as int, key) && res.0 <= old(keys)@.len(),
        !res.1 ==> final(keys)@ == old(keys)@,
{
    let mut p: usize = 0;
    while p < keys.len() && !exec_key_lt(key, keys[p])
        invariant
            p <= keys.len(),
            keys_sorted(keys@),
            keys@ == old(keys)@,
            forall|k: int| 0 <= k < p ==> key_lt(#[trigger] keys@[k], key),
        decreases keys.len() - p,
    {
        if keys[p].0 == key.0 && keys[p].1 == key.1 {
            return (p, false);
        }
        p += 1;
    }
    keys.insert(p, key);
    proof {
        let old_keys = old(keys)@;
        assert forall|i: int, j: int| 0 <= i < j < keys@.len() implies key_lt(
            #[trigger] keys@[i],
            #[trigger] keys@[j],
        ) by {
            if j < p {
                assert(keys@[i] == old_keys[i] && keys@[j] == old_keys[j]);
            } else if j == p {
                assert(keys@[i] == old_keys[i]);
            } else if i < p {
                assert(keys@[i] == old_keys[i] && keys@[j] == old_keys[j - 1]);
                assert(key_lt(old_keys[i], key));
                if p < old_keys.len() {
                    assert(key_lt(key, old_keys[p as int]));
                    if j - 1 > p {
                        assert(key_lt(old_keys[p as int], old_keys[j - 1]));
                    }
                }
            } else if i == p {
                assert(keys@[j] == old_keys[j - 1]);
                assert(key_lt(key, old_keys[p as int]));
                if j - 1 > p {
                    assert(key_lt(old_keys[p as int], old_keys[j - 1]));
                }
            } else {
                assert(keys@[i] == old_keys[i - 1] && keys@[j] == old_keys[j - 1]);
            }
        }
    }
    (p, true)
}

/// Where `key` sits in the list.
fn position(keys: &Vec<(usize, usize)>, key: (usize, usize)) -> (p: usize)
    requires
        keys@.contains(key),
    ensures
        p < keys.len(),
        keys@[p as int] == key,
{
    let mut p: usize = 0;
    while p < keys.len()
        invariant
            p <= keys.len(),
            keys@.contains(key),
            forall|k: int| 0 <= k < p ==> keys@[k] != key,
        decreases keys.len() - p,
    {
        if keys[p].0 == key.0 && keys[p].1 == key.1 {
            return p;
        }
        p += 1;
    }
    proof {
        let k = keys@.index_of(key);
        assert(keys@[k] == key);
    }
    0
}

/// Adds `value` to the ascending list unless it is there.
fn insert_ascending(list: &mut Vec<usize>, value: usize)
    requires
        forall|i: int, j: int| 0 <= i < j < old(list)@.len() ==> old(list)@[i] < old(list)@[j],
    ensures
        forall|i: int, j: int| 0 <= i < j < final(list)@.len() ==> final(list)@[i] < final(list)@[j],
        forall|x: usize| #[trigger] final(list)@.contains(x) <==> old(list)@.contains(x) || x == value,
{
    let mut p: usize = 0;
    while p < list.len() && list[p] < value
        invariant
            p <= list.len(),
            list@ == old(list)@,
            forall|i: int, j: int| 0 <= i < j < list@.len() ==> list@[i] < list@[j],
            forall|k: int| 0 <= k < p ==> #[trigger] list@[k] < value,
        decreases list.len() - p,
    {
        p += 1;
    }
    if p < list.len() && list[p] == value {
        return;
    }
    let ghost before = list@;
    list.insert(p, value);
    proof {
        assert forall|i: int, j: int| 0 <= i < j < list@.len() implies list@[i] < list@[j] by {
            if j < p {
            } else if j == p {
                assert(list@[i] == before[i]);
            } else if i < p {
                assert(list@[i] == before[i] && list@[j] == before[j - 1]);
                if p < before.len() {
                    assert(value < before[p as int]);
                }
            } else if i == p {
                assert(list@[j] == before[j - 1]);
                if j - 1 > p {
                    assert(before[p as int] < before[j - 1]);
                }
            } else {
                assert(list@[i] == before[i - 1] && list@[j] == before[j - 1]);
            }
        }
        assert forall|x: usize| #[trigger] list@.contains(x) <==> before.contains(x) || x == value by {
            if list@.contains(x) {
                let k = list@.index_of(x);
                if k < p {
                    assert(before[k] == x);
                } else if k > p {
                    assert(before[k - 1] == x);
                }
            }
            if before.contains(x) {
                let k = before.index_of(x);
                if k < p {
                    assert(list@[k] == x);
                } else {
                    assert(list@[k + 1] == x);
                }
            }
            if x == value {
                assert(list@[p as int] == x);
            }
        }
    }
}

// ---------------------------------------------------------------------------
// From the biomes to the vertex and edge lists.
// ---------------------------------------------------------------------------

/// The vertices, edges and token numbering of the graph over the biomes
/// below `upto`.
#[verifier::opaque]
spec fn collected(
    biomes: Seq<Vec<Vec<usize>>>,
    upto: int,
    token_of: Seq<usize>,
    keys: Seq<(usize, usize)>,
    edges: Seq<((usize, usize), (usize, usize))>,
) -> bool {
    &&& token_of.no_duplicates()
    &&& token_of.len() <= usize::MAX
    &&& keys.len() <= usize::MAX
    &&& keys_sorted(keys)
    &&& forall|x: (usize, usize)|
        #[trigger] keys.contains(x) ==> exists|b: int, i: int|
            0 <= b < upto && 0 <= i < biome_entries(biomes, b).len() && x == key_of(
                token_of,
                #[trigger] biome_entries(biomes, b)[i],
            )
    &&& forall|e: ((usize, usize), (usize, usize))|
        #[trigger] edges.contains(e) ==> exists|b: int, i: int|
            0 <= b < upto && 0 <= i && i + 1 < biome_entries(biomes, b).len() && e == (
                key_of(token_of, #[trigger] biome_entries(biomes, b)[i]),
                key_of(token_of, biome_entries(biomes, b)[i + 1]),
            )
    &&& forall|b: int, i: int|
        0 <= b < upto && 0 <= i < biome_entries(biomes, b).len() ==> token_of.contains(
            #[trigger] biome_entries(biomes, b)[i].1,
        ) && keys.contains(key_of(token_of, biome_entries(biomes, b)[i]))
    &&& forall|b: int, i: int|
        0 <= b < upto && 0 <= i && i + 1 < biome_entries(biomes, b).len() ==> edges.contains(
            (
                key_of(token_of, #[trigger] biome_entries(biomes, b)[i]),
                key_of(token_of, biome_entries(biomes, b)[i + 1]),
            ),
        )
}

proof fn lemma_step_count_take(biomes: Seq<Vec<Vec<usize>>>, b: int)
    requires
        0 <= b < biomes.len(),
    ensures
        step_count(biomes.take(b + 1)) == if biomes[b]@.len() > step_count(biomes.take(b)) {
            biomes[b]@.len()
        } else {
            step_count(biomes.take(b))
        },
{
    assert(biomes.take(b + 1).drop_last() =~= biomes.take(b));
}

fn add_keys(keys: &mut Vec<(usize, usize)>, list: &Vec<(usize, usize)>)
    requires
        keys_sorted(old(keys)@),
    ensures
        keys_sorted(final(keys)@),
        forall|x: (usize, usize)|
            #[trigger] final(keys)@.contains(x) <==> old(keys)@.contains(x) || list@.contains(x),
{
    let mut i: usize = 0;
    while i < list.len()
        invariant
            i <= list.len(),
            keys_sorted(keys@),
            forall|x: (usize, usize)|
                #[trigger] keys@.contains(x) <==> old(keys)@.contains(x) || list@.take(
                    i as int,
                ).contains(x),
        decreases list.len() - i,
    {
        let ghost before = keys@;
        let (at, added) = insert_key(keys, list[i]);
        proof {
            assert forall|x: (usize, usize)| #[trigger] keys@.contains(x) <==> old(keys)@.contains(x)
                || list@.take(i + 1).contains(x) by {
                let taken = list@.take(i + 1);
                assert(taken == list@.take(i as int).push(list@[i as int]));
                if keys@.contains(x) {
                    let k = keys@.index_of(x);
                    if added && k == at {
                        assert(taken[i as int] == x);
                    } else if added && k > at {
                        assert(before[k - 1] == x);
                    } else {
                        assert(before[k] == x);
                    }
                    if before.contains(x) {
                    } else {
                        assert(x == list@[i as int]);
                        assert(taken[i as int] == x);
                    }
                }
                if before.contains(x) {
                    let k = before.index_of(x);
                    if added && k >= at {
                        assert(keys@[k + 1] == x);
                    } else {
                        assert(keys@[k] == x);
                    }
                }
                if taken.contains(x) {
                    let k = taken.index_of(x);
                    if k < i {
                        assert(list@.take(i as int)[k] == x);
                    } else {
                        assert(keys@[at as int] == x);
                    }
                }
            }
        }
        i += 1;
    }
    proof {
        assert(list@.take(list@.len() as int) =~= list@);
    }
}

/// Each consecutive pair of the list as an edge.
#[verifier::rlimit(40)]
#[verifier::spinoff_prover]
fn add_edges(edges: &mut Vec<((usize, usize), (usize, usize))>, list: &Vec<(usize, usize)>)
    ensures
        forall|e: ((usize, usize), (usize, usize))|
            #[trigger] final(edges)@.contains(e) <==> old(edges)@.contains(e) || exists|t: int|
                0 <= t && t + 1 < list@.len() && e == (#[trigger] list@[t], list@[t + 1]),
{
    let mut i: usize = 0;
    while i < list.len() && i + 1 < list.len()
        invariant
            i <= list.len(),
            forall|e: ((usize, usize), (usize, usize))|
                #[trigger] edges@.contains(e) <==> old(edges)@.contains(e) || exists|t: int|
                    0 <= t < i && t + 1 < list@.len() && e == (#[trigger] list@[t], list@[t + 1]),
        decreases list.len() - i,
    {
        let ghost before = edges@;
        edges.push((list[i], list[i + 1]));
        proof {
            assert forall|e: ((usize, usize), (usize, usize))| #[trigger] edges@.contains(e)
                <==> old(edges)@.contains(e) || exists|t: int|
                0 <= t < i + 1 && t + 1 < list@.len() && e == (#[trigger] list@[t], list@[t + 1]) by {
                if edges@.contains(e) {
                    let k = edges@.index_of(e);
                    if k < before.len() {
                        assert(before[k] == e);
                    } else {
                        assert(e == (list@[i as int], list@[i + 1]));
                    }
                }
                if before.contains(e) {
                    let k = before.index_of(e);
                    assert(edges@[k] == e);
                }
                if exists|t: int|
                    0 <= t < i + 1 && t + 1 < list@.len() && e == (#[trigger] list@[t], list@[t + 1]) {
                    let t = choose|t: int|
                        0 <= t < i + 1 && t + 1 < list@.len() && e == (#[trigger] list@[t], list@[t + 1]);
                    if t == i {
                        assert(edges@[edges@.len() - 1] == e);
                    } else {
                        assert(before.contains(e));
                    }
                }
            }
        }
        i += 1;
    }
}

/// Re-states the collected graph against a token numbering that only grew.
proof fn lemma_collected_grow(
    biomes: Seq<Vec<Vec<usize>>>,
    upto: int,
    prior: Seq<usize>,
    token_of: Seq<usize>,
    keys: Seq<(usize, usize)>,
    edges: Seq<((usize, usize), (usize, usize))>,
)
    requires
        collected(biomes, upto, prior, keys, edges),
        prior.is_prefix_of(token_of),
        token_of.no_duplicates(),
        token_of.len() <= usize::MAX,
    ensures
        collected(biomes, upto, token_of, keys, edges),
{
    reveal(collected);
    assert forall|b: int, i: int|
        0 <= b < upto && 0 <= i < biome_entries(biomes, b).len() implies key_of(
        token_of,
        #[trigger] biome_entries(biomes, b)[i],
    ) == key_of(prior, biome_entries(biomes, b)[i]) && token_of.contains(
        biome_entries(biomes, b)[i].1,
    ) by {
        lemma_index_of_stable(prior, token_of, biome_entries(biomes, b)[i].1);
    }
    assert forall|x: (usize, usize)| #[trigger] keys.contains(x) implies exists|b: int, i: int|
        0 <= b < upto && 0 <= i < biome_entries(biomes, b).len() && x == key_of(
            token_of,
            #[trigger] biome_entries(biomes, b)[i],
        ) by {
        let (b, i) = choose|b: int, i: int|
            0 <= b < upto && 0 <= i < biome_entries(biomes, b).len() && x == key_of(
                prior,
                #[trigger] biome_entries(biomes, b)[i],
            );
        assert(key_of(token_of, biome_entries(biomes, b)[i]) == key_of(
            prior,
            biome_entries(biomes, b)[i],
        ));
    }
    assert forall|e: ((usize, usize), (usize, usize))| #[trigger] edges.contains(e) implies exists|
        b: int,
        i: int,
    |
        0 <= b < upto && 0 <= i && i + 1 < biome_entries(biomes, b).len() && e == (
            key_of(token_of, #[trigger] biome_entries(biomes, b)[i]),
            key_of(token_of, biome_entries(biomes, b)[i + 1]),
        ) by {
        let (b, i) = choose|b: int, i: int|
            0 <= b < upto && 0 <= i && i + 1 < biome_entries(biomes, b).len() && e == (
                key_of(prior, #[trigger] biome_entries(biomes, b)[i]),
                key_of(prior, biome_entries(biomes, b)[i + 1]),
            );
        assert(key_of(token_of, biome_entries(biomes, b)[i]) == key_of(
            prior,
            biome_entries(biomes, b)[i],
        ));
        assert(key_of(token_of, biome_entries(biomes, b)[i + 1]) == key_of(
            prior,
            biome_entries(biomes, b)[i + 1],
        ));
    }
    assert forall|b: int, i: int|
        0 <= b < upto && 0 <= i && i + 1 < biome_entries(biomes, b).len() implies edges.contains(
        (
            key_of(token_of, #[trigger] biome_entries(biomes, b)[i]),
            key_of(token_of, biome_entries(biomes, b)[i + 1]),
        ),
    ) by {
        assert(key_of(token_of, biome_entries(biomes, b)[i + 1]) == key_of(
            prior,
            biome_entries(biomes, b)[i + 1],
        ));
    }
}

/// Adds one indexed biome to the collected graph.
proof fn lemma_collected_extend(
    biomes: Seq<Vec<Vec<usize>>>,
    b: int,
    token_of: Seq<usize>,
    keys: Seq<(usize, usize)>,
    edges: Seq<((usize, usize), (usize, usize))>,
    new_keys: Seq<(usize, usize)>,
    new_edges: Seq<((usize, usize), (usize, usize))>,
    list: Seq<(usize, usize)>,
)
    requires
        0 <= b < biomes.len(),
        collected(biomes, b, token_of, keys, edges),
        list.len() == biome_entries(biomes, b).len(),
        forall|t: int|
            0 <= t < list.len() ==> token_of.contains(#[trigger] biome_entries(biomes, b)[t].1)
                && list[t] == key_of(token_of, biome_entries(biomes, b)[t]),
        keys_sorted(new_keys),
        new_keys.len() <= usize::MAX,
        forall|x: (usize, usize)| #[trigger] new_keys.contains(x) <==> keys.contains(x) || list.contains(x),
        forall|e: ((usize, usize), (usize, usize))|
            #[trigger] new_edges.contains(e) <==> edges.contains(e) || exists|t: int|
                0 <= t && t + 1 < list.len() && e == (#[trigger] list[t], list[t + 1]),
    ensures
        collected(biomes, b + 1, token_of, new_keys, new_edges),
{
    reveal(collected);
    let entries = biome_entries(biomes, b);
    assert forall|x: (usize, usize)| #[trigger] new_keys.contains(x) implies exists|c: int, i: int|
        0 <= c < b + 1 && 0 <= i < biome_entries(biomes, c).len() && x == key_of(
            token_of,
            #[trigger] biome_entries(biomes, c)[i],
        ) by {
        if keys.contains(x) {
        } else {
            let t = list.index_of(x);
            assert(x == key_of(token_of, biome_entries(biomes, b)[t]));
        }
    }
    assert forall|e: ((usize, usize), (usize, usize))| #[trigger] new_edges.contains(e) implies exists|
        c: int,
        i: int,
    |
        0 <= c < b + 1 && 0 <= i && i + 1 < biome_entries(biomes, c).len() && e == (
            key_of(token_of, #[trigger] biome_entries(biomes, c)[i]),
            key_of(token_of, biome_entries(biomes, c)[i + 1]),
        ) by {
        if edges.contains(e) {
        } else {
            let t = choose|t: int| 0 <= t && t + 1 < list.len() && e == (#[trigger] list[t], list[t + 1]);
            assert(list[t] == key_of(token_of, biome_entries(biomes, b)[t]));
            assert(list[t + 1] == key_of(token_of, biome_entries(biomes, b)[t + 1]));
        }
    }
    assert forall|c: int, i: int|
        0 <= c < b + 1 && 0 <= i < biome_entries(biomes, c).len() implies token_of.contains(
        #[trigger] biome_entries(biomes, c)[i].1,
    ) && new_keys.contains(key_of(token_of, biome_entries(biomes, c)[i])) by {
        if c == b {
            assert(list[i] == key_of(token_of, biome_entries(biomes, b)[i]));
            assert(list.contains(list[i]));
        } else {
            assert(keys.contains(key_of(token_of, biome_entries(biomes, c)[i])));
        }
    }
    assert forall|c: int, i: int|
        0 <= c < b + 1 && 0 <= i && i + 1 < biome_entries(biomes, c).len() implies new_edges.contains(
        (
            key_of(token_of, #[trigger] biome_entries(biomes, c)[i]),
            key_of(token_of, biome_entries(biomes, c)[i + 1]),
        ),
    ) by {
        if c == b {
            assert(list[i] == key_of(token_of, biome_entries(biomes, b)[i]));
            assert(list[i + 1] == key_of(token_of, biome_entries(biomes, b)[i + 1]));
        } else {
            assert(edges.contains(
                (
                    key_of(token_of, biome_entries(biomes, c)[i]),
                    key_of(token_of, biome_entries(biomes, c)[i + 1]),
                ),
            ));
        }
    }
}

fn collect_graph(biomes: &[Vec<Vec<usize>>]) -> (res: (
    Vec<usize>,
    Vec<(usize, usize)>,
    Vec<((usize, usize), (usize, usize))>,
    usize,
))
    ensures
        collected(biomes@, biomes@.len() as int, res.0@, res.1@, res.2@),
        res.3 == step_count(biomes@),
        res.0@ == first_seen(biomes@),
{
    let mut token_of: Vec<usize> = Vec::new();
    let mut keys: Vec<(usize, usize)> = Vec::new();
    let mut edges: Vec<((usize, usize), (usize, usize))> = Vec::new();
    let mut max_step: usize = 0;
    let mut b: usize = 0;
    proof {
        assert(biomes@.take(0) =~= Seq::<Vec<Vec<usize>>>::empty());
        reveal(collected);
    }
    while b < biomes.len()
        invariant
            b <= biomes.len(),
            collected(biomes@, b as int, token_of@, keys@, edges@),
            max_step == step_count(biomes@.take(b as int)),
            token_of@ == seen(Seq::empty(), all_tokens(biomes@, b as int)),
        decreases biomes.len() - b,
    {
        let steps = &biomes[b];
        proof {
            lemma_step_count_take(biomes@, b as int);
        }
        if steps.len() > max_step {
            max_step = steps.len();
        }
        let ghost prior = token_of@;
        proof {
            lemma_collected_basics(biomes@, b as int, token_of@, keys@, edges@);
        }
        let list = index_biome(steps, &mut token_of);
        proof {
            lemma_seen_concat(Seq::empty(), all_tokens(biomes@, b as int), biome_tokens(biomes@, b as int));
            assert(all_tokens(biomes@, b + 1) == all_tokens(biomes@, b as int) + biome_tokens(biomes@, b as int));
            assert(token_of.len() == token_of@.len());
            lemma_collected_grow(biomes@, b as int, prior, token_of@, keys@, edges@);
        }
        let ghost old_keys = keys@;
        let ghost old_edges = edges@;
        add_keys(&mut keys, &list);
        add_edges(&mut edges, &list);
        proof {
            assert(keys.len() == keys@.len());
            lemma_collected_extend(
                biomes@,
                b as int,
                token_of@,
                old_keys,
                old_edges,
                keys@,
                edges@,
                list@,
            );
        }
        b += 1;
    }
    proof {
        assert(biomes@.take(biomes@.len() as int) =~= biomes@);
    }
    (token_of, keys, edges, max_step)
}

proof fn lemma_sorted_distinct(keys: Seq<(usize, usize)>)
    requires
        keys_sorted(keys),
    ensures
        keys.no_duplicates(),
{
    assert forall|i: int, j: int| 0 <= i < keys.len() && 0 <= j < keys.len() && i != j implies keys[i]
        != keys[j] by {
        if i < j {
            assert(key_lt(keys[i], keys[j]));
        } else {
            assert(key_lt(keys[j], keys[i]));
        }
    }
}

/// For each vertex, the ascending positions of its successors.
fn build_adjacency(
    keys: &Vec<(usize, usize)>,
    edges: &Vec<((usize, usize), (usize, usize))>,
) -> (adj: Vec<Vec<usize>>)
    requires
        keys@.no_duplicates(),
        forall|e: ((usize, usize), (usize, usize))| #[trigger]
            edges@.contains(e) ==> keys@.contains(e.1),
    ensures
        adj@.len() == keys@.len(),
        adj_wf(adj@),
        forall|u: int, i: int, j: int|
            0 <= u < adj@.len() && 0 <= i < j < adj@[u]@.len() ==> #[trigger] adj@[u]@[i] < #[trigger] adj@[u]@[j],
        forall|u: usize, v: usize|
            u < keys@.len() && v < keys@.len() ==> (#[trigger] adj_edge(adj@, u, v)
                <==> edges@.contains((keys@[u as int], keys@[v as int]))),
{
    let n = keys.len();
    let mut adj: Vec<Vec<usize>> = Vec::new();
    let mut k: usize = 0;
    while k < n
        invariant
            n == keys@.len(),
            k <= n,
            adj@.len() == k,
            keys@.no_duplicates(),
            forall|e: ((usize, usize), (usize, usize))| #[trigger]
                edges@.contains(e) ==> keys@.contains(e.1),
            forall|u: int, j: int|
                0 <= u < k && 0 <= j < adj@[u]@.len() ==> #[trigger] adj@[u]@[j] < n,
            forall|u: int, i: int, j: int|
                0 <= u < k && 0 <= i < j < adj@[u]@.len() ==> #[trigger] adj@[u]@[i] < #[trigger] adj@[u]@[j],
            forall|u: usize, v: usize|
                u < k && v < n ==> (#[trigger] adj@[u as int]@.contains(v)
                    <==> edges@.contains((keys@[u as int], keys@[v as int]))),
        decreases n - k,
    {
        let mut succ: Vec<usize> = Vec::new();
        let mut e: usize = 0;
        while e < edges.len()
            invariant
                n == keys@.len(),
                k < n,
                e <= edges.len(),
                keys@.no_duplicates(),
                forall|e: ((usize, usize), (usize, usize))| #[trigger]
                    edges@.contains(e) ==> keys@.contains(e.1),
                forall|i: int, j: int| 0 <= i < j < succ@.len() ==> succ@[i] < succ@[j],
                forall|j: int| 0 <= j < succ@.len() ==> #[trigger] succ@[j] < n,
                forall|v: usize|
                    v < n ==> (#[trigger] succ@.contains(v) <==> edges@.take(e as int).contains(
                        (keys@[k as int], keys@[v as int]),
                    )),
            decreases edges.len() - e,
        {
            let edge = edges[e];
            let ghost before = succ@;
            let ghost taken = edges@.take(e + 1);
            proof {
                assert(taken == edges@.take(e as int).push(edge));
            }
            if edge.0.0 == keys[k].0 && edge.0.1 == keys[k].1 {
                proof {
                    assert(edges@.contains(edge));
                }
                let p = position(keys, edge.1);
                insert_ascending(&mut succ, p);
                proof {
                    assert forall|j: int| 0 <= j < succ@.len() implies #[trigger] succ@[j] < n by {
                        assert(succ@.contains(succ@[j]));
                        if before.contains(succ@[j]) {
                            let q = before.index_of(succ@[j]);
                        }
                    }
                    assert forall|v: usize| v < n implies (#[trigger] succ@.contains(v)
                        <==> taken.contains((keys@[k as int], keys@[v as int]))) by {
                        assert(edge == (keys@[k as int], keys@[p as int]));
                        if v == p {
                            assert(taken[e as int] == (keys@[k as int], keys@[v as int]));
                        } else {
                            assert(succ@.contains(v) <==> before.contains(v));
                            if taken.contains((keys@[k as int], keys@[v as int])) {
                                let q = taken.index_of((keys@[k as int], keys@[v as int]));
                                if q == e {
                                    assert(keys@[v as int] == keys@[p as int]);
                                } else {
                                    assert(edges@.take(e as int)[q] == taken[q]);
                                }
                            }
                            if edges@.take(e as int).contains((keys@[k as int], keys@[v as int])) {
                                let q = edges@.take(e as int).index_of(
                                    (keys@[k as int], keys@[v as int]),
                                );
                                assert(taken[q] == edges@.take(e as int)[q]);
                            }
                        }
                    }
                }
            } else {
                proof {
                    assert forall|v: usize| v < n implies (#[trigger] succ@.contains(v)
                        <==> taken.contains((keys@[k as int], keys@[v as int]))) by {
                        if taken.contains((keys@[k as int], keys@[v as int])) {
                            let q = taken.index_of((keys@[k as int], keys@[v as int]));
                            if q < e {
                                assert(edges@.take(e as int)[q] == taken[q]);
                            }
                        }
                        if edges@.take(e as int).contains((keys@[k as int], keys@[v as int])) {
                            let q = edges@.take(e as int).index_of((keys@[k as int], keys@[v as int]));
                            assert(taken[q] == edges@.take(e as int)[q]);
                        }
                    }
                }
            }
            e += 1;
        }
        proof {
            assert(edges@.take(edges@.len() as int) =~= edges@);
        }
        adj.push(succ);
        proof {
            assert forall|u: usize, v: usize|
                u < k + 1 && v < n implies (#[trigger] adj@[u as int]@.contains(v)
                <==> edges@.contains((keys@[u as int], keys@[v as int]))) by {}
        }
        k += 1;
    }
    adj
}

// ---------------------------------------------------------------------------
// Relating dense vertices back to `(step, token)` pairs.
// ---------------------------------------------------------------------------

/// The `(step, token)` pair a dense vertex stands for.
pub open spec fn vertex_of(token_of: Seq<usize>, key: (usize, usize)) -> (int, usize) {
    (key.0 as int, token_of[key.1 as int])
}

proof fn lemma_steps_fit(biomes: Seq<Vec<Vec<usize>>>, b: int, i: int)
    requires
        0 <= b < biomes.len(),
        0 <= i < biome_entries(biomes, b).len(),
    ensures
        0 <= biome_entries(biomes, b)[i].0 < biomes[b]@.len(),
        biomes[b]@.len() <= step_count(biomes),
        biome_entries(biomes, b)[i].0 <= usize::MAX,
    decreases biomes.len(),
{
    lemma_step_entries_steps(biomes[b]@);
    assert(biomes[b].len() == biomes[b]@.len());
    if b < biomes.len() - 1 {
        lemma_steps_fit(biomes.drop_last(), b, i);
        assert(biomes.drop_last()[b] == biomes[b]);
    }
}

proof fn lemma_collected_basics(
    biomes: Seq<Vec<Vec<usize>>>,
    upto: int,
    token_of: Seq<usize>,
    keys: Seq<(usize, usize)>,
    edges: Seq<((usize, usize), (usize, usize))>,
)
    requires
        collected(biomes, upto, token_of, keys, edges),
    ensures
        token_of.no_duplicates(),
        keys_sorted(keys),
        token_of.len() <= usize::MAX,
        keys.len() <= usize::MAX,
{
    reveal(collected);
}

proof fn lemma_collected_covers(
    biomes: Seq<Vec<Vec<usize>>>,
    token_of: Seq<usize>,
    keys: Seq<(usize, usize)>,
    edges: Seq<((usize, usize), (usize, usize))>,
    b: int,
    i: int,
)
    requires
        collected(biomes, biomes.len() as int, token_of, keys, edges),
        0 <= b < biomes.len(),
        0 <= i < biome_entries(biomes, b).len(),
    ensures
        token_of.contains(biome_entries(biomes, b)[i].1),
        keys.contains(key_of(token_of, biome_entries(biomes, b)[i])),
        i + 1 < biome_entries(biomes, b).len() ==> edges.contains(
            (
                key_of(token_of, biome_entries(biomes, b)[i]),
                key_of(token_of, biome_entries(biomes, b)[i + 1]),
            ),
        ),
{
    reveal(collected);
}

proof fn lemma_key_source(
    biomes: Seq<Vec<Vec<usize>>>,
    token_of: Seq<usize>,
    keys: Seq<(usize, usize)>,
    edges: Seq<((usize, usize), (usize, usize))>,
    key: (usize, usize),
) -> (src: (int, int))
    requires
        collected(biomes, biomes.len() as int, token_of, keys, edges),
        keys.contains(key),
    ensures
        0 <= src.0 < biomes.len(),
        0 <= src.1 < biome_entries(biomes, src.0).len(),
        key == key_of(token_of, biome_entries(biomes, src.0)[src.1]),
{
    reveal(collected);
    choose|b: int, i: int|
        0 <= b < biomes.len() && 0 <= i < biome_entries(biomes, b).len() && key == key_of(
            token_of,
            #[trigger] biome_entries(biomes, b)[i],
        )
}

proof fn lemma_edge_source(
    biomes: Seq<Vec<Vec<usize>>>,
    token_of: Seq<usize>,
    keys: Seq<(usize, usize)>,
    edges: Seq<((usize, usize), (usize, usize))>,
    edge: ((usize, usize), (usize, usize)),
) -> (src: (int, int))
    requires
        collected(biomes, biomes.len() as int, token_of, keys, edges),
        edges.contains(edge),
    ensures
        0 <= src.0 < biomes.len(),
        0 <= src.1 && src.1 + 1 < biome_entries(biomes, src.0).len(),
        edge == (
            key_of(token_of, biome_entries(biomes, src.0)[src.1]),
            key_of(token_of, biome_entries(biomes, src.0)[src.1 + 1]),
        ),
{
    reveal(collected);
    choose|b: int, i: int|
        0 <= b < biomes.len() && 0 <= i && i + 1 < biome_entries(biomes, b).len() && edge == (
            key_of(token_of, #[trigger] biome_entries(biomes, b)[i]),
            key_of(token_of, biome_entries(biomes, b)[i + 1]),
        )
}

proof fn lemma_entry_key(
    biomes: Seq<Vec<Vec<usize>>>,
    token_of: Seq<usize>,
    keys: Seq<(usize, usize)>,
    edges: Seq<((usize, usize), (usize, usize))>,
    b: int,
    i: int,
)
    requires
        collected(biomes, biomes.len() as int, token_of, keys, edges),
        0 <= b < biomes.len(),
        0 <= i < biome_entries(biomes, b).len(),
    ensures
        ({
            let e = biome_entries(biomes, b)[i];
            &&& keys.contains(key_of(token_of, e))
            &&& key_of(token_of, e).1 < token_of.len()
            &&& vertex_of(token_of, key_of(token_of, e)) == e
            &&& e.0 < step_count(biomes)
        }),
{
    let e = biome_entries(biomes, b)[i];
    lemma_steps_fit(biomes, b, i);
    lemma_collected_covers(biomes, token_of, keys, edges, b, i);
    lemma_collected_basics(biomes, biomes.len() as int, token_of, keys, edges);
    let k = token_of.index_of(e.1);
    assert(0 <= k < token_of.len() && token_of[k] == e.1);
    assert(0 <= e.0 <= usize::MAX);
    assert((e.0 as usize) as int == e.0);
    assert((k as usize) as int == k);
    assert(key_of(token_of, e) == (e.0 as usize, k as usize));
    assert(vertex_of(token_of, key_of(token_of, e)) == e);
}

proof fn lemma_key_entry(
    biomes: Seq<Vec<Vec<usize>>>,
    token_of: Seq<usize>,
    keys: Seq<(usize, usize)>,
    edges: Seq<((usize, usize), (usize, usize))>,
    k: int,
)
    requires
        collected(biomes, biomes.len() as int, token_of, keys, edges),
        0 <= k < keys.len(),
    ensures
        carries(biomes, vertex_of(token_of, keys[k]).0, vertex_of(token_of, keys[k]).1),
        key_of(token_of, vertex_of(token_of, keys[k])) == keys[k],
        keys[k].1 < token_of.len(),
        vertex_of(token_of, keys[k]).0 < step_count(biomes),
{
    assert(keys.contains(keys[k]));
    let (b, i) = lemma_key_source(biomes, token_of, keys, edges, keys[k]);
    lemma_entry_key(biomes, token_of, keys, edges, b, i);
}

/// Where a carried pair sits in the order.
spec fn rank(
    order: Seq<usize>,
    keys: Seq<(usize, usize)>,
    token_of: Seq<usize>,
    e: (int, usize),
) -> int {
    order.index_of(keys.index_of(key_of(token_of, e)) as usize)
}

/// The facts the final assembly works from.
#[verifier::opaque]
spec fn assembled(
    biomes: Seq<Vec<Vec<usize>>>,
    token_of: Seq<usize>,
    keys: Seq<(usize, usize)>,
    edges: Seq<((usize, usize), (usize, usize))>,
    adj: Seq<Vec<usize>>,
) -> bool {
    &&& collected(biomes, biomes.len() as int, token_of, keys, edges)
    &&& keys.no_duplicates()
    &&& adj.len() == keys.len()
    &&& adj_wf(adj)
    &&& forall|u: usize, v: usize|
        u < keys.len() && v < keys.len() ==> (#[trigger] adj_edge(adj, u, v) <==> edges.contains(
            (keys[u as int], keys[v as int]),
        ))
}

#[verifier::opaque]
spec fn topological(adj: Seq<Vec<usize>>, order: Seq<usize>) -> bool {
    &&& order.no_duplicates()
    &&& forall|i: int| 0 <= i < order.len() ==> #[trigger] order[i] < adj.len()
    &&& forall|v: usize| v < adj.len() ==> #[trigger] order.contains(v)
    &&& forall|i: int, j: int|
        0 <= i < order.len() && 0 <= j < order.len() && #[trigger] adj_edge(adj, order[i], order[j])
            ==> i < j
}

proof fn lemma_assembled_basics(
    biomes: Seq<Vec<Vec<usize>>>,
    token_of: Seq<usize>,
    keys: Seq<(usize, usize)>,
    edges: Seq<((usize, usize), (usize, usize))>,
    adj: Seq<Vec<usize>>,
)
    requires
        assembled(biomes, token_of, keys, edges, adj),
    ensures
        collected(biomes, biomes.len() as int, token_of, keys, edges),
        keys.no_duplicates(),
        adj.len() == keys.len(),
        adj_wf(adj),
{
    reveal(assembled);
}

proof fn lemma_assembled_edge(
    biomes: Seq<Vec<Vec<usize>>>,
    token_of: Seq<usize>,
    keys: Seq<(usize, usize)>,
    edges: Seq<((usize, usize), (usize, usize))>,
    adj: Seq<Vec<usize>>,
    u: usize,
    v: usize,
)
    requires
        assembled(biomes, token_of, keys, edges, adj),
        u < keys.len(),
        v < keys.len(),
    ensures
        adj_edge(adj, u, v) <==> edges.contains((keys[u as int], keys[v as int])),
{
    reveal(assembled);
}

proof fn lemma_topological_facts(adj: Seq<Vec<usize>>, order: Seq<usize>, v: usize, i: int, j: int)
    requires
        topological(adj, order),
    ensures
        order.no_duplicates(),
        v < adj.len() ==> order.contains(v),
        0 <= i < order.len() ==> order[i] < adj.len(),
        0 <= i < order.len() && 0 <= j < order.len() && adj_edge(adj, order[i], order[j]) ==> i < j,
{
    reveal(topological);
}

/// A carried pair's rank locates its vertex.
proof fn lemma_rank(
    biomes: Seq<Vec<Vec<usize>>>,
    token_of: Seq<usize>,
    keys: Seq<(usize, usize)>,
    edges: Seq<((usize, usize), (usize, usize))>,
    adj: Seq<Vec<usize>>,
    order: Seq<usize>,
    b: int,
    i: int,
)
    requires
        assembled(biomes, token_of, keys, edges, adj),
        topological(adj, order),
        0 <= b < biomes.len(),
        0 <= i < biome_entries(biomes, b).len(),
    ensures
        ({
            let e = biome_entries(biomes, b)[i];
            let r = rank(order, keys, token_of, e);
            &&& 0 <= r < order.len()
            &&& keys[order[r] as int] == key_of(token_of, e)
            &&& keys.index_of(key_of(token_of, e)) == order[r] as int
        }),
{
    let e = biome_entries(biomes, b)[i];
    lemma_assembled_basics(biomes, token_of, keys, edges, adj);
    lemma_entry_key(biomes, token_of, keys, edges, b, i);
    let p = keys.index_of(key_of(token_of, e));
    assert(keys.contains(key_of(token_of, e)));
    assert(0 <= p < keys.len());
    assert(keys[p] == key_of(token_of, e));
    lemma_collected_basics(biomes, biomes.len() as int, token_of, keys, edges);
    lemma_topological_facts(adj, order, p as usize, 0, 0);
    let r = order.index_of(p as usize);
    assert(order[r] == p as usize);
}

/// Every edge the biomes state moves strictly forward in the order.
proof fn lemma_edge_rank(
    biomes: Seq<Vec<Vec<usize>>>,
    token_of: Seq<usize>,
    keys: Seq<(usize, usize)>,
    edges: Seq<((usize, usize), (usize, usize))>,
    adj: Seq<Vec<usize>>,
    order: Seq<usize>,
    b: int,
    i: int,
)
    requires
        assembled(biomes, token_of, keys, edges, adj),
        topological(adj, order),
        0 <= b < biomes.len(),
        0 <= i && i + 1 < biome_entries(biomes, b).len(),
    ensures
        rank(order, keys, token_of, biome_entries(biomes, b)[i]) < rank(
            order,
            keys,
            token_of,
            biome_entries(biomes, b)[i + 1],
        ),
{
    let u = biome_entries(biomes, b)[i];
    let v = biome_entries(biomes, b)[i + 1];
    lemma_rank(biomes, token_of, keys, edges, adj, order, b, i);
    lemma_rank(biomes, token_of, keys, edges, adj, order, b, i + 1);
    let ru = rank(order, keys, token_of, u);
    let rv = rank(order, keys, token_of, v);
    lemma_assembled_basics(biomes, token_of, keys, edges, adj);
    lemma_collected_covers(biomes, token_of, keys, edges, b, i);
    lemma_topological_facts(adj, order, 0, ru, rv);
    lemma_topological_facts(adj, order, 0, rv, ru);
    lemma_assembled_edge(biomes, token_of, keys, edges, adj, order[ru], order[rv]);
}

/// Ranks strictly rise along a biome's run of one step.
proof fn lemma_run_rank(
    biomes: Seq<Vec<Vec<usize>>>,
    token_of: Seq<usize>,
    keys: Seq<(usize, usize)>,
    edges: Seq<((usize, usize), (usize, usize))>,
    adj: Seq<Vec<usize>>,
    order: Seq<usize>,
    b: int,
    i: int,
    j: int,
)
    requires
        assembled(biomes, token_of, keys, edges, adj),
        topological(adj, order),
        0 <= b < biomes.len(),
        0 <= i < j < biome_entries(biomes, b).len(),
    ensures
        rank(order, keys, token_of, biome_entries(biomes, b)[i]) < rank(
            order,
            keys,
            token_of,
            biome_entries(biomes, b)[j],
        ),
    decreases j - i,
{
    lemma_edge_rank(biomes, token_of, keys, edges, adj, order, b, j - 1);
    if i < j - 1 {
        lemma_run_rank(biomes, token_of, keys, edges, adj, order, b, i, j - 1);
    }
}

/// A dense closed walk is a closed walk of the biomes' graph.
proof fn lemma_cycle_lifts(
    biomes: Seq<Vec<Vec<usize>>>,
    token_of: Seq<usize>,
    keys: Seq<(usize, usize)>,
    edges: Seq<((usize, usize), (usize, usize))>,
    adj: Seq<Vec<usize>>,
    c: usize,
)
    requires
        assembled(biomes, token_of, keys, edges, adj),
        c < adj.len(),
        adj_on_cycle(adj, c),
    ensures
        on_feature_cycle(biomes, vertex_of(token_of, keys[c as int])),
{
    let walk = choose|walk: Seq<usize>|
        walk.len() >= 2 && walk[0] == c && walk.last() == c && #[trigger] adj_walk(adj, walk);
    lemma_assembled_basics(biomes, token_of, keys, edges, adj);
    let lifted = walk.map_values(|k: usize| vertex_of(token_of, keys[k as int]));
    assert forall|i: int| 0 <= i < lifted.len() - 1 implies #[trigger] feature_edge(
        biomes,
        lifted[i],
        lifted[i + 1],
    ) by {
        assert(adj_edge(adj, walk[i], walk[i + 1]));
        let u = walk[i];
        let v = walk[i + 1];
        assert(v < adj.len());
        lemma_assembled_edge(biomes, token_of, keys, edges, adj, u, v);
        let (b, t) = lemma_edge_source(biomes, token_of, keys, edges, (keys[u as int], keys[v as int]));
        lemma_entry_key(biomes, token_of, keys, edges, b, t);
        lemma_entry_key(biomes, token_of, keys, edges, b, t + 1);
    }
    assert(feature_walk(biomes, lifted));
}

/// Ranks strictly rise along every walk of the biomes' graph.
proof fn lemma_walk_rank(
    biomes: Seq<Vec<Vec<usize>>>,
    token_of: Seq<usize>,
    keys: Seq<(usize, usize)>,
    edges: Seq<((usize, usize), (usize, usize))>,
    adj: Seq<Vec<usize>>,
    order: Seq<usize>,
    walk: Seq<(int, usize)>,
)
    requires
        assembled(biomes, token_of, keys, edges, adj),
        topological(adj, order),
        walk.len() >= 2,
        feature_walk(biomes, walk),
    ensures
        rank(order, keys, token_of, walk[0]) < rank(order, keys, token_of, walk.last()),
    decreases walk.len(),
{
    let n = walk.len();
    let last = n - 2;
    assert(feature_edge(biomes, walk[last], walk[last + 1]));
    let (b, t) = choose|b: int, t: int|
        0 <= b < biomes.len() && 0 <= t && t + 1 < biome_entries(biomes, b).len()
            && #[trigger] biome_entries(biomes, b)[t] == walk[n - 2] && biome_entries(biomes, b)[t
            + 1] == walk[n - 1];
    lemma_edge_rank(biomes, token_of, keys, edges, adj, order, b, t);
    if n > 2 {
        let shorter = walk.drop_last();
        assert forall|i: int| 0 <= i < shorter.len() - 1 implies #[trigger] feature_edge(
            biomes,
            shorter[i],
            shorter[i + 1],
        ) by {
            assert(feature_edge(biomes, walk[i], walk[i + 1]));
        }
        lemma_walk_rank(biomes, token_of, keys, edges, adj, order, shorter);
    }
}

/// What one step's list is made of: the tokens of the vertices at `step`, in
/// the order they hold, `picked` naming each one's place in the order.
spec fn step_list(
    keys: Seq<(usize, usize)>,
    token_of: Seq<usize>,
    order: Seq<usize>,
    step: usize,
    tokens: Seq<usize>,
    picked: Seq<int>,
) -> bool {
    &&& tokens.len() == picked.len()
    &&& forall|q: int|
        0 <= q < picked.len() ==> 0 <= #[trigger] picked[q] < order.len() && keys[order[picked[q]] as int].0
            == step && tokens[q] == token_of[keys[order[picked[q]] as int].1 as int]
    &&& forall|q1: int, q2: int|
        0 <= q1 < q2 < picked.len() ==> #[trigger] picked[q1] < #[trigger] picked[q2]
    &&& forall|r: int|
        0 <= r < order.len() && #[trigger] keys[order[r] as int].0 == step ==> exists|q: int|
            0 <= q < picked.len() && picked[q] == r
}

/// The tokens of the vertices at `step`, in the order `order` holds them.
pub open spec fn step_tokens(
    keys: Seq<(usize, usize)>,
    token_of: Seq<usize>,
    order: Seq<usize>,
    step: usize,
) -> Seq<usize>
    decreases order.len(),
{
    if order.len() == 0 {
        Seq::empty()
    } else {
        let rest = step_tokens(keys, token_of, order.drop_last(), step);
        let key = keys[order.last() as int];
        if key.0 == step {
            rest.push(token_of[key.1 as int])
        } else {
            rest
        }
    }
}

fn collect_step(
    keys: &Vec<(usize, usize)>,
    token_of: &Vec<usize>,
    order: &Vec<usize>,
    step: usize,
) -> (res: (Vec<usize>, Ghost<Seq<int>>))
    requires
        forall|r: int| 0 <= r < order.len() ==> #[trigger] order@[r] < keys.len(),
        forall|k: int| 0 <= k < keys.len() ==> #[trigger] keys@[k].1 < token_of.len(),
    ensures
        step_list(keys@, token_of@, order@, step, res.0@, res.1@),
        res.0@ == step_tokens(keys@, token_of@, order@, step),
{
    let mut tokens: Vec<usize> = Vec::new();
    let ghost mut picked: Seq<int> = Seq::empty();
    let mut r: usize = 0;
    while r < order.len()
        invariant
            r <= order.len(),
            forall|r: int| 0 <= r < order.len() ==> #[trigger] order@[r] < keys.len(),
            forall|k: int| 0 <= k < keys.len() ==> #[trigger] keys@[k].1 < token_of.len(),
            tokens@.len() == picked.len(),
            tokens@ == step_tokens(keys@, token_of@, order@.take(r as int), step),
            forall|q: int|
                0 <= q < picked.len() ==> 0 <= #[trigger] picked[q] < r && keys@[order@[picked[q]] as int].0
                    == step && tokens@[q] == token_of@[keys@[order@[picked[q]] as int].1 as int],
            forall|q1: int, q2: int|
                0 <= q1 < q2 < picked.len() ==> #[trigger] picked[q1] < #[trigger] picked[q2],
            forall|r2: int|
                0 <= r2 < r && #[trigger] keys@[order@[r2] as int].0 == step ==> exists|q: int|
                    0 <= q < picked.len() && picked[q] == r2,
        decreases order.len() - r,
    {
        let key = keys[order[r]];
        proof {
            let next = order@.take(r + 1);
            assert(next.drop_last() =~= order@.take(r as int));
            assert(next.last() == order@[r as int]);
        }
        if key.0 == step {
            tokens.push(token_of[key.1]);
            proof {
                let before = picked;
                picked = picked.push(r as int);
                assert forall|r2: int|
                    0 <= r2 < r + 1 && #[trigger] keys@[order@[r2] as int].0 == step implies exists|
                    q: int,
                | 0 <= q < picked.len() && picked[q] == r2 by {
                    if r2 == r {
                        assert(picked[picked.len() - 1] == r2);
                    } else {
                        let q = choose|q: int| 0 <= q < before.len() && before[q] == r2;
                        assert(picked[q] == r2);
                    }
                }
            }
        }
        r += 1;
    }
    proof {
        assert forall|q: int| 0 <= q < picked.len() implies 0 <= #[trigger] picked[q] < order.len() by {}
        assert(order@.take(order@.len() as int) =~= order@);
    }
    (tokens, Ghost(picked))
}

/// What the decoration order promises: one list per step, holding exactly the
/// tokens some biome carries at that step, once each, so that no biome's own
/// list runs out of order.
pub open spec fn orders_features(biomes: Seq<Vec<Vec<usize>>>, ordered: Seq<Vec<usize>>) -> bool {
    &&& ordered.len() == step_count(biomes)
    &&& forall|s: int| 0 <= s < ordered.len() ==> #[trigger] ordered[s]@.no_duplicates()
    &&& forall|s: int, t: usize|
        0 <= s < ordered.len() ==> (#[trigger] ordered[s]@.contains(t) <==> carries(biomes, s, t))
    &&& forall|b: int| 0 <= b < biomes.len() ==> keeps_order(ordered, #[trigger] biome_entries(biomes, b))
}

/// The vertex a step list's entry came from is the pair it names.
proof fn lemma_picked_vertex(
    biomes: Seq<Vec<Vec<usize>>>,
    token_of: Seq<usize>,
    keys: Seq<(usize, usize)>,
    edges: Seq<((usize, usize), (usize, usize))>,
    adj: Seq<Vec<usize>>,
    order: Seq<usize>,
    step: usize,
    tokens: Seq<usize>,
    picked: Seq<int>,
    q: int,
)
    requires
        assembled(biomes, token_of, keys, edges, adj),
        topological(adj, order),
        step_list(keys, token_of, order, step, tokens, picked),
        0 <= q < picked.len(),
    ensures
        ({
            let k = order[picked[q]];
            &&& k < keys.len()
            &&& vertex_of(token_of, keys[k as int]) == (step as int, tokens[q])
            &&& key_of(token_of, (step as int, tokens[q])) == keys[k as int]
            &&& carries(biomes, step as int, tokens[q])
        }),
{
    lemma_assembled_basics(biomes, token_of, keys, edges, adj);
    let k = order[picked[q]];
    lemma_topological_facts(adj, order, 0, picked[q], 0);
    lemma_key_entry(biomes, token_of, keys, edges, k as int);
}

proof fn lemma_ordered_result(
    biomes: Seq<Vec<Vec<usize>>>,
    token_of: Seq<usize>,
    keys: Seq<(usize, usize)>,
    edges: Seq<((usize, usize), (usize, usize))>,
    adj: Seq<Vec<usize>>,
    order: Seq<usize>,
    result: Seq<Vec<usize>>,
    picks: Seq<Seq<int>>,
)
    requires
        assembled(biomes, token_of, keys, edges, adj),
        topological(adj, order),
        result.len() == step_count(biomes),
        step_count(biomes) <= usize::MAX,
        picks.len() == result.len(),
        forall|s: int|
            0 <= s < result.len() ==> step_list(
                keys,
                token_of,
                order,
                s as usize,
                #[trigger] result[s]@,
                picks[s],
            ),
    ensures
        orders_features(biomes, result),
        !has_feature_cycle(biomes),
{
    lemma_assembled_basics(biomes, token_of, keys, edges, adj);
    lemma_collected_basics(biomes, biomes.len() as int, token_of, keys, edges);
    lemma_topological_facts(adj, order, 0, 0, 0);
    // Each step list holds a token at most once.
    assert forall|s: int| 0 <= s < result.len() implies #[trigger] result[s]@.no_duplicates() by {
        let tokens = result[s]@;
        let picked = picks[s];
        assert(step_list(keys, token_of, order, s as usize, tokens, picked));
        assert forall|q1: int, q2: int|
            0 <= q1 < tokens.len() && 0 <= q2 < tokens.len() && q1 != q2 implies tokens[q1]
            != tokens[q2] by {
            lemma_picked_vertex(biomes, token_of, keys, edges, adj, order, s as usize, tokens, picked, q1);
            lemma_picked_vertex(biomes, token_of, keys, edges, adj, order, s as usize, tokens, picked, q2);
            if q1 < q2 {
                assert(picked[q1] < picked[q2]);
            } else {
                assert(picked[q2] < picked[q1]);
            }
            lemma_topological_facts(adj, order, 0, picked[q1], picked[q2]);
            if tokens[q1] == tokens[q2] {
                assert(keys[order[picked[q1]] as int] == keys[order[picked[q2]] as int]);
            }
        }
    }
    // A step list holds exactly the tokens carried at its step.
    assert forall|s: int, t: usize| 0 <= s < result.len() implies (
    #[trigger] result[s]@.contains(t) <==> carries(biomes, s, t)) by {
        let tokens = result[s]@;
        let picked = picks[s];
        assert(step_list(keys, token_of, order, s as usize, tokens, picked));
        if tokens.contains(t) {
            let q = tokens.index_of(t);
            lemma_picked_vertex(biomes, token_of, keys, edges, adj, order, s as usize, tokens, picked, q);
        }
        if carries(biomes, s, t) {
            let (b, i) = choose|b: int, i: int|
                0 <= b < biomes.len() && 0 <= i < biome_entries(biomes, b).len()
                    && #[trigger] biome_entries(biomes, b)[i] == (s, t);
            lemma_rank(biomes, token_of, keys, edges, adj, order, b, i);
            lemma_entry_key(biomes, token_of, keys, edges, b, i);
            let r = rank(order, keys, token_of, (s, t));
            assert(keys[order[r] as int].0 == s as usize);
            let q = choose|q: int| 0 <= q < picked.len() && picked[q] == r;
            assert(tokens[q] == t);
        }
    }
    // Each biome's entries of one step keep their order.
    assert forall|b: int| 0 <= b < biomes.len() implies keeps_order(
        result,
        #[trigger] biome_entries(biomes, b),
    ) by {
        let entries = biome_entries(biomes, b);
        assert forall|i: int, j: int, p: int, q: int|
            0 <= i < j < entries.len() && entries[i].0 == entries[j].0 && 0 <= entries[i].0
                < result.len() && 0 <= p < result[entries[i].0]@.len() && 0 <= q
                < result[entries[i].0]@.len() && #[trigger] result[entries[i].0]@[p] == entries[i].1
                && #[trigger] result[entries[j].0]@[q] == entries[j].1 implies p < q by {
            let s = entries[i].0;
            let tokens = result[s]@;
            let picked = picks[s];
            assert(step_list(keys, token_of, order, s as usize, tokens, picked));
            lemma_picked_vertex(biomes, token_of, keys, edges, adj, order, s as usize, tokens, picked, p);
            lemma_picked_vertex(biomes, token_of, keys, edges, adj, order, s as usize, tokens, picked, q);
            lemma_rank(biomes, token_of, keys, edges, adj, order, b, i);
            lemma_rank(biomes, token_of, keys, edges, adj, order, b, j);
            lemma_run_rank(biomes, token_of, keys, edges, adj, order, b, i, j);
            let ri = rank(order, keys, token_of, entries[i]);
            let rj = rank(order, keys, token_of, entries[j]);
            assert(entries[i] == (s, tokens[p]));
            assert(entries[j] == (s, tokens[q]));
            assert(keys[order[picked[p]] as int] == keys[order[ri] as int]);
            assert(order[picked[p]] == order[ri]);
            assert(picked[p] == ri);
            assert(keys[order[picked[q]] as int] == keys[order[rj] as int]);
            assert(order[picked[q]] == order[rj]);
            assert(picked[q] == rj);
            if q <= p {
                if q < p {
                    assert(picked[q] < picked[p]);
                }
            }
        }
    }
    // No closed walk: ranks would have to rise all the way round.
    if has_feature_cycle(biomes) {
        let v = choose|v: (int, usize)| #[trigger] on_feature_cycle(biomes, v);
        let walk = choose|walk: Seq<(int, usize)>|
            walk.len() >= 2 && walk[0] == v && walk.last() == v && #[trigger] feature_walk(
                biomes,
                walk,
            );
        lemma_walk_rank(biomes, token_of, keys, edges, adj, order, walk);
    }
}

/// A vertex of the ordering graph: the `(step, number)` key of some entry a
/// biome carries, tokens numbered as `t` does.
pub open spec fn is_vertex(biomes: Seq<Vec<Vec<usize>>>, t: Seq<usize>, x: (usize, usize)) -> bool {
    exists|b: int, i: int|
        0 <= b < biomes.len() && 0 <= i < biome_entries(biomes, b).len() && x == key_of(
            t,
            #[trigger] biome_entries(biomes, b)[i],
        )
}

/// An edge of the ordering graph: `y` directly follows `x` in some biome.
pub open spec fn is_edge(biomes: Seq<Vec<Vec<usize>>>, t: Seq<usize>, x: (usize, usize), y: (usize, usize)) -> bool {
    exists|b: int, i: int|
        0 <= b < biomes.len() && 0 <= i && i + 1 < biome_entries(biomes, b).len() && x == key_of(
            t,
            #[trigger] biome_entries(biomes, b)[i],
        ) && y == key_of(t, biome_entries(biomes, b)[i + 1])
}

/// `keys` are the graph's vertices in ascending `(step, number)` order, and
/// `adj[u]` the positions of `keys[u]`'s successors, ascending.
pub open spec fn is_graph(biomes: Seq<Vec<Vec<usize>>>, keys: Seq<(usize, usize)>, adj: Seq<Seq<usize>>) -> bool {
    let t = first_seen(biomes);
    &&& keys_sorted(keys)
    &&& forall|x: (usize, usize)| #[trigger] keys.contains(x) <==> is_vertex(biomes, t, x)
    &&& adj.len() == keys.len()
    &&& forall|u: int, i: int, j: int|
        0 <= u < adj.len() && 0 <= i < j < adj[u].len() ==> #[trigger] adj[u][i] < #[trigger] adj[u][j]
    &&& forall|u: int, v: usize|
        0 <= u < adj.len() ==> (#[trigger] adj[u].contains(v) <==> v < keys.len() && is_edge(
            biomes,
            t,
            keys[u],
            keys[v as int],
        ))
}

/// The order the decoration program takes, or the token of the feature the
/// search first finds a cycle through. Tokens are numbered in order of first
/// encounter; the searches start from every vertex in ascending `(step,
/// number)` order and follow successors in ascending order; the order is the
/// reverse of the finishing order; and each step's list takes the features of
/// that step in that order.
pub open spec fn dfs_order(biomes: Seq<Vec<Vec<usize>>>) -> Result<Seq<Seq<usize>>, usize> {
    let t = first_seen(biomes);
    let g = choose|g: (Seq<(usize, usize)>, Seq<Seq<usize>>)| is_graph(biomes, g.0, g.1);
    match topo_spec(g.1) {
        Ok(order) => Ok(
            Seq::new(step_count(biomes), |s: int| step_tokens(g.0, t, order, s as usize)),
        ),
        Err(c) => Err(t[g.0[c as int].1 as int]),
    }
}

/// Two key lists in strict ascending order holding the same keys are equal.
proof fn lemma_keys_unique(p: Seq<(usize, usize)>, q: Seq<(usize, usize)>)
    requires
        keys_sorted(p),
        keys_sorted(q),
        forall|x: (usize, usize)| p.contains(x) <==> q.contains(x),
    ensures
        p == q,
    decreases p.len(),
{
    if p.len() == 0 {
        if q.len() > 0 {
            assert(q.contains(q[0]));
        }
    } else {
        assert(p.contains(p[0]));
        let k = choose|k: int| 0 <= k < q.len() && q[k] == p[0];
        assert(q.contains(q[0]));
        let m = choose|m: int| 0 <= m < p.len() && p[m] == q[0];
        if k > 0 {
            assert(key_lt(q[0], q[k]));
            if m > 0 {
                assert(key_lt(p[0], p[m]));
            }
        }
        assert(k == 0);
        let (pt, qt) = (p.drop_first(), q.drop_first());
        assert forall|x: (usize, usize)| pt.contains(x) <==> qt.contains(x) by {
            if pt.contains(x) {
                let a = choose|a: int| 0 <= a < pt.len() && pt[a] == x;
                assert(key_lt(p[0], p[a + 1]));
                assert(q.contains(x));
                let b = choose|b: int| 0 <= b < q.len() && q[b] == x;
                assert(b != 0);
                assert(qt[b - 1] == x);
            }
            if qt.contains(x) {
                let b = choose|b: int| 0 <= b < qt.len() && qt[b] == x;
                assert(key_lt(q[0], q[b + 1]));
                assert(p.contains(x));
                let a = choose|a: int| 0 <= a < p.len() && p[a] == x;
                assert(a != 0);
                assert(pt[a - 1] == x);
            }
        }
        lemma_keys_unique(pt, qt);
        assert(p =~= seq![p[0]] + pt);
        assert(q =~= seq![q[0]] + qt);
    }
}

/// Two ascending lists holding the same numbers are equal.
proof fn lemma_ascending_unique(p: Seq<usize>, q: Seq<usize>)
    requires
        forall|i: int, j: int| 0 <= i < j < p.len() ==> p[i] < p[j],
        forall|i: int, j: int| 0 <= i < j < q.len() ==> q[i] < q[j],
        forall|x: usize| p.contains(x) <==> q.contains(x),
    ensures
        p == q,
    decreases p.len(),
{
    if p.len() == 0 {
        if q.len() > 0 {
            assert(q.contains(q[0]));
        }
    } else {
        assert(p.contains(p[0]));
        let k = choose|k: int| 0 <= k < q.len() && q[k] == p[0];
        assert(q.contains(q[0]));
        let m = choose|m: int| 0 <= m < p.len() && p[m] == q[0];
        if k > 0 {
            assert(q[0] < q[k]);
            if m > 0 {
                assert(p[0] < p[m]);
            }
        }
        assert(k == 0);
        let (pt, qt) = (p.drop_first(), q.drop_first());
        assert forall|x: usize| pt.contains(x) <==> qt.contains(x) by {
            if pt.contains(x) {
                let a = choose|a: int| 0 <= a < pt.len() && pt[a] == x;
                assert(p[0] < p[a + 1]);
                assert(q.contains(x));
                let b = choose|b: int| 0 <= b < q.len() && q[b] == x;
                assert(b != 0);
                assert(qt[b - 1] == x);
            }
            if qt.contains(x) {
                let b = choose|b: int| 0 <= b < qt.len() && qt[b] == x;
                assert(q[0] < q[b + 1]);
                assert(p.contains(x));
                let a = choose|a: int| 0 <= a < p.len() && p[a] == x;
                assert(a != 0);
                assert(pt[a - 1] == x);
            }
        }
        lemma_ascending_unique(pt, qt);
        assert(p =~= seq![p[0]] + pt);
        assert(q =~= seq![q[0]] + qt);
    }
}

/// The biomes have one graph.
proof fn lemma_graph_unique(
    biomes: Seq<Vec<Vec<usize>>>,
    k1: Seq<(usize, usize)>,
    a1: Seq<Seq<usize>>,
    k2: Seq<(usize, usize)>,
    a2: Seq<Seq<usize>>,
)
    requires
        is_graph(biomes, k1, a1),
        is_graph(biomes, k2, a2),
    ensures
        k1 == k2,
        a1 == a2,
{
    let t = first_seen(biomes);
    assert forall|x: (usize, usize)| k1.contains(x) <==> k2.contains(x) by {
        assert(k1.contains(x) <==> is_vertex(biomes, t, x));
        assert(k2.contains(x) <==> is_vertex(biomes, t, x));
    }
    lemma_keys_unique(k1, k2);
    assert forall|u: int| 0 <= u < a1.len() implies a1[u] == a2[u] by {
        assert forall|v: usize| a1[u].contains(v) <==> a2[u].contains(v) by {
            assert(a1[u].contains(v) <==> v < k1.len() && is_edge(biomes, t, k1[u], k1[v as int]));
            assert(a2[u].contains(v) <==> v < k2.len() && is_edge(biomes, t, k2[u], k2[v as int]));
        }
        assert forall|i: int, j: int| 0 <= i < j < a1[u].len() implies a1[u][i] < a1[u][j] by {
            assert(a1[u][i] < a1[u][j]);
        }
        assert forall|i: int, j: int| 0 <= i < j < a2[u].len() implies a2[u][i] < a2[u][j] by {
            assert(a2[u][i] < a2[u][j]);
        }
        lemma_ascending_unique(a1[u], a2[u]);
    }
    assert(a1 =~= a2);
}

/// What the search runs on is the biomes' graph.
proof fn lemma_is_graph(
    biomes: Seq<Vec<Vec<usize>>>,
    token_of: Seq<usize>,
    keys: Seq<(usize, usize)>,
    edges: Seq<((usize, usize), (usize, usize))>,
    adj: Seq<Vec<usize>>,
)
    requires
        collected(biomes, biomes.len() as int, token_of, keys, edges),
        token_of == first_seen(biomes),
        adj.len() == keys.len(),
        adj_wf(adj),
        forall|u: int, i: int, j: int|
            0 <= u < adj.len() && 0 <= i < j < adj[u]@.len() ==> #[trigger] adj[u]@[i] < #[trigger] adj[u]@[j],
        forall|u: usize, v: usize|
            u < keys.len() && v < keys.len() ==> (#[trigger] adj_edge(adj, u, v) <==> edges.contains(
                (keys[u as int], keys[v as int]),
            )),
    ensures
        is_graph(biomes, keys, adj_view(adj)),
{
    reveal(collected);
    let t = token_of;
    let av = adj_view(adj);
    assert forall|x: (usize, usize)| #[trigger] keys.contains(x) <==> is_vertex(biomes, t, x) by {
        if is_vertex(biomes, t, x) {
            let (b, i) = choose|b: int, i: int|
                0 <= b < biomes.len() && 0 <= i < biome_entries(biomes, b).len() && x == key_of(
                    t,
                    #[trigger] biome_entries(biomes, b)[i],
                );
            assert(keys.contains(key_of(t, biome_entries(biomes, b)[i])));
        }
    }
    assert forall|u: int, i: int, j: int|
        0 <= u < av.len() && 0 <= i < j < av[u].len() implies #[trigger] av[u][i] < #[trigger] av[u][j] by {
        assert(av[u] == adj[u]@);
        assert(adj[u]@[i] < adj[u]@[j]);
    }
    assert forall|u: int, v: usize| 0 <= u < av.len() implies (#[trigger] av[u].contains(v) <==> v
        < keys.len() && is_edge(biomes, t, keys[u], keys[v as int])) by {
        assert(av[u] == adj[u]@);
        if av[u].contains(v) {
            let j = choose|j: int| 0 <= j < adj[u]@.len() && adj[u]@[j] == v;
            assert(adj[u]@[j] < adj.len());
        }
        if v < keys.len() {
            assert(adj_edge(adj, u as usize, v) <==> edges.contains((keys[u], keys[v as int])));
            let e = (keys[u], keys[v as int]);
            if edges.contains(e) {
                let (b, i) = choose|b: int, i: int|
                    0 <= b < biomes.len() && 0 <= i && i + 1 < biome_entries(biomes, b).len() && e == (
                        key_of(token_of, #[trigger] biome_entries(biomes, b)[i]),
                        key_of(token_of, biome_entries(biomes, b)[i + 1]),
                    );
                assert(is_edge(biomes, t, keys[u], keys[v as int]));
            }
            if is_edge(biomes, t, keys[u], keys[v as int]) {
                let (b, i) = choose|b: int, i: int|
                    0 <= b < biomes.len() && 0 <= i && i + 1 < biome_entries(biomes, b).len()
                        && keys[u] == key_of(t, #[trigger] biome_entries(biomes, b)[i]) && keys[v as int]
                        == key_of(t, biome_entries(biomes, b)[i + 1]);
                assert(edges.contains(
                    (
                        key_of(token_of, biome_entries(biomes, b)[i]),
                        key_of(token_of, biome_entries(biomes, b)[i + 1]),
                    ),
                ));
            }
        }
    }
}

/// Orders every feature the given biomes carry into one list per decoration
/// step, so that no biome's own list ever runs out of order.
///
/// A biome is a list of steps, a step a list of identity tokens: two entries
/// with the same token are the same feature and share a vertex, and equal
/// tokens are the caller's statement of identity, not of equal shape. The
/// error is the token the walk found a cycle through.
pub fn build_features_per_step(biomes: &[Vec<Vec<usize>>]) -> (res: Result<Vec<Vec<usize>>, usize>)
    ensures
        res matches Ok(ordered) ==> orders_features(biomes@, ordered@),
        res matches Err(token) ==> exists|step: int| #[trigger] on_feature_cycle(biomes@, (step, token)),
        res is Ok <==> !has_feature_cycle(biomes@),
        res matches Ok(ordered) ==> dfs_order(biomes@) == Ok::<Seq<Seq<usize>>, usize>(
            ordered@.map_values(|list: Vec<usize>| list@),
        ),
        res matches Err(token) ==> dfs_order(biomes@) == Err::<Seq<Seq<usize>>, usize>(token),
{
    let (token_of, keys, edges, max_step) = collect_graph(biomes);
    proof {
        lemma_collected_basics(biomes@, biomes@.len() as int, token_of@, keys@, edges@);
        lemma_sorted_distinct(keys@);
        assert forall|e: ((usize, usize), (usize, usize))| #[trigger] edges@.contains(e) implies keys@.contains(
            e.1,
        ) by {
            let (b, i) = lemma_edge_source(biomes@, token_of@, keys@, edges@, e);
            lemma_collected_covers(biomes@, token_of@, keys@, edges@, b, i + 1);
        }
    }
    let adj = build_adjacency(&keys, &edges);
    proof {
        reveal(assembled);
        lemma_is_graph(biomes@, token_of@, keys@, edges@, adj@);
        let mine = (keys@, adj_view(adj@));
        assert(is_graph(biomes@, mine.0, mine.1));
        let g = choose|g: (Seq<(usize, usize)>, Seq<Seq<usize>>)| is_graph(biomes@, g.0, g.1);
        lemma_graph_unique(biomes@, g.0, g.1, mine.0, mine.1);
        assert(g == mine);
    }
    match topological_order(&adj) {
        Err(cycle) => {
            proof {
                lemma_cycle_lifts(biomes@, token_of@, keys@, edges@, adj@, cycle);
                lemma_key_entry(biomes@, token_of@, keys@, edges@, cycle as int);
            }
            let token = token_of[keys[cycle].1];
            proof {
                assert(vertex_of(token_of@, keys@[cycle as int]) == (keys@[cycle as int].0 as int, token));
                assert(on_feature_cycle(biomes@, (keys@[cycle as int].0 as int, token)));
                assert(exists|step: int| on_feature_cycle(biomes@, (step, token)));
                assert(has_feature_cycle(biomes@));
            }
            let res: Result<Vec<Vec<usize>>, usize> = Err(token);
            proof {
                assert(res is Err);
                assert(res->Err_0 == token);
                assert(exists|step: int| #[trigger] on_feature_cycle(biomes@, (step, token)));
            }
            res
        },
        Ok(order) => {
            proof {
                reveal(topological);
                assert forall|k: int| 0 <= k < keys.len() implies #[trigger] keys@[k].1 < token_of.len() by {
                    lemma_key_entry(biomes@, token_of@, keys@, edges@, k);
                }
            }
            let mut result: Vec<Vec<usize>> = Vec::new();
            let ghost mut picks: Seq<Seq<int>> = Seq::empty();
            let mut step: usize = 0;
            while step < max_step
                invariant
                    step <= max_step,
                    max_step == step_count(biomes@),
                    forall|r: int| 0 <= r < order.len() ==> #[trigger] order@[r] < keys.len(),
                    forall|k: int| 0 <= k < keys.len() ==> #[trigger] keys@[k].1 < token_of.len(),
                    result@.len() == step,
                    picks.len() == step,
                    forall|s: int|
                        0 <= s < step ==> (#[trigger] result@[s])@ == step_tokens(
                            keys@,
                            token_of@,
                            order@,
                            s as usize,
                        ),
                    forall|s: int|
                        0 <= s < step ==> step_list(
                            keys@,
                            token_of@,
                            order@,
                            s as usize,
                            #[trigger] result@[s]@,
                            picks[s],
                        ),
                decreases max_step - step,
            {
                let (tokens, Ghost(picked)) = collect_step(&keys, &token_of, &order, step);
                result.push(tokens);
                proof {
                    picks = picks.push(picked);
                    assert forall|s: int| 0 <= s < step + 1 implies step_list(
                        keys@,
                        token_of@,
                        order@,
                        s as usize,
                        #[trigger] result@[s]@,
                        picks[s],
                    ) by {
                        if s == step {
                            assert((s as usize) == step);
                        }
                    }
                }
                step += 1;
            }
            proof {
                lemma_ordered_result(biomes@, token_of@, keys@, edges@, adj@, order@, result@, picks);
                assert(result@.map_values(|list: Vec<usize>| list@) =~= Seq::new(
                    step_count(biomes@),
                    |s: int| step_tokens(keys@, token_of@, order@, s as usize),
                ));
            }
            Ok(result)
        },
    }
}

} // verus!
