use crate::jmath::{floor_div, floor_div_spec};
use crate::program::Vec3i;
use vstd::prelude::*;

verus! {

/// Which way an environment scan walks.
#[derive(Clone, Copy, Debug, PartialEq, Eq, Structural)]
pub enum VerticalDirection {
    Up,
    Down,
}

/// Whether `y` lies within `min_inclusive..=max_inclusive` of the surface.
pub fn surface_relative_keeps(surface: i32, min_inclusive: i32, max_inclusive: i32, y: i32) -> (res:
    bool)
    ensures
        res == (surface + min_inclusive <= y && y <= surface + max_inclusive),
{
    let surface = surface as i64;
    let y = y as i64;
    surface + min_inclusive as i64 <= y && y <= surface + max_inclusive as i64
}

/// Whether the water above the ocean floor is at most `max_water_depth` deep.
pub fn water_depth_keeps(floor: i32, surface: i32, max_water_depth: i32) -> (res: bool)
    ensures
        res == (surface - floor <= max_water_depth),
{
    surface as i64 - floor as i64 <= max_water_depth as i64
}

/// Whether a heightmap reading lies above the bottom of the world, so there
/// is a block to stand on.
pub fn heightmap_keeps(height: i32, min_y: i32) -> (res: bool)
    ensures
        res == (height > min_y),
{
    height > min_y
}

/// How many copies of the origin a count places: none for a negative count.
pub fn copies(count: i32) -> (n: usize)
    ensures
        n == (if count < 0 {
            0
        } else {
            count as int
        }),
{
    if count < 0 {
        0
    } else {
        count as usize
    }
}

/// The chunk a block coordinate lies in.
pub open spec fn chunk_of(coordinate: i32) -> int {
    floor_div_spec(coordinate as int, 16)
}

/// The first `n` fixed positions that lie in the origin's chunk, in order.
pub open spec fn in_chunk(positions: Seq<Vec3i>, origin: Vec3i, n: int) -> Seq<Vec3i>
    decreases n,
{
    if n <= 0 || n > positions.len() {
        Seq::empty()
    } else {
        let before = in_chunk(positions, origin, n - 1);
        let p = positions[n - 1];
        if chunk_of(p.x) == chunk_of(origin.x) && chunk_of(p.z) == chunk_of(origin.z) {
            before.push(p)
        } else {
            before
        }
    }
}

/// A fixed placement keeps exactly those of its positions whose chunk, the
/// column of sixteen by sixteen blocks both coordinates floor-divide into,
/// is the origin's.
pub proof fn lemma_fixed_placement_meaning(positions: Seq<Vec3i>, origin: Vec3i, n: int, v: Vec3i)
    requires
        0 <= n <= positions.len(),
    ensures
        in_chunk(positions, origin, n).contains(v) <==> exists|i: int|
            0 <= i < n && #[trigger] positions[i] == v && (v.x as int) / 16 == (origin.x as int) / 16 && (
            v.z as int) / 16 == (origin.z as int) / 16,
    decreases n,
{
    if n > 0 {
        lemma_fixed_placement_meaning(positions, origin, n - 1, v);
        let before = in_chunk(positions, origin, n - 1);
        let p = positions[n - 1];
        if chunk_of(p.x) == chunk_of(origin.x) && chunk_of(p.z) == chunk_of(origin.z) {
            let after = before.push(p);
            if after.contains(v) {
                let i = choose|i: int| 0 <= i < after.len() && after[i] == v;
                if i < before.len() {
                    assert(before[i] == v);
                }
            }
            if before.contains(v) {
                let i = choose|i: int| 0 <= i < before.len() && before[i] == v;
                assert(after[i] == v);
            }
            if v == p {
                assert(after[before.len() as int] == v);
            }
        }
    }
}

/// A fixed placement keeps only its positions in the origin's chunk.
pub fn fixed_placement(positions: &[Vec3i], origin: Vec3i) -> (out: Vec<Vec3i>)
    ensures
        out@ == in_chunk(positions@, origin, positions@.len() as int),
{
    let chunk_x = floor_div(origin.x, 16);
    let chunk_z = floor_div(origin.z, 16);
    let mut out: Vec<Vec3i> = Vec::new();
    let mut i: usize = 0;
    while i < positions.len()
        invariant
            i <= positions@.len(),
            chunk_x == chunk_of(origin.x),
            chunk_z == chunk_of(origin.z),
            out@ == in_chunk(positions@, origin, i as int),
        decreases positions.len() - i,
    {
        let p = positions[i];
        if floor_div(p.x, 16) == chunk_x && floor_div(p.z, 16) == chunk_z {
            out.push(p);
        }
        i += 1;
    }
    out
}

/// Whether the cell `(x, y, z)` of a cuboid of `width + 1` by `height + 1` by
/// `length + 1` cells is placed: edges unless `include_edges` is off, the
/// interior only if `include_interior` is on.
pub open spec fn cuboid_keeps(
    width: int,
    height: int,
    length: int,
    include_edges: bool,
    include_interior: bool,
    x: int,
    y: int,
    z: int,
) -> bool {
    let edge_xy = include_edges || (x != 0 && x != width) || (y != 0 && y != height);
    let edge_zy = include_edges || (z != 0 && z != length) || (y != 0 && y != height);
    let edge_xz = include_edges || (x != 0 && x != width) || (z != 0 && z != length);
    let shell = include_interior || x == 0 || x == width || y == 0 || y == height || z == 0 || z
        == length;
    edge_xy && edge_zy && edge_xz && shell
}

/// The sizes and switches of a cuboid placement.
#[derive(Clone, Copy, Debug, PartialEq, Eq, Structural)]
pub struct Cuboid {
    pub width: i32,
    pub height: i32,
    pub length: i32,
    pub include_edges: bool,
    pub include_interior: bool,
}

pub open spec fn cuboid_cell(c: Cuboid, origin: Vec3i, x: int, y: int, z: int) -> Vec3i {
    Vec3i { x: (origin.x + x) as i32, y: (origin.y + y) as i32, z: (origin.z + z) as i32 }
}

pub open spec fn cuboid_row(c: Cuboid, origin: Vec3i, x: int, y: int, n: int) -> Seq<Vec3i>
    decreases n,
{
    if n <= 0 {
        Seq::empty()
    } else {
        let before = cuboid_row(c, origin, x, y, n - 1);
        if cuboid_keeps(
            c.width as int,
            c.height as int,
            c.length as int,
            c.include_edges,
            c.include_interior,
            x,
            y,
            n - 1,
        ) {
            before.push(cuboid_cell(c, origin, x, y, n - 1))
        } else {
            before
        }
    }
}

pub open spec fn cuboid_layer(c: Cuboid, origin: Vec3i, x: int, n: int) -> Seq<Vec3i>
    decreases n,
{
    if n <= 0 {
        Seq::empty()
    } else {
        cuboid_layer(c, origin, x, n - 1) + cuboid_row(c, origin, x, n - 1, c.length + 1)
    }
}

/// The cells of the first `n` layers along x, x outermost and z innermost.
pub open spec fn cuboid_cells(c: Cuboid, origin: Vec3i, n: int) -> Seq<Vec3i>
    decreases n,
{
    if n <= 0 {
        Seq::empty()
    } else {
        cuboid_cells(c, origin, n - 1) + cuboid_layer(c, origin, n - 1, c.height + 1)
    }
}

proof fn lemma_cuboid_row_holds(c: Cuboid, origin: Vec3i, x: int, y: int, n: int, v: Vec3i)
    requires
        0 <= n,
    ensures
        cuboid_row(c, origin, x, y, n).contains(v) <==> exists|z: int|
            0 <= z < n && cuboid_keeps(
                c.width as int,
                c.height as int,
                c.length as int,
                c.include_edges,
                c.include_interior,
                x,
                y,
                z,
            ) && v == #[trigger] cuboid_cell(c, origin, x, y, z),
    decreases n,
{
    if n > 0 {
        lemma_cuboid_row_holds(c, origin, x, y, n - 1, v);
        let before = cuboid_row(c, origin, x, y, n - 1);
        let cell = cuboid_cell(c, origin, x, y, n - 1);
        if cuboid_keeps(
            c.width as int,
            c.height as int,
            c.length as int,
            c.include_edges,
            c.include_interior,
            x,
            y,
            n - 1,
        ) {
            let after = before.push(cell);
            if after.contains(v) {
                let i = choose|i: int| 0 <= i < after.len() && after[i] == v;
                if i < before.len() {
                    assert(before[i] == v);
                }
            }
            if before.contains(v) {
                let i = choose|i: int| 0 <= i < before.len() && before[i] == v;
                assert(after[i] == v);
            }
            if v == cell {
                assert(after[before.len() as int] == v);
            }
        }
    }
}

proof fn lemma_cuboid_layer_holds(c: Cuboid, origin: Vec3i, x: int, n: int, v: Vec3i)
    requires
        0 <= n,
    ensures
        cuboid_layer(c, origin, x, n).contains(v) <==> exists|y: int, z: int|
            0 <= y < n && 0 <= z < c.length + 1 && cuboid_keeps(
                c.width as int,
                c.height as int,
                c.length as int,
                c.include_edges,
                c.include_interior,
                x,
                y,
                z,
            ) && v == #[trigger] cuboid_cell(c, origin, x, y, z),
    decreases n,
{
    if n > 0 {
        lemma_cuboid_layer_holds(c, origin, x, n - 1, v);
        let before = cuboid_layer(c, origin, x, n - 1);
        let row = cuboid_row(c, origin, x, n - 1, c.length + 1);
        if c.length + 1 >= 0 {
            lemma_cuboid_row_holds(c, origin, x, n - 1, c.length + 1, v);
        } else {
            assert(row =~= Seq::<Vec3i>::empty());
        }
        let all = before + row;
        if all.contains(v) {
            let i = choose|i: int| 0 <= i < all.len() && all[i] == v;
            if i < before.len() {
                assert(before[i] == v);
                assert(before.contains(v));
            } else {
                assert(row[i - before.len()] == v);
                assert(row.contains(v));
            }
        }
        if before.contains(v) {
            let i = choose|i: int| 0 <= i < before.len() && before[i] == v;
            assert(all[i] == v);
        }
        if row.contains(v) {
            let i = choose|i: int| 0 <= i < row.len() && row[i] == v;
            assert(all[before.len() + i] == v);
        }
    }
}

proof fn lemma_cuboid_cells_hold(c: Cuboid, origin: Vec3i, n: int, v: Vec3i)
    requires
        0 <= n,
    ensures
        cuboid_cells(c, origin, n).contains(v) <==> exists|x: int, y: int, z: int|
            0 <= x < n && 0 <= y < c.height + 1 && 0 <= z < c.length + 1 && cuboid_keeps(
                c.width as int,
                c.height as int,
                c.length as int,
                c.include_edges,
                c.include_interior,
                x,
                y,
                z,
            ) && v == #[trigger] cuboid_cell(c, origin, x, y, z),
    decreases n,
{
    if n > 0 {
        lemma_cuboid_cells_hold(c, origin, n - 1, v);
        let before = cuboid_cells(c, origin, n - 1);
        let layer = cuboid_layer(c, origin, n - 1, c.height + 1);
        if c.height + 1 >= 0 {
            lemma_cuboid_layer_holds(c, origin, n - 1, c.height + 1, v);
        } else {
            assert(layer =~= Seq::<Vec3i>::empty());
        }
        let all = before + layer;
        if all.contains(v) {
            let i = choose|i: int| 0 <= i < all.len() && all[i] == v;
            if i < before.len() {
                assert(before[i] == v);
                assert(before.contains(v));
            } else {
                assert(layer[i - before.len()] == v);
                assert(layer.contains(v));
            }
        }
        if before.contains(v) {
            let i = choose|i: int| 0 <= i < before.len() && before[i] == v;
            assert(all[i] == v);
        }
        if layer.contains(v) {
            let i = choose|i: int| 0 <= i < layer.len() && layer[i] == v;
            assert(all[before.len() + i] == v);
        }
    }
}

/// Whether `u` comes before `v`: by x, then y, then z.
pub open spec fn cell_before(u: Vec3i, v: Vec3i) -> bool {
    u.x < v.x || (u.x == v.x && (u.y < v.y || (u.y == v.y && u.z < v.z)))
}

proof fn lemma_cuboid_row_order(c: Cuboid, origin: Vec3i, x: int, y: int, n: int)
    requires
        0 <= n <= c.length + 1,
        0 <= x <= c.width,
        0 <= y <= c.height,
        origin.x + c.width <= i32::MAX,
        origin.y + c.height <= i32::MAX,
        origin.z + c.length <= i32::MAX,
    ensures
        forall|i: int, j: int|
            0 <= i < j < cuboid_row(c, origin, x, y, n).len() ==> cell_before(
                #[trigger] cuboid_row(c, origin, x, y, n)[i],
                #[trigger] cuboid_row(c, origin, x, y, n)[j],
            ),
    decreases n,
{
    if n > 0 {
        lemma_cuboid_row_order(c, origin, x, y, n - 1);
        let before = cuboid_row(c, origin, x, y, n - 1);
        let cell = cuboid_cell(c, origin, x, y, n - 1);
        assert forall|i: int| 0 <= i < before.len() implies cell_before(#[trigger] before[i], cell) by {
            assert(before.contains(before[i]));
            lemma_cuboid_row_holds(c, origin, x, y, n - 1, before[i]);
        }
    }
}

proof fn lemma_cuboid_layer_order(c: Cuboid, origin: Vec3i, x: int, n: int)
    requires
        0 <= n <= c.height + 1,
        0 <= x <= c.width,
        origin.x + c.width <= i32::MAX,
        origin.y + c.height <= i32::MAX,
        origin.z + c.length <= i32::MAX,
    ensures
        forall|i: int, j: int|
            0 <= i < j < cuboid_layer(c, origin, x, n).len() ==> cell_before(
                #[trigger] cuboid_layer(c, origin, x, n)[i],
                #[trigger] cuboid_layer(c, origin, x, n)[j],
            ),
    decreases n,
{
    if n > 0 {
        lemma_cuboid_layer_order(c, origin, x, n - 1);
        let before = cuboid_layer(c, origin, x, n - 1);
        let row = cuboid_row(c, origin, x, n - 1, c.length + 1);
        let all = before + row;
        if c.length >= 0 {
            lemma_cuboid_row_order(c, origin, x, n - 1, c.length + 1);
        } else {
            assert(row =~= Seq::<Vec3i>::empty());
        }
        assert forall|i: int, j: int| 0 <= i < j < all.len() implies cell_before(
            #[trigger] all[i],
            #[trigger] all[j],
        ) by {
            if j < before.len() {
                assert(all[i] == before[i] && all[j] == before[j]);
            } else if i >= before.len() {
                assert(all[i] == row[i - before.len()] && all[j] == row[j - before.len()]);
            } else {
                assert(before.contains(all[i]));
                assert(row.contains(all[j]));
                lemma_cuboid_layer_holds(c, origin, x, n - 1, all[i]);
                lemma_cuboid_row_holds(c, origin, x, n - 1, c.length + 1, all[j]);
            }
        }
    }
}

/// A cuboid placement's cells come x outermost, then y, then z, each once.
pub proof fn lemma_cuboid_order(c: Cuboid, origin: Vec3i, n: int)
    requires
        0 <= n <= c.width + 1,
        origin.x + c.width <= i32::MAX,
        origin.y + c.height <= i32::MAX,
        origin.z + c.length <= i32::MAX,
    ensures
        forall|i: int, j: int|
            0 <= i < j < cuboid_cells(c, origin, n).len() ==> cell_before(
                #[trigger] cuboid_cells(c, origin, n)[i],
                #[trigger] cuboid_cells(c, origin, n)[j],
            ),
    decreases n,
{
    if n > 0 {
        lemma_cuboid_order(c, origin, n - 1);
        let before = cuboid_cells(c, origin, n - 1);
        let layer = cuboid_layer(c, origin, n - 1, c.height + 1);
        let all = before + layer;
        if c.height >= 0 {
            lemma_cuboid_layer_order(c, origin, n - 1, c.height + 1);
        } else {
            assert(layer =~= Seq::<Vec3i>::empty());
        }
        assert forall|i: int, j: int| 0 <= i < j < all.len() implies cell_before(
            #[trigger] all[i],
            #[trigger] all[j],
        ) by {
            if j < before.len() {
                assert(all[i] == before[i] && all[j] == before[j]);
            } else if i >= before.len() {
                assert(all[i] == layer[i - before.len()] && all[j] == layer[j - before.len()]);
            } else {
                assert(before.contains(all[i]));
                assert(layer.contains(all[j]));
                lemma_cuboid_cells_hold(c, origin, n - 1, all[i]);
                lemma_cuboid_layer_holds(c, origin, n - 1, c.height + 1, all[j]);
            }
        }
    }
}

/// The cells a cuboid placement keeps are those of its box, `width + 1` by
/// `height + 1` by `length + 1` cells from the origin, that lie on one of its
/// six faces (every cell, if the interior is included) and, if the edges are
/// left out, on no edge where two faces meet.
pub proof fn lemma_cuboid_shape(c: Cuboid, origin: Vec3i, x: int, y: int, z: int)
    requires
        origin.x + c.width <= i32::MAX,
        origin.y + c.height <= i32::MAX,
        origin.z + c.length <= i32::MAX,
    ensures
        forall|v: Vec3i|
            #[trigger] cuboid_cells(c, origin, c.width + 1).contains(v) ==> exists|a: int, b: int, d: int|
                0 <= a <= c.width && 0 <= b <= c.height && 0 <= d <= c.length && v == #[trigger] cuboid_cell(
                    c,
                    origin,
                    a,
                    b,
                    d,
                ) && v.x == origin.x + a && v.y == origin.y + b && v.z == origin.z + d,
        0 <= x <= c.width && 0 <= y <= c.height && 0 <= z <= c.length ==> (cuboid_cells(
            c,
            origin,
            c.width + 1,
        ).contains(Vec3i { x: (origin.x + x) as i32, y: (origin.y + y) as i32, z: (origin.z + z) as i32 })
            <==> ((c.include_interior || x == 0 || x == c.width || y == 0 || y == c.height || z == 0 || z
            == c.length) && (c.include_edges || !(((x == 0 || x == c.width) && (y == 0 || y == c.height)) || ((
        x == 0 || x == c.width) && (z == 0 || z == c.length)) || ((y == 0 || y == c.height) && (z == 0 || z
            == c.length)))))),
{
    assert forall|v: Vec3i| #[trigger] cuboid_cells(c, origin, c.width + 1).contains(v) implies exists|
        a: int,
        b: int,
        d: int,
    |
        0 <= a <= c.width && 0 <= b <= c.height && 0 <= d <= c.length && v == #[trigger] cuboid_cell(
            c,
            origin,
            a,
            b,
            d,
        ) && v.x == origin.x + a && v.y == origin.y + b && v.z == origin.z + d by {
        if c.width + 1 >= 0 {
            lemma_cuboid_cells_hold(c, origin, c.width + 1, v);
            let (a, b, d) = choose|a: int, b: int, d: int|
                0 <= a < c.width + 1 && 0 <= b < c.height + 1 && 0 <= d < c.length + 1 && cuboid_keeps(
                    c.width as int,
                    c.height as int,
                    c.length as int,
                    c.include_edges,
                    c.include_interior,
                    a,
                    b,
                    d,
                ) && v == #[trigger] cuboid_cell(c, origin, a, b, d);
            assert(v.x == origin.x + a && v.y == origin.y + b && v.z == origin.z + d);
        } else {
            assert(cuboid_cells(c, origin, c.width + 1) =~= Seq::<Vec3i>::empty());
        }
    }
    if 0 <= x <= c.width && 0 <= y <= c.height && 0 <= z <= c.length {
        let v = Vec3i { x: (origin.x + x) as i32, y: (origin.y + y) as i32, z: (origin.z + z) as i32 };
        lemma_cuboid_cells_hold(c, origin, c.width + 1, v);
        assert(v == cuboid_cell(c, origin, x, y, z));
        if cuboid_cells(c, origin, c.width + 1).contains(v) {
            let (a, b, d) = choose|a: int, b: int, d: int|
                0 <= a < c.width + 1 && 0 <= b < c.height + 1 && 0 <= d < c.length + 1 && cuboid_keeps(
                    c.width as int,
                    c.height as int,
                    c.length as int,
                    c.include_edges,
                    c.include_interior,
                    a,
                    b,
                    d,
                ) && v == #[trigger] cuboid_cell(c, origin, a, b, d);
            assert(a == x && b == y && d == z);
        }
    }
}

/// Every cell a cuboid placement keeps, offset from the origin, x outermost
/// and z innermost.
pub fn cuboid(c: &Cuboid, origin: Vec3i) -> (out: Vec<Vec3i>)
    requires
        origin.x + c.width <= i32::MAX,
        origin.y + c.height <= i32::MAX,
        origin.z + c.length <= i32::MAX,
    ensures
        out@ == cuboid_cells(*c, origin, c.width + 1),
{
    let mut out: Vec<Vec3i> = Vec::new();
    let mut x: i64 = 0;
    while x <= c.width as i64
        invariant
            0 <= x,
            (c.width >= 0 && x <= c.width + 1) || (c.width < 0 && x == 0),
            origin.x + c.width <= i32::MAX,
            origin.y + c.height <= i32::MAX,
            origin.z + c.length <= i32::MAX,
            out@ == cuboid_cells(*c, origin, x as int),
        decreases c.width + 1 - x,
    {
        let mut y: i64 = 0;
        while y <= c.height as i64
            invariant
                0 <= x <= c.width,
                0 <= y,
                (c.height >= 0 && y <= c.height + 1) || (c.height < 0 && y == 0),
                origin.x + c.width <= i32::MAX,
                origin.y + c.height <= i32::MAX,
                origin.z + c.length <= i32::MAX,
                out@ == cuboid_cells(*c, origin, x as int) + cuboid_layer(*c, origin, x as int, y as int),
            decreases c.height + 1 - y,
        {
            let mut z: i64 = 0;
            while z <= c.length as i64
                invariant
                    0 <= x <= c.width,
                    0 <= y <= c.height,
                    0 <= z,
                    (c.length >= 0 && z <= c.length + 1) || (c.length < 0 && z == 0),
                    origin.x + c.width <= i32::MAX,
                    origin.y + c.height <= i32::MAX,
                    origin.z + c.length <= i32::MAX,
                    out@ == cuboid_cells(*c, origin, x as int) + cuboid_layer(
                        *c,
                        origin,
                        x as int,
                        y as int,
                    ) + cuboid_row(*c, origin, x as int, y as int, z as int),
                decreases c.length + 1 - z,
            {
                let width = c.width as i64;
                let height = c.height as i64;
                let length = c.length as i64;
                let edge_xy = c.include_edges || (x != 0 && x != width) || (y != 0 && y != height);
                let edge_zy = c.include_edges || (z != 0 && z != length) || (y != 0 && y != height);
                let edge_xz = c.include_edges || (x != 0 && x != width) || (z != 0 && z != length);
                let shell = c.include_interior || x == 0 || x == width || y == 0 || y == height
                    || z == 0 || z == length;
                if edge_xy && edge_zy && edge_xz && shell {
                    out.push(
                        Vec3i {
                            x: (origin.x as i64 + x) as i32,
                            y: (origin.y as i64 + y) as i32,
                            z: (origin.z as i64 + z) as i32,
                        },
                    );
                }
                z += 1;
            }
            proof {
                assert(cuboid_row(*c, origin, x as int, y as int, z as int) == cuboid_row(
                    *c,
                    origin,
                    x as int,
                    y as int,
                    c.length + 1,
                ));
                assert(cuboid_layer(*c, origin, x as int, y + 1) == cuboid_layer(
                    *c,
                    origin,
                    x as int,
                    y as int,
                ) + cuboid_row(*c, origin, x as int, y as int, c.length + 1));
                assert(out@ =~= cuboid_cells(*c, origin, x as int) + cuboid_layer(
                    *c,
                    origin,
                    x as int,
                    y + 1,
                ));
            }
            y += 1;
        }
        proof {
            assert(cuboid_layer(*c, origin, x as int, y as int) == cuboid_layer(
                *c,
                origin,
                x as int,
                c.height + 1,
            ));
            assert(cuboid_cells(*c, origin, x + 1) == cuboid_cells(*c, origin, x as int)
                + cuboid_layer(*c, origin, x as int, c.height + 1));
            assert(out@ =~= cuboid_cells(*c, origin, x + 1));
        }
        x += 1;
    }
    proof {
        assert(cuboid_cells(*c, origin, x as int) == cuboid_cells(*c, origin, c.width + 1));
    }
    out
}

// ---------------------------------------------------------------------------
// Count on every layer
// ---------------------------------------------------------------------------
/// What a count-on-every-layer placement asks for next.
#[derive(Clone, Copy, Debug, PartialEq, Eq, Structural)]
pub enum LayerAction {
    /// Sample the count, and hand it back.
    Count,
    /// Pick a column, look in it for the `layer`-th top face down, place
    /// there if one is found, and hand back whether one was.
    Probe { layer: i32 },
    Done,
}

/// `CountOnEveryLayerPlacement`: pass after pass, one layer deeper each
/// time, a probe while the probes made in the pass are fewer than the count,
/// which is sampled afresh before every probe and once more to end the pass.
/// A pass that finds nothing ends the scan.
pub struct LayerScan {
    layer: i32,
    probes: i32,
    found_any: bool,
    probing: bool,
    finished: bool,
}

impl LayerScan {
    #[verifier::type_invariant]
    closed spec fn wf(self) -> bool {
        &&& 0 <= self.layer
        &&& 0 <= self.probes
        &&& self.probing ==> self.probes < i32::MAX && !self.finished
    }

    pub closed spec fn layer_view(self) -> i32 {
        self.layer
    }

    pub closed spec fn probes_view(self) -> i32 {
        self.probes
    }

    pub closed spec fn found_view(self) -> bool {
        self.found_any
    }

    pub closed spec fn probing_view(self) -> bool {
        self.probing
    }

    pub closed spec fn finished_view(self) -> bool {
        self.finished
    }

    /// What the scan asks for in its state.
    pub open spec fn action_of(self) -> LayerAction {
        if self.finished_view() {
            LayerAction::Done
        } else if self.probing_view() {
            LayerAction::Probe { layer: self.layer_view() }
        } else {
            LayerAction::Count
        }
    }

    /// A finished scan asks for nothing more; one mid-pass with a probe
    /// owed asks for a probe on its current layer; any other asks for the
    /// count.
    pub proof fn lemma_layer_action(self)
        ensures
            self.finished_view() ==> self.action_of() == LayerAction::Done,
            !self.finished_view() && self.probing_view() ==> self.action_of() == (LayerAction::Probe {
                layer: self.layer_view(),
            }),
            !self.finished_view() && !self.probing_view() ==> self.action_of() == LayerAction::Count,
    {
    }

    /// A scan about to sample the count for its first probe on layer zero.
    pub fn new() -> (scan: LayerScan)
        ensures
            scan.layer_view() == 0,
            scan.probes_view() == 0,
            !scan.found_view(),
            !scan.probing_view(),
            !scan.finished_view(),
    {
        LayerScan { layer: 0, probes: 0, found_any: false, probing: false, finished: false }
    }

    pub fn next_action(&self) -> (action: LayerAction)
        ensures
            action == self.action_of(),
    {
        if self.finished {
            LayerAction::Done
        } else if self.probing {
            LayerAction::Probe { layer: self.layer }
        } else {
            LayerAction::Count
        }
    }

    /// The layer the current pass looks on.
    pub fn layer(&self) -> (layer: i32)
        ensures
            layer == self.layer_view(),
    {
        self.layer
    }

    /// The probes the current pass has made.
    pub fn probes(&self) -> (probes: i32)
        ensures
            probes == self.probes_view(),
    {
        self.probes
    }

    /// Whether the current pass has found a face yet.
    pub fn found_any(&self) -> (found: bool)
        ensures
            found == self.found_view(),
    {
        self.found_any
    }

    /// Hands back the count sampled: a probe follows while the pass has made
    /// fewer probes than it; else the pass ends, and the scan with it unless
    /// the pass found something, in which case the next pass looks one
    /// layer deeper.
    pub fn counted(&mut self, count: i32)
        requires
            old(self).action_of() == LayerAction::Count,
            !(old(self).found_view() && old(self).layer_view() == i32::MAX && old(self).probes_view()
                >= count),
        ensures
            old(self).probes_view() < count ==> {
                &&& final(self).probing_view()
                &&& !final(self).finished_view()
                &&& final(self).layer_view() == old(self).layer_view()
                &&& final(self).probes_view() == old(self).probes_view()
                &&& final(self).found_view() == old(self).found_view()
            },
            old(self).probes_view() >= count && !old(self).found_view() ==> {
                &&& final(self).finished_view()
                &&& !final(self).probing_view()
                &&& final(self).layer_view() == old(self).layer_view()
                &&& final(self).probes_view() == old(self).probes_view()
                &&& final(self).found_view() == old(self).found_view()
            },
            old(self).probes_view() >= count && old(self).found_view() ==> {
                &&& !final(self).finished_view()
                &&& !final(self).probing_view()
                &&& final(self).layer_view() == old(self).layer_view() + 1
                &&& final(self).probes_view() == 0
                &&& !final(self).found_view()
            },
    {
        proof {
            use_type_invariant(&*self);
        }
        if self.probes < count {
            self.probing = true;
        } else if !self.found_any {
            self.finished = true;
        } else {
            self.layer = self.layer + 1;
            self.probes = 0;
            self.found_any = false;
        }
    }

    /// Hands back whether the probe found a face; the pass has made one more
    /// probe, and found something if this one did.
    pub fn probed(&mut self, found: bool)
        requires
            old(self).action_of() is Probe,
        ensures
            !final(self).probing_view(),
            !final(self).finished_view(),
            final(self).layer_view() == old(self).layer_view(),
            final(self).probes_view() == old(self).probes_view() + 1,
            final(self).found_view() == (old(self).found_view() || found),
    {
        proof {
            use_type_invariant(&*self);
        }
        self.probing = false;
        self.probes = self.probes + 1;
        self.found_any = self.found_any || found;
    }
}

} // verus!
