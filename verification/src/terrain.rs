//! Terrain meshes on the tile's regular lattice.
//!
//! A tile is split into `grid` by `grid` cells. The lattice vertices run
//! row-major from the south-west corner, and each cell is drawn as two
//! triangles split along the (row, col) to (row + 1, col + 1) diagonal.
use vstd::prelude::*;
use vstd::arithmetic::div_mod::{lemma_fundamental_div_mod, lemma_fundamental_div_mod_converse};
use crate::arith::{abs, lemma_nearest_bounds, lemma_nearest_is_of_the_value, nearest, nearest_of};
use crate::project::{BUFFER, EXTENT};

verus! {

/// Cells per tile side below the graded rungs.
pub const TERRAIN_GRID: u32 = 16;

/// Cells per tile side at (and past) the reference zoom.
pub const TERRAIN_GRID_DETAIL: u32 = 128;

/// The lattice resolution of zoom `z` against the reference zoom `z_ref`: the
/// detail grid at and past the reference, halved per rung below it, and never
/// coarser than the base grid.
pub open spec fn grid_at(z: int, z_ref: int) -> int {
    if z >= z_ref {
        TERRAIN_GRID_DETAIL as int
    } else if z_ref - z == 1 {
        TERRAIN_GRID_DETAIL as int / 2
    } else if z_ref - z == 2 {
        TERRAIN_GRID_DETAIL as int / 4
    } else {
        TERRAIN_GRID as int
    }
}

/// The lattice resolution of zoom `z` against the reference zoom `z_ref`.
pub fn grid_for(z: u8, z_ref: u8) -> (grid: u32)
    ensures
        grid == grid_at(z as int, z_ref as int),
{
    if z >= z_ref {
        return TERRAIN_GRID_DETAIL;
    }
    let below: u8 = z_ref - z;
    let rung: u32 = if below == 1 {
        TERRAIN_GRID_DETAIL / 2
    } else if below == 2 {
        TERRAIN_GRID_DETAIL / 4
    } else {
        TERRAIN_GRID
    };
    if rung < TERRAIN_GRID {
        TERRAIN_GRID
    } else {
        rung
    }
}

/// Every rung's grid divides the quantized extent, so cell borders quantize
/// exactly.
pub proof fn every_rung_divides_the_extent(z: int, z_ref: int)
    ensures
        EXTENT as int % grid_at(z, z_ref) == 0,
        TERRAIN_GRID <= grid_at(z, z_ref) <= TERRAIN_GRID_DETAIL,
{
    let g = grid_at(z, z_ref);
    assert(g == 128 || g == 64 || g == 32 || g == 16);
    assert(32768int % 128 == 0 && 32768int % 64 == 0 && 32768int % 32 == 0 && 32768int % 16 == 0);
}

/// The ladder is monotone: a finer zoom never has a coarser grid, and one rung
/// changes the grid at most twofold.
pub proof fn the_ladder_grades_one_rung_at_a_time(z: int, z_ref: int)
    ensures
        grid_at(z, z_ref) <= grid_at(z + 1, z_ref) <= 2 * grid_at(z, z_ref),
{
}

/// A triangulated mesh in tile-local quantized coordinates.
#[derive(Debug, Clone)]
pub struct TerrainMesh {
    /// Vertex X (quantized).
    pub x: Vec<u16>,
    /// Vertex Y (quantized).
    pub y: Vec<u16>,
    /// Vertex elevation in millimetres above the ellipsoid.
    pub z: Vec<i32>,
    /// Triangle indices, three per triangle.
    pub indices: Vec<u32>,
    /// Octahedral normals, two components per vertex.
    pub normals: Vec<i8>,
    /// Signed across-carriageway coordinate per vertex, empty when the mesh
    /// carries none.
    pub edge_across: Vec<i8>,
}

impl TerrainMesh {
    /// One position, elevation and normal per vertex, whole triangles, and
    /// every index naming a vertex.
    pub open spec fn well_formed(&self) -> bool {
        &&& self.y@.len() == self.x@.len()
        &&& self.z@.len() == self.x@.len()
        &&& self.normals@.len() == 2 * self.x@.len()
        &&& self.edge_across@.len() == 0 || self.edge_across@.len() == self.x@.len()
        &&& self.indices@.len() % 3 == 0
        &&& forall|k: int| 0 <= k < self.indices@.len() ==> (#[trigger] self.indices@[k]) < self.x@.len()
    }
}

/// The cells per side a requested grid stands for: at least one.
pub open spec fn cells(grid: int) -> int {
    if grid < 1 {
        1
    } else {
        grid
    }
}

/// The quantized coordinate of lattice line `i` of a tile of `g` cells: `i` of
/// `g` parts of the extent past the edge, to the nearest quantum.
pub open spec fn lattice_coord(g: int, i: int) -> int {
    BUFFER + nearest(i * EXTENT, g)
}

/// The X coordinates of the lattice, row-major.
pub open spec fn lattice_xs(g: int) -> Seq<int> {
    Seq::new(((g + 1) * (g + 1)) as nat, |k: int| lattice_coord(g, k % (g + 1)))
}

/// The Y coordinates of the lattice, row-major.
pub open spec fn lattice_ys(g: int) -> Seq<int> {
    Seq::new(((g + 1) * (g + 1)) as nat, |k: int| lattice_coord(g, k / (g + 1)))
}

/// The vertex at one corner (0..6) of the triangle pair of the cell at
/// (`row`, `col`), counter-clockwise with columns running east and rows north.
pub open spec fn cell_corner(g: int, row: int, col: int, corner: int) -> int {
    let tl = row * (g + 1) + col;
    if corner == 0 || corner == 3 {
        tl
    } else if corner == 1 {
        tl + 1
    } else if corner == 5 {
        tl + g + 1
    } else {
        tl + g + 2
    }
}

/// The triangle indices of the lattice: six per cell, cells row-major.
pub open spec fn lattice_triangles(g: int) -> Seq<int> {
    Seq::new(
        (6 * (g * g)) as nat,
        |k: int| cell_corner(g, (k / 6) / g, (k / 6) % g, k % 6),
    )
}

/// Whether machine integers and the mathematical sequence hold the same values.
pub open spec fn same_u16(v: Seq<u16>, s: Seq<int>) -> bool {
    v.len() == s.len() && forall|k: int| 0 <= k < v.len() ==> #[trigger] v[k] == s[k]
}

/// As [`same_u16`], for 32-bit indices.
pub open spec fn same_u32(v: Seq<u32>, s: Seq<int>) -> bool {
    v.len() == s.len() && forall|k: int| 0 <= k < v.len() ==> #[trigger] v[k] == s[k]
}

/// Row-major addressing: position (`row`, `col`) of rows `n` long.
proof fn lemma_row_major(n: int, row: int, col: int)
    requires
        0 <= col < n,
    ensures
        (row * n + col) / n == row,
        (row * n + col) % n == col,
{
    lemma_fundamental_div_mod_converse(row * n + col, n, row, col);
}

/// A lattice coordinate lies in the tile proper.
pub proof fn lemma_lattice_coord_bounds(g: int, i: int)
    requires
        1 <= g,
        0 <= i <= g,
    ensures
        BUFFER <= lattice_coord(g, i) <= BUFFER + EXTENT,
{
    assert(0 <= i * EXTENT <= EXTENT * g) by (nonlinear_arith)
        requires
            0 <= i <= g,
    ;
    lemma_nearest_bounds(i * EXTENT, g, 0, EXTENT as int);
}

fn lattice_line(g: u32, i: u32) -> (q: u16)
    requires
        1 <= g <= 26754,
        i <= g,
    ensures
        q == lattice_coord(g as int, i as int),
{
    proof {
        lemma_lattice_coord_bounds(g as int, i as int);
        assert(0 <= i * EXTENT <= 26754 * 32768) by (nonlinear_arith)
            requires
                0 <= i <= 26754,
                EXTENT == 32768,
        ;
    }
    let n: u32 = (2 * (i * EXTENT) + g) / (2 * g);
    (BUFFER + n) as u16
}

/// The X and Y coordinates of the lattice of `grid` cells per side.
pub(crate) fn lattice_positions(g: u32) -> (xy: (Vec<u16>, Vec<u16>))
    requires
        1 <= g,
        6 * (g * g) <= u32::MAX,
    ensures
        same_u16(xy.0@, lattice_xs(g as int)),
        same_u16(xy.1@, lattice_ys(g as int)),
{
    assert(g <= 26754) by (nonlinear_arith)
        requires
            6 * (g * g) <= u32::MAX,
    ;
    let n: u32 = g + 1;
    let mut x: Vec<u16> = Vec::new();
    let mut y: Vec<u16> = Vec::new();
    let mut row: u32 = 0;
    assert(0 * n == 0) by (nonlinear_arith);
    while row < n
        invariant
            1 <= g <= 26754,
            n == g + 1,
            row <= n,
            x@.len() == row * n,
            y@.len() == row * n,
            forall|k: int| 0 <= k < x@.len() ==> #[trigger] x@[k] == lattice_coord(g as int, k % (n as int)),
            forall|k: int| 0 <= k < y@.len() ==> #[trigger] y@[k] == lattice_coord(g as int, k / (n as int)),
        decreases n - row,
    {
        let mut col: u32 = 0;
        while col < n
            invariant
                1 <= g <= 26754,
                n == g + 1,
                row < n,
                col <= n,
                x@.len() == row * n + col,
                y@.len() == row * n + col,
                forall|k: int| 0 <= k < x@.len() ==> #[trigger] x@[k] == lattice_coord(g as int, k % (n as int)),
                forall|k: int| 0 <= k < y@.len() ==> #[trigger] y@[k] == lattice_coord(g as int, k / (n as int)),
            decreases n - col,
        {
            proof {
                lemma_row_major(n as int, row as int, col as int);
            }
            x.push(lattice_line(g, col));
            y.push(lattice_line(g, row));
            col = col + 1;
        }
        assert(row * n + n == (row + 1) * n) by (nonlinear_arith);
        row = row + 1;
    }
    assert(n * n == (g + 1) * (g + 1));
    (x, y)
}

/// The triangle indices of the lattice of `g` cells per side.
pub fn lattice_indices(g: u32) -> (indices: Vec<u32>)
    requires
        1 <= g,
        6 * (g * g) <= u32::MAX,
    ensures
        same_u32(indices@, lattice_triangles(g as int)),
{
    assert(g <= 26754) by (nonlinear_arith)
        requires
            6 * (g * g) <= u32::MAX,
    ;
    let n: u32 = g + 1;
    let mut indices: Vec<u32> = Vec::new();
    let mut row: u32 = 0;
    assert(0 * g == 0) by (nonlinear_arith);
    while row < g
        invariant
            1 <= g <= 26754,
            n == g + 1,
            row <= g,
            indices@.len() == 6 * (row * g),
            forall|k: int| 0 <= k < indices@.len() ==> #[trigger] indices@[k]
                == cell_corner(g as int, (k / 6) / (g as int), (k / 6) % (g as int), k % 6),
        decreases g - row,
    {
        let mut col: u32 = 0;
        while col < g
            invariant
                1 <= g <= 26754,
                n == g + 1,
                row < g,
                col <= g,
                indices@.len() == 6 * (row * g + col),
                forall|k: int| 0 <= k < indices@.len() ==> #[trigger] indices@[k]
                    == cell_corner(g as int, (k / 6) / (g as int), (k / 6) % (g as int), k % 6),
            decreases g - col,
        {
            proof {
                assert(0 <= row * n <= 26753 * 26755) by (nonlinear_arith)
                    requires
                        0 <= row <= 26753,
                        0 <= n <= 26755,
                ;
                assert((row + 1) * n == row * n + n) by (nonlinear_arith);
                lemma_row_major(g as int, row as int, col as int);
            }
            let tl: u32 = row * n + col;
            let tr: u32 = tl + 1;
            let bl: u32 = (row + 1) * n + col;
            let br: u32 = bl + 1;
            let ghost before = indices@;
            indices.push(tl);
            indices.push(tr);
            indices.push(br);
            indices.push(tl);
            indices.push(br);
            indices.push(bl);
            assert(row * (g + 1) == row * n);
            assert forall|k: int| 0 <= k < indices@.len() implies #[trigger] indices@[k]
                == cell_corner(g as int, (k / 6) / (g as int), (k / 6) % (g as int), k % 6) by {
                if k < before.len() {
                    assert(indices@[k] == before[k]);
                } else {
                    assert(k / 6 == row * g + col);
                }
            }
            col = col + 1;
        }
        assert(row * g + g == (row + 1) * g) by (nonlinear_arith);
        row = row + 1;
    }
    indices
}

/// Builds a flat mesh of `grid` by `grid` cells (at least one) spanning the
/// tile proper, every vertex on the ellipsoid with its normal straight up.
///
/// `grid` is bounded by what 32-bit triangle indices can count.
pub fn flat_mesh(grid: u32) -> (mesh: TerrainMesh)
    requires
        6 * (grid * grid) <= u32::MAX,
    ensures
        same_u16(mesh.x@, lattice_xs(cells(grid as int))),
        same_u16(mesh.y@, lattice_ys(cells(grid as int))),
        mesh.z@ == Seq::new(((cells(grid as int) + 1) * (cells(grid as int) + 1)) as nat, |k: int| 0i32),
        same_u32(mesh.indices@, lattice_triangles(cells(grid as int))),
        mesh.normals@ == Seq::new((2 * mesh.x@.len()) as nat, |k: int| 0i8),
        mesh.edge_across@ == Seq::<i8>::empty(),
{
    let g: u32 = if grid < 1 { 1 } else { grid };
    let (x, y) = lattice_positions(g);
    let mut z: Vec<i32> = Vec::new();
    let mut normals: Vec<i8> = Vec::new();
    let count: usize = x.len();
    let mut i: usize = 0;
    while i < count
        invariant
            i <= count,
            z@ == Seq::new(i as nat, |k: int| 0i32),
            normals@ == Seq::new((2 * i) as nat, |k: int| 0i8),
        decreases count - i,
    {
        z.push(0);
        normals.push(0);
        normals.push(0);
        i = i + 1;
    }
    let indices = lattice_indices(g);
    TerrainMesh { x, y, z, indices, normals, edge_across: Vec::new() }
}

/// Builds the mesh of `grid` by `grid` cells (at least one) on the same plan
/// lattice as [`flat_mesh`], carrying the given elevations and normals
/// row-major, and returns it with its lowest and highest elevation.
pub fn elevated_mesh(grid: u32, z: Vec<i32>, normals: Vec<i8>) -> (out: (TerrainMesh, i32, i32))
    requires
        6 * (grid * grid) <= u32::MAX,
        z@.len() == (cells(grid as int) + 1) * (cells(grid as int) + 1),
        normals@.len() == 2 * z@.len(),
    ensures
        same_u16(out.0.x@, lattice_xs(cells(grid as int))),
        same_u16(out.0.y@, lattice_ys(cells(grid as int))),
        same_u32(out.0.indices@, lattice_triangles(cells(grid as int))),
        out.0.z@ == z@,
        out.0.normals@ == normals@,
        out.0.edge_across@ == Seq::<i8>::empty(),
        z@.contains(out.1) && forall|k: int| 0 <= k < z@.len() ==> out.1 <= #[trigger] z@[k],
        z@.contains(out.2) && forall|k: int| 0 <= k < z@.len() ==> #[trigger] z@[k] <= out.2,
{
    let g: u32 = if grid < 1 { 1 } else { grid };
    let (x, y) = lattice_positions(g);
    let indices = lattice_indices(g);
    assert((g + 1) * (g + 1) >= 4) by (nonlinear_arith)
        requires
            g >= 1,
    ;
    let mut lo: i32 = z[0];
    let mut hi: i32 = z[0];
    let mut i: usize = 1;
    assert(z@.contains(lo)) by {
        assert(z@[0] == lo);
    }
    while i < z.len()
        invariant
            1 <= i <= z@.len(),
            z@.contains(lo),
            z@.contains(hi),
            forall|k: int| 0 <= k < i ==> lo <= #[trigger] z@[k] <= hi,
        decreases z@.len() - i,
    {
        if z[i] < lo {
            lo = z[i];
        }
        if z[i] > hi {
            hi = z[i];
        }
        i = i + 1;
    }
    (TerrainMesh { x, y, z, indices, normals, edge_across: Vec::new() }, lo, hi)
}

/// Where a triangle's corners turn counter-clockwise in plan: twice its signed
/// area.
pub open spec fn twice_area(ax: int, ay: int, bx: int, by: int, cx: int, cy: int) -> int {
    (bx - ax) * (cy - ay) - (by - ay) * (cx - ax)
}

/// The lattice mesh is closed over its own vertices: every triangle index
/// names a lattice vertex.
pub proof fn lattice_triangles_stay_on_the_lattice(g: int, k: int)
    requires
        1 <= g,
        0 <= k < 6 * (g * g),
    ensures
        0 <= lattice_triangles(g)[k] < (g + 1) * (g + 1),
{
    let cell = k / 6;
    let row = cell / g;
    let col = cell % g;
    assert(0 <= cell < g * g);
    lemma_fundamental_div_mod(cell, g);
    assert(0 <= col < g) by (nonlinear_arith)
        requires
            g >= 1,
            col == cell % g,
    ;
    assert(0 <= row < g) by (nonlinear_arith)
        requires
            cell == g * row + col,
            0 <= cell < g * g,
            0 <= col < g,
            g >= 1,
    ;
    assert(0 <= row * (g + 1) <= (g - 1) * (g + 1)) by (nonlinear_arith)
        requires
            0 <= row <= g - 1,
            g >= 1,
    ;
    assert((g - 1) * (g + 1) + g + g + 2 <= (g + 1) * (g + 1) + g) by (nonlinear_arith)
        requires
            g >= 1,
    ;
    assert((g - 1) * (g + 1) + (g - 1) + g + 2 < (g + 1) * (g + 1)) by (nonlinear_arith)
        requires
            g >= 1,
    ;
}

/// Lattice lines do not fall together on a grid no finer than the quantized
/// extent.
pub proof fn lattice_lines_are_apart(g: int, i: int)
    requires
        1 <= g <= EXTENT,
        0 <= i,
    ensures
        lattice_coord(g, i) < lattice_coord(g, i + 1),
{
    let a = 2 * (i * EXTENT) + g;
    let b = 2 * ((i + 1) * EXTENT) + g;
    assert(0 <= i * EXTENT && (i + 1) * EXTENT == i * EXTENT + EXTENT) by (nonlinear_arith)
        requires
            0 <= i,
    ;
    lemma_fundamental_div_mod(a, 2 * g);
    lemma_fundamental_div_mod(b, 2 * g);
    let (p, q) = (a / (2 * g), b / (2 * g));
    assert(p < q) by (nonlinear_arith)
        requires
            a == (2 * g) * p + a % (2 * g),
            b == (2 * g) * q + b % (2 * g),
            0 <= a % (2 * g),
            b % (2 * g) < 2 * g,
            b >= a + 2 * g,
            g >= 1,
    ;
}

/// Both triangles of every cell turn counter-clockwise and cover half the cell
/// each, on any grid no finer than the quantized extent.
pub proof fn lattice_triangles_face_up(g: int, row: int, col: int)
    requires
        1 <= g <= EXTENT,
        0 <= row < g,
        0 <= col < g,
    ensures
        ({
            let wide = lattice_coord(g, col + 1) - lattice_coord(g, col);
            let high = lattice_coord(g, row + 1) - lattice_coord(g, row);
            let x = |k: int| lattice_coord(g, cell_corner(g, row, col, k) % (g + 1));
            let y = |k: int| lattice_coord(g, cell_corner(g, row, col, k) / (g + 1));
            &&& twice_area(x(0), y(0), x(1), y(1), x(2), y(2)) == wide * high
            &&& twice_area(x(3), y(3), x(4), y(4), x(5), y(5)) == wide * high
            &&& wide * high > 0
        }),
{
    let n = g + 1;
    let wide = lattice_coord(g, col + 1) - lattice_coord(g, col);
    let high = lattice_coord(g, row + 1) - lattice_coord(g, row);
    lemma_row_major(n, row, col);
    lemma_row_major(n, row, col + 1);
    lemma_row_major(n, row + 1, col);
    lemma_row_major(n, row + 1, col + 1);
    assert((row + 1) * n == row * n + n) by (nonlinear_arith);
    lattice_lines_are_apart(g, col);
    lattice_lines_are_apart(g, row);
    assert(wide * high > 0) by (nonlinear_arith)
        requires
            wide > 0,
            high > 0,
    ;
    assert(0 * wide == 0 && high * 0 == 0) by (nonlinear_arith);
}

/// The lattice spans the tile proper exactly, on every grid, so the east edge
/// of one tile and the west edge of its neighbour (one extent further on) are
/// the same global positions.
pub proof fn neighbouring_tiles_share_their_edge(g: int, tile: int)
    requires
        1 <= g,
    ensures
        lattice_coord(g, 0) == BUFFER,
        lattice_coord(g, g) == BUFFER + EXTENT,
        tile * EXTENT + (lattice_coord(g, g) - BUFFER) == (tile + 1) * EXTENT + (lattice_coord(g, 0) - BUFFER),
{
    assert(0 * EXTENT == 0 && 0 * g == 0) by (nonlinear_arith);
    assert(g * EXTENT == EXTENT * g) by (nonlinear_arith);
    lemma_nearest_bounds(0 * EXTENT, g, 0, 0);
    lemma_nearest_bounds(g * EXTENT, g, EXTENT as int, EXTENT as int);
}

/// A coarser grid's lattice lines are lattice lines of every grid that refines
/// it, so the rungs of the ladder share their vertices.
pub proof fn coarser_lattices_nest(g: int, k: int, i: int)
    requires
        1 <= g,
        1 <= k,
        0 <= i,
    ensures
        lattice_coord(g * k, i * k) == lattice_coord(g, i),
{
    assert(g * k >= 1) by (nonlinear_arith)
        requires
            1 <= g,
            1 <= k,
    ;
    assert(((i * k) * EXTENT) * g == (i * EXTENT) * (g * k)) by (nonlinear_arith);
    lemma_nearest_is_of_the_value((i * k) * EXTENT, g * k, i * EXTENT, g);
}

/// Where a tile lies, each axis in a unit of which the tile's size is a whole
/// number.
#[derive(Clone, Copy, Debug, PartialEq, Eq, Structural)]
pub struct Frame {
    pub west: i64,
    pub south: i64,
    pub width: i64,
    pub height: i64,
}

/// The largest size of a tile in its units.
pub const FRAME_LIMIT: i64 = 0x1000_0000_0000;

/// How far from the origin a position may lie.
pub const POSITION_LIMIT: i64 = 0x4000_0000_0000_0000;

impl Frame {
    pub open spec fn fits(&self) -> bool {
        &&& 0 < self.width <= FRAME_LIMIT
        &&& 0 < self.height <= FRAME_LIMIT
        &&& -POSITION_LIMIT <= self.west <= POSITION_LIMIT
        &&& -POSITION_LIMIT <= self.south <= POSITION_LIMIT
    }
}

/// The cell a position falls in, and how far into it, of a tile that starts at
/// `from` and is `size` across. Cells are counted on past the tile. The offset
/// is in parts of a cell, `size` of them across it.
pub open spec fn cell_along(from: int, size: int, g: int, at: int) -> (int, int) {
    (((at - from) * g) / size, ((at - from) * g) % size)
}

/// The lattice cell of a position.
#[derive(Clone, Copy, Debug, PartialEq, Eq, Structural)]
pub struct Cell {
    pub col: i128,
    pub row: i128,
    /// Offsets from the south-west corner, in parts of the cell.
    pub dx: i64,
    pub dy: i64,
}

fn along(from: i64, size: i64, g: u32, at: i64) -> (out: (i128, i64))
    requires
        0 < size <= FRAME_LIMIT,
        -POSITION_LIMIT <= from <= POSITION_LIMIT,
        -POSITION_LIMIT <= at <= POSITION_LIMIT,
    ensures
        (out.0 as int, out.1 as int) == cell_along(from as int, size as int, g as int, at as int),
        0 <= out.1 < size,
{
    let off: i128 = at as i128 - from as i128;
    proof {
        assert(-0x8000_0000_0000_0000 * 0x1_0000_0000 <= off * g <= 0x8000_0000_0000_0000 * 0x1_0000_0000)
            by (nonlinear_arith)
            requires
                -0x8000_0000_0000_0000 <= off <= 0x8000_0000_0000_0000,
                0 <= g <= 0x1_0000_0000,
        ;
    }
    let n: i128 = off * g as i128;
    let d: i128 = size as i128;
    let (q, r): (i128, i128) = if n >= 0 {
        (n / d, n % d)
    } else {
        // Round down, so that the offset is never negative.
        let m: i128 = (-n - 1) / d;
        proof {
            lemma_fundamental_div_mod(-n - 1, d as int);
            let rest = (-n - 1) % (d as int);
            assert(n == (-m - 1) * d + (d - 1 - rest)) by (nonlinear_arith)
                requires
                    -n - 1 == d * m + rest,
            ;
            lemma_fundamental_div_mod_converse(n as int, d as int, -m - 1, d - 1 - rest);
            assert(0 <= m <= -n - 1) by (nonlinear_arith)
                requires
                    -n - 1 == d * m + rest,
                    0 <= rest < d,
                    0 <= -n - 1,
                    d >= 1,
            ;
            assert((-m - 1) * d == n - (d - 1 - rest));
        }
        let k: i128 = -m - 1;
        (k, n - k * d)
    };
    (q, r as i64)
}

/// The cell of the tile's lattice that a position falls in. Positions in the
/// margin or in a neighbouring tile fall in the cells that continue it.
pub fn cell_at(f: &Frame, grid: u32, x: i64, y: i64) -> (out: Cell)
    requires
        f.fits(),
        -POSITION_LIMIT <= x <= POSITION_LIMIT,
        -POSITION_LIMIT <= y <= POSITION_LIMIT,
    ensures
        (out.col as int, out.dx as int) == cell_along(f.west as int, f.width as int, cells(grid as int), x as int),
        (out.row as int, out.dy as int) == cell_along(f.south as int, f.height as int, cells(grid as int), y as int),
        0 <= out.dx < f.width,
        0 <= out.dy < f.height,
{
    let g: u32 = if grid < 1 { 1 } else { grid };
    let (col, dx) = along(f.west, f.width, g, x);
    let (row, dy) = along(f.south, f.height, g, y);
    Cell { col, row, dx, dy }
}

/// The height of the rendered surface inside one cell, in millimetres times
/// the cell size: planar over each of the two triangles of the cell, at `dx`
/// and `dy` parts from its south-west corner. Corners are named (row, col).
pub open spec fn cell_height(step: int, dx: int, dy: int, e00: int, e01: int, e10: int, e11: int) -> int {
    if dx >= dy {
        e00 * step + (e01 - e00) * dx + (e11 - e01) * dy
    } else {
        e00 * step + (e11 - e10) * dx + (e10 - e00) * dy
    }
}

/// The height of the rendered surface at a cell's offsets, scaled by the
/// number of parts on both axes.
pub open spec fn height_in(f: Frame, dx: int, dy: int, e00: int, e01: int, e10: int, e11: int) -> int {
    cell_height(f.width * f.height, dx * f.height, dy * f.width, e00, e01, e10, e11)
}

/// The furthest from zero an elevation may lie: sixty-eight kilometres, in
/// micrometres.
pub const ELEVATION_LIMIT: i64 = 0x10_0000_0000;

/// Height of the rendered terrain surface at a position, scaled by the tile's
/// width and height. `e00`, `e01`, `e10` and `e11` are the elevations of the
/// corners of its [`cell_at`], named (row, col).
pub fn surface_height(
    f: &Frame,
    grid: u32,
    x: i64,
    y: i64,
    e00: i64,
    e01: i64,
    e10: i64,
    e11: i64,
) -> (h: i128)
    requires
        f.fits(),
        -POSITION_LIMIT <= x <= POSITION_LIMIT,
        -POSITION_LIMIT <= y <= POSITION_LIMIT,
        -ELEVATION_LIMIT <= e00 <= ELEVATION_LIMIT,
        -ELEVATION_LIMIT <= e01 <= ELEVATION_LIMIT,
        -ELEVATION_LIMIT <= e10 <= ELEVATION_LIMIT,
        -ELEVATION_LIMIT <= e11 <= ELEVATION_LIMIT,
    ensures
        h == height_in(
            *f,
            cell_along(f.west as int, f.width as int, cells(grid as int), x as int).1,
            cell_along(f.south as int, f.height as int, cells(grid as int), y as int).1,
            e00 as int,
            e01 as int,
            e10 as int,
            e11 as int,
        ),
{
    let at: Cell = cell_at(f, grid, x, y);
    let (w, l): (i128, i128) = (f.width as i128, f.height as i128);
    let (i, j): (i128, i128) = (at.dx as i128, at.dy as i128);
    proof {
        lemma_area_fits(w as int, l as int);
        lemma_area_fits(i as int, l as int);
        lemma_area_fits(j as int, w as int);
    }
    let (s, dx, dy): (i128, i128, i128) = (w * l, i * l, j * w);
    let a: i128 = e00 as i128;
    let b: i128 = e01 as i128;
    let c: i128 = e10 as i128;
    let d: i128 = e11 as i128;
    proof {
        lemma_product_fits(a as int, s as int);
        lemma_product_fits(b - a, dx as int);
        lemma_product_fits(d - b, dy as int);
        lemma_product_fits(d - c, dx as int);
        lemma_product_fits(c - a, dy as int);
    }
    if dx >= dy {
        a * s + (b - a) * dx + (d - b) * dy
    } else {
        a * s + (d - c) * dx + (c - a) * dy
    }
}

proof fn lemma_area_fits(a: int, b: int)
    requires
        0 <= a <= FRAME_LIMIT,
        0 <= b <= FRAME_LIMIT,
    ensures
        0 <= a * b <= 0x100_0000_0000_0000_0000_0000,
{
    assert(0 <= a * b <= 0x1000_0000_0000 * 0x1000_0000_0000) by (nonlinear_arith)
        requires
            0 <= a <= 0x1000_0000_0000,
            0 <= b <= 0x1000_0000_0000,
    ;
}

proof fn lemma_product_fits(e: int, d: int)
    requires
        -2 * ELEVATION_LIMIT <= e <= 2 * ELEVATION_LIMIT,
        0 <= d <= 0x100_0000_0000_0000_0000_0000,
    ensures
        -0x2000_0000_0000_0000_0000_0000_0000_0000 <= e * d <= 0x2000_0000_0000_0000_0000_0000_0000_0000,
{
    assert(-0x2000_0000_0000_0000_0000_0000_0000_0000 <= e * d
        <= 0x2000_0000_0000_0000_0000_0000_0000_0000) by (nonlinear_arith)
        requires
            -0x20_0000_0000 <= e <= 0x20_0000_0000,
            0 <= d <= 0x100_0000_0000_0000_0000_0000,
    ;
}

/// Where a lattice line of a tile lies in the world, in `g` parts of a unit.
pub open spec fn line_at(from: int, size: int, g: int, i: int) -> int {
    from * g + i * size
}

/// The rendered height at a position as a tile finds it: the cell it falls in,
/// with the corners sampled from a field over the world.
pub open spec fn rendered(f: Frame, g: int, x: int, y: int, field: spec_fn(int, int) -> int) -> int {
    let (col, dx) = cell_along(f.west as int, f.width as int, g, x);
    let (row, dy) = cell_along(f.south as int, f.height as int, g, y);
    let (x0, x1) = (line_at(f.west as int, f.width as int, g, col), line_at(f.west as int, f.width as int, g, col + 1));
    let (y0, y1) = (line_at(f.south as int, f.height as int, g, row), line_at(f.south as int, f.height as int, g, row + 1));
    height_in(f, dx, dy, field(x0, y0), field(x1, y0), field(x0, y1), field(x1, y1))
}

proof fn lemma_along_every_tile(from: int, size: int, g: int, at: int, k: int)
    requires
        0 < size,
    ensures
        ({
            let (i, d) = cell_along(from, size, g, at);
            let (j, e) = cell_along(from + k * size, size, g, at);
            &&& d == e
            &&& j == i - k * g
            &&& line_at(from + k * size, size, g, j) == line_at(from, size, g, i)
            &&& line_at(from + k * size, size, g, j + 1) == line_at(from, size, g, i + 1)
        }),
{
    let n = (at - from) * g;
    let (i, d) = (n / size, n % size);
    lemma_fundamental_div_mod(n, size);
    assert((at - (from + k * size)) * g == (i - k * g) * size + d) by (nonlinear_arith)
        requires
            (at - from) * g == size * i + d,
    ;
    lemma_fundamental_div_mod_converse((at - (from + k * size)) * g, size, i - k * g, d);
    assert((from + k * size) * g + (i - k * g) * size == from * g + i * size) by (nonlinear_arith);
    assert((from + k * size) * g + (i - k * g + 1) * size == from * g + (i + 1) * size) by (nonlinear_arith);
}

/// The lattice is global: a tile only anchors it, so every tile of one size
/// renders the same height at a position, its own or another's.
pub proof fn every_tile_renders_the_same_height(
    f: Frame,
    other: Frame,
    east: int,
    north: int,
    g: int,
    x: int,
    y: int,
    field: spec_fn(int, int) -> int,
)
    requires
        f.fits(),
        other.width == f.width,
        other.height == f.height,
        other.west == f.west + east * f.width,
        other.south == f.south + north * f.height,
    ensures
        rendered(other, g, x, y, field) == rendered(f, g, x, y, field),
{
    lemma_along_every_tile(f.west as int, f.width as int, g, x, east);
    lemma_along_every_tile(f.south as int, f.height as int, g, y, north);
}

/// The surface passes through the lattice: at a corner of the cell its height
/// is that corner's elevation.
pub proof fn the_surface_meets_the_lattice(step: int, e00: int, e01: int, e10: int, e11: int)
    requires
        step > 0,
    ensures
        cell_height(step, 0, 0, e00, e01, e10, e11) == e00 * step,
        cell_height(step, step, 0, e00, e01, e10, e11) == e01 * step,
        cell_height(step, 0, step, e00, e01, e10, e11) == e10 * step,
        cell_height(step, step, step, e00, e01, e10, e11) == e11 * step,
{
    assert(e00 * step + (e01 - e00) * step == e01 * step) by (nonlinear_arith);
    assert(e01 * step + (e11 - e01) * step == e11 * step) by (nonlinear_arith);
    assert(e00 * step + (e10 - e00) * step == e10 * step) by (nonlinear_arith);
    assert(e10 * step + (e11 - e10) * step == e11 * step) by (nonlinear_arith);
    assert((e01 - e00) * 0 == 0 && (e11 - e01) * 0 == 0 && (e11 - e10) * 0 == 0 && (e10 - e00) * 0 == 0)
        by (nonlinear_arith);
}

/// The surface is continuous inside a cell: on the diagonal the two triangles
/// agree.
pub proof fn the_two_triangles_agree_on_the_diagonal(step: int, d: int, e00: int, e01: int, e10: int, e11: int)
    ensures
        e00 * step + (e01 - e00) * d + (e11 - e01) * d == e00 * step + (e11 - e10) * d + (e10 - e00) * d,
{
    assert((e01 - e00) * d + (e11 - e01) * d == (e11 - e10) * d + (e10 - e00) * d) by (nonlinear_arith);
}

/// The surface is continuous across cells, and so across tiles: along a shared
/// border its height depends on the two border corners alone, whichever of the
/// two cells it is read from.
pub proof fn the_surface_is_continuous_across_cells(
    step: int,
    d: int,
    e00: int,
    e01: int,
    e10: int,
    e11: int,
    far0: int,
    far1: int,
)
    requires
        0 <= d <= step,
    ensures
        cell_height(step, step, d, far0, e00, far1, e10) == cell_height(step, 0, d, e00, e01, e10, e11),
        cell_height(step, d, step, far0, far1, e00, e01) == cell_height(step, d, 0, e00, e01, e10, e11),
{
    assert(far0 * step + (e00 - far0) * step == e00 * step) by (nonlinear_arith);
    assert(far0 * step + (e00 - far0) * step + (e01 - e00) * d == e00 * step + (e01 - e00) * d)
        by (nonlinear_arith);
    assert((e11 - e10) * 0 == 0 && (e01 - e00) * 0 == 0 && (e11 - e01) * 0 == 0) by (nonlinear_arith);
    assert(far0 * step + (e01 - e00) * d + (e00 - far0) * step == e00 * step + (e01 - e00) * d)
        by (nonlinear_arith);
    if d == 0 {
        assert((e10 - e00) * d == 0 && (e11 - e01) * d == 0) by (nonlinear_arith)
            requires
                d == 0,
        ;
    }
    if d == step {
        assert(far0 * step + (far1 - far0) * step + (e01 - far1) * step == e01 * step) by (nonlinear_arith);
        assert(e00 * step + (e01 - e00) * step == e01 * step) by (nonlinear_arith);
    }
}

// ---------------------------------------------------------------------------
// Normals.
// ---------------------------------------------------------------------------

/// The sum of a direction's components, signs left out.
pub open spec fn taxicab(x: int, y: int, z: int) -> int {
    abs(x) + abs(y) + abs(z)
}

/// What a direction's first two components become on the unfolded octahedron,
/// in parts of the taxicab length: the lower half is reflected over the edges
/// of the upper one.
pub open spec fn unfolded(x: int, y: int, z: int) -> (int, int) {
    let sum = taxicab(x, y, z);
    if z >= 0 {
        (x, y)
    } else {
        (
            if x >= 0 {
                sum - abs(y)
            } else {
                abs(y) - sum
            },
            if y >= 0 {
                sum - abs(x)
            } else {
                abs(x) - sum
            },
        )
    }
}

/// Steps of an octahedral code from its middle to its edge.
pub const OCTAHEDRAL_STEPS: i128 = 127;

/// The octahedral code of a direction. No direction at all has a code of its
/// own.
pub open spec fn octahedral(x: int, y: int, z: int) -> (int, int) {
    let sum = taxicab(x, y, z);
    let (u, v) = unfolded(x, y, z);
    if sum == 0 {
        (0, OCTAHEDRAL_STEPS as int)
    } else {
        (nearest(OCTAHEDRAL_STEPS * u, sum), nearest(OCTAHEDRAL_STEPS * v, sum))
    }
}

fn octahedral_step(num: i64, sum: u64) -> (q: i8)
    requires
        0 < sum <= 0x1_8000_0000,
        -sum <= num <= sum,
    ensures
        q == nearest(OCTAHEDRAL_STEPS * num, sum as int),
        -127 <= q <= 127,
{
    proof {
        lemma_nearest_bound(num as int, sum as int);
    }
    nearest_of(OCTAHEDRAL_STEPS * num as i128, sum) as i8
}

proof fn lemma_nearest_bound(num: int, sum: int)
    requires
        0 < sum,
        -sum <= num <= sum,
    ensures
        -127 <= nearest(OCTAHEDRAL_STEPS * num, sum) <= 127,
        abs(2 * OCTAHEDRAL_STEPS * num - 2 * sum * nearest(OCTAHEDRAL_STEPS * num, sum)) <= sum,
{
    let a = if num >= 0 { 127 * num } else { 127 * (-num) };
    let d = 2 * sum;
    let q = (2 * a + sum) / d;
    lemma_fundamental_div_mod(2 * a + sum, d);
    assert(0 <= q < 128) by (nonlinear_arith)
        requires
            2 * a + sum == d * q + (2 * a + sum) % d,
            0 <= (2 * a + sum) % d < d,
            d == 2 * sum,
            0 <= a <= 127 * sum,
            sum > 0,
    ;
    assert(d * q == 2 * sum * q) by (nonlinear_arith)
        requires
            d == 2 * sum,
    ;
    assert(2 * sum * (-q) == -(2 * sum * q)) by (nonlinear_arith);
    assert(2 * OCTAHEDRAL_STEPS * num == 254 * num) by (nonlinear_arith);
    let w = nearest(OCTAHEDRAL_STEPS * num, sum);
    if num >= 0 {
        assert(w == q);
        assert(2 * sum * w == d * q);
    } else {
        assert(w == -q);
        assert(2 * sum * w == -(d * q));
    }
}

fn size(v: i32) -> (out: i64)
    ensures
        out == abs(v as int),
{
    if v < 0 {
        -(v as i64)
    } else {
        v as i64
    }
}

/// The octahedral code of a surface normal. Only its direction counts, so any
/// scale will do.
pub fn encode_octahedral(nx: i32, ny: i32, nz: i32) -> (out: (i8, i8))
    ensures
        (out.0 as int, out.1 as int) == octahedral(nx as int, ny as int, nz as int),
{
    let (ax, ay): (i64, i64) = (size(nx), size(ny));
    let sum: i64 = ax + ay + size(nz);
    if sum == 0 {
        return (0, 127);
    }
    let u: i64 = if nz >= 0 {
        nx as i64
    } else if nx >= 0 {
        sum - ay
    } else {
        ay - sum
    };
    let v: i64 = if nz >= 0 {
        ny as i64
    } else if ny >= 0 {
        sum - ax
    } else {
        ax - sum
    };
    (octahedral_step(u, sum as u64), octahedral_step(v, sum as u64))
}

/// A code is the nearest one there is: it stands within half a step of the
/// direction it names.
pub proof fn a_code_is_within_half_a_step(x: int, y: int, z: int)
    requires
        taxicab(x, y, z) > 0,
    ensures
        ({
            let sum = taxicab(x, y, z);
            let (u, v) = unfolded(x, y, z);
            let code = octahedral(x, y, z);
            &&& abs(2 * OCTAHEDRAL_STEPS * u - 2 * sum * code.0) <= sum
            &&& abs(2 * OCTAHEDRAL_STEPS * v - 2 * sum * code.1) <= sum
            &&& -127 <= code.0 <= 127
            &&& -127 <= code.1 <= 127
        }),
{
    let (u, v) = unfolded(x, y, z);
    lemma_nearest_bound(u, taxicab(x, y, z));
    lemma_nearest_bound(v, taxicab(x, y, z));
}

/// A normal straight up and one straight down have the codes of the middle and
/// of a corner.
pub proof fn up_is_the_middle_and_down_a_corner(z: int)
    ensures
        z > 0 ==> octahedral(0, 0, z) == (0int, 0int),
        z < 0 ==> octahedral(0, 0, z) == (127int, 127int),
{
    if z > 0 {
        lemma_nearest_bound(0, z);
        assert(z / (2 * z) == 0) by (nonlinear_arith)
            requires
                z > 0,
        ;
    }
    if z < 0 {
        let s = -z;
        lemma_nearest_bound(s, s);
        assert((2 * (127 * s) + s) / (2 * s) == 127) by (nonlinear_arith)
            requires
                s > 0,
        ;
    }
}

/// Only the direction counts: a normal of any length has the same code.
pub proof fn a_code_names_a_direction(x: int, y: int, z: int, k: int)
    requires
        k > 0,
    ensures
        octahedral(k * x, k * y, k * z) == octahedral(x, y, z),
{
    lemma_abs_scaled(x, k);
    lemma_abs_scaled(y, k);
    lemma_abs_scaled(z, k);
    let sum = taxicab(x, y, z);
    assert(taxicab(k * x, k * y, k * z) == k * sum) by (nonlinear_arith)
        requires
            taxicab(k * x, k * y, k * z) == k * abs(x) + k * abs(y) + k * abs(z),
            sum == abs(x) + abs(y) + abs(z),
    ;
    if sum == 0 {
        assert(k * sum == 0) by (nonlinear_arith)
            requires
                sum == 0,
        ;
    } else {
        assert(k * sum > 0) by (nonlinear_arith)
            requires
                k > 0,
                sum > 0,
        ;
        let (u, v) = unfolded(x, y, z);
        let (ku, kv) = unfolded(k * x, k * y, k * z);
        assert(k * (sum - abs(y)) == k * sum - k * abs(y)) by (nonlinear_arith);
        assert(k * (sum - abs(x)) == k * sum - k * abs(x)) by (nonlinear_arith);
        assert(k * (abs(y) - sum) == k * abs(y) - k * sum) by (nonlinear_arith);
        assert(k * (abs(x) - sum) == k * abs(x) - k * sum) by (nonlinear_arith);
        assert(ku == k * u && kv == k * v);
        lemma_nearest_scaled(u, sum, k);
        lemma_nearest_scaled(v, sum, k);
    }
}

proof fn lemma_abs_scaled(a: int, k: int)
    requires
        k > 0,
    ensures
        abs(k * a) == k * abs(a),
        k * a >= 0 <==> a >= 0,
{
    assert(k * a >= 0 <==> a >= 0) by (nonlinear_arith)
        requires
            k > 0,
    ;
    assert(k * (-a) == -(k * a)) by (nonlinear_arith);
}

proof fn lemma_nearest_scaled(a: int, b: int, k: int)
    requires
        b > 0,
        k > 0,
    ensures
        nearest(OCTAHEDRAL_STEPS * (k * a), k * b) == nearest(OCTAHEDRAL_STEPS * a, b),
{
    let m = if a >= 0 { 127 * a } else { 127 * (-a) };
    assert(127 * (k * a) >= 0 <==> 127 * a >= 0) by (nonlinear_arith)
        requires
            k > 0,
    ;
    assert(127 * (k * a) == k * (127 * a)) by (nonlinear_arith);
    assert(k * (127 * (-a)) == -(k * (127 * a))) by (nonlinear_arith);
    let n = 2 * m + b;
    let d = 2 * b;
    assert(2 * (k * m) + k * b == k * n) by (nonlinear_arith)
        requires
            n == 2 * m + b,
    ;
    assert(2 * (k * b) == k * d) by (nonlinear_arith)
        requires
            d == 2 * b,
    ;
    lemma_fundamental_div_mod(n, d);
    let (q, r) = (n / d, n % d);
    assert(k * n == q * (k * d) + k * r) by (nonlinear_arith)
        requires
            n == d * q + r,
    ;
    assert(0 <= k * r < k * d) by (nonlinear_arith)
        requires
            0 <= r < d,
            k > 0,
    ;
    lemma_fundamental_div_mod_converse(k * n, k * d, q, k * r);
}

/// The lattice has the detail grid at the reference zoom and past it, half of it
/// a rung below, a quarter two rungs below, and the base grid from there on.
pub proof fn the_grid_halves_rung_by_rung(z: int, z_ref: int)
    ensures
        z >= z_ref ==> grid_at(z, z_ref) == 128,
        z == z_ref - 1 ==> grid_at(z, z_ref) == 64,
        z == z_ref - 2 ==> grid_at(z, z_ref) == 32,
        z <= z_ref - 3 ==> grid_at(z, z_ref) == 16,
{
}

/// A lattice line lies within half a quantum of its share of the extent.
pub proof fn a_lattice_line_is_its_share_of_the_extent(g: int, i: int)
    requires
        1 <= g,
    ensures
        -g <= 2 * ((lattice_coord(g, i) - 16384) * g) - 2 * (i * 32768) <= g,
{
    crate::arith::the_nearest_is_off_by_half_at_most(i * 32768, g);
    let q = lattice_coord(g, i) - 16384;
    assert(q == nearest(i * 32768, g));
    assert(2 * (g * q) == 2 * (q * g)) by (nonlinear_arith);
}

/// The lattice is laid out row by row from the south-west: the vertex in a row
/// and a column stands on that row's line and that column's.
pub proof fn a_vertex_stands_where_its_lines_meet(g: int, row: int, col: int)
    requires
        1 <= g,
        0 <= row <= g,
        0 <= col <= g,
    ensures
        ({
            let k = row * (g + 1) + col;
            &&& 0 <= k < lattice_xs(g).len()
            &&& lattice_xs(g).len() == (g + 1) * (g + 1)
            &&& lattice_ys(g).len() == (g + 1) * (g + 1)
            &&& lattice_xs(g)[k] == lattice_coord(g, col)
            &&& lattice_ys(g)[k] == lattice_coord(g, row)
        }),
{
    let k = row * (g + 1) + col;
    lemma_row_major(g + 1, row, col);
    assert(0 <= k < (g + 1) * (g + 1)) by (nonlinear_arith)
        requires
            k == row * (g + 1) + col,
            0 <= row <= g,
            0 <= col <= g,
            1 <= g,
    ;
}

/// Every cell is two triangles over its own four corners, that share the
/// diagonal from its south-west corner to its north-east one.
pub proof fn every_cell_is_two_triangles(g: int, row: int, col: int)
    requires
        1 <= g,
        0 <= row < g,
        0 <= col < g,
    ensures
        ({
            let t = lattice_triangles(g);
            let at = 6 * (row * g + col);
            let sw = row * (g + 1) + col;
            let nw = (row + 1) * (g + 1) + col;
            &&& t.len() == 6 * (g * g)
            &&& 0 <= at
            &&& at + 5 < t.len()
            &&& t[at] == sw && t[at + 1] == sw + 1 && t[at + 2] == nw + 1
            &&& t[at + 3] == sw && t[at + 4] == nw + 1 && t[at + 5] == nw
        }),
{
    let cell = row * g + col;
    lemma_row_major(g, row, col);
    assert(0 <= cell < g * g) by (nonlinear_arith)
        requires
            cell == row * g + col,
            0 <= row < g,
            0 <= col < g,
    ;
    assert((row + 1) * (g + 1) == row * (g + 1) + g + 1) by (nonlinear_arith);
    let at = 6 * cell;
    assert(at / 6 == cell && (at + 1) / 6 == cell && (at + 2) / 6 == cell);
    assert((at + 3) / 6 == cell && (at + 4) / 6 == cell && (at + 5) / 6 == cell);
    assert(at % 6 == 0 && (at + 1) % 6 == 1 && (at + 2) % 6 == 2);
    assert((at + 3) % 6 == 3 && (at + 4) % 6 == 4 && (at + 5) % 6 == 5);
}

/// A position is its cells and the parts into the last one: together they make
/// up how far it is from where the tile starts.
pub proof fn a_position_is_its_cell_and_the_parts_into_it(from: int, size: int, g: int, at: int)
    requires
        0 < size,
    ensures
        ({
            let (i, d) = cell_along(from, size, g, at);
            &&& 0 <= d < size
            &&& i * size + d == (at - from) * g
        }),
{
    let a = (at - from) * g;
    vstd::arithmetic::div_mod::lemma_fundamental_div_mod(a, size);
    assert((a / size) * size == size * (a / size)) by (nonlinear_arith);
    vstd::arithmetic::div_mod::lemma_mod_bound(a, size);
}

/// The surface inside a cell is planar over each of its two triangles: the
/// height is the mean of the triangle's three corners, each weighed by the share
/// of the triangle across from it.
pub proof fn the_surface_is_planar_over_each_triangle(step: int, dx: int, dy: int, e00: int, e01: int, e10: int, e11: int)
    ensures
        dx >= dy ==> cell_height(step, dx, dy, e00, e01, e10, e11) == e00 * (step - dx) + e01 * (dx - dy) + e11 * dy,
        dx < dy ==> cell_height(step, dx, dy, e00, e01, e10, e11) == e00 * (step - dy) + e10 * (dy - dx) + e11 * dx,
{
    assert(e00 * step + (e01 - e00) * dx + (e11 - e01) * dy == e00 * (step - dx) + e01 * (dx - dy) + e11 * dy)
        by (nonlinear_arith);
    assert(e00 * step + (e11 - e10) * dx + (e10 - e00) * dy == e00 * (step - dy) + e10 * (dy - dx) + e11 * dx)
        by (nonlinear_arith);
}

/// An unfolded direction folds back to itself: what is short of the taxicab
/// length is its height, and where that is negative the two components were
/// traded for what is short of it.
pub proof fn an_unfolded_direction_folds_back(x: int, y: int, z: int)
    ensures
        ({
            let (u, v) = unfolded(x, y, z);
            let sum = abs(x) + abs(y) + abs(z);
            &&& sum - abs(u) - abs(v) == z
            &&& z >= 0 ==> u == x && v == y
            &&& z < 0 ==> x == if u >= 0 {
                sum - abs(v)
            } else {
                abs(v) - sum
            } || x == 0
            &&& z < 0 ==> y == if v >= 0 {
                sum - abs(u)
            } else {
                abs(u) - sum
            } || y == 0
            &&& z < 0 ==> abs(x) == sum - abs(v) && abs(y) == sum - abs(u)
        }),
{
}

} // verus!
