//! Breakline-constrained terrain.
//!
//! The detail mesh keeps every vertex of the regular lattice and takes the
//! bench contact lines in as constraint edges. Where no line passes, the cell
//! keeps the diagonal of the plain lattice, so drape and drawn ground agree
//! away from the benches. A triangulator works the plan out; the faces it
//! finds are then drawn counter-clockwise, slivers left out.
use vstd::arithmetic::div_mod::{lemma_fundamental_div_mod, lemma_fundamental_div_mod_converse};
use vstd::prelude::*;

use crate::project::{BUFFER, EXTENT};
use crate::terrain::{cells, lattice_positions, lattice_xs, lattice_ys, same_u16, TerrainMesh};
use crate::tile_build::geometry::Corner;

verus! {

/// A breakline segment, clipped to the tile and quantized.
#[derive(Clone, Copy, Debug, PartialEq, Eq, Structural)]
pub struct Breakline {
    pub a: Corner,
    pub b: Corner,
}

/// The breaklines among the first `n` that did not collapse to a point.
pub open spec fn constraints(lines: Seq<Breakline>, n: int) -> Seq<Breakline>
    decreases n,
{
    if n <= 0 {
        Seq::empty()
    } else if lines[n - 1].a == lines[n - 1].b {
        constraints(lines, n - 1)
    } else {
        constraints(lines, n - 1).push(lines[n - 1])
    }
}

/// The row or column of cells a quantized coordinate falls in, of `g` across
/// the tile proper. Outside it the number is negative, or `g` and more.
pub open spec fn cell_of(q: int, g: int) -> int {
    ((q - BUFFER) * g) / EXTENT as int
}

pub open spec fn low(a: u16, b: u16) -> int {
    if a < b {
        a as int
    } else {
        b as int
    }
}

pub open spec fn high(a: u16, b: u16) -> int {
    if a < b {
        b as int
    } else {
        a as int
    }
}

/// Whether a breakline's bounding box touches a cell.
pub open spec fn touches(line: Breakline, g: int, row: int, col: int) -> bool {
    &&& cell_of(low(line.a.y, line.b.y), g) <= row <= cell_of(high(line.a.y, line.b.y), g)
    &&& cell_of(low(line.a.x, line.b.x), g) <= col <= cell_of(high(line.a.x, line.b.x), g)
}

/// Whether any of the first `n` breaklines touches a cell.
pub open spec fn crossed(lines: Seq<Breakline>, n: int, g: int, row: int, col: int) -> bool {
    exists|i: int| 0 <= i < n && touches(#[trigger] lines[i], g, row, col)
}

/// The diagonals of the first `k` cells, row by row, that no breakline touches.
/// A diagonal runs from a cell's first lattice vertex to the opposite one.
pub open spec fn diagonals(lines: Seq<Breakline>, g: int, k: int) -> Seq<(int, int)>
    decreases k,
{
    if k <= 0 {
        Seq::empty()
    } else {
        let row = (k - 1) / g;
        let col = (k - 1) % g;
        if crossed(lines, lines.len() as int, g, row, col) {
            diagonals(lines, g, k - 1)
        } else {
            diagonals(lines, g, k - 1).push(
                (row * (g + 1) + col, (row + 1) * (g + 1) + col + 1),
            )
        }
    }
}

/// What a triangulator is to work out.
pub struct Plan {
    /// The lattice vertices, to be inserted in this order.
    pub xs: Vec<u16>,
    pub ys: Vec<u16>,
    /// Pairs of lattice vertices to join where nothing is in the way.
    pub diagonals: Vec<(u32, u32)>,
    /// Lines to put in, splitting what they cross.
    pub constraints: Vec<Breakline>,
}

pub open spec fn pairs_are(v: Seq<(u32, u32)>, s: Seq<(int, int)>) -> bool {
    v.len() == s.len() && forall|i: int|
        0 <= i < v.len() ==> (#[trigger] v[i]).0 == s[i].0 && v[i].1 == s[i].1
}

fn cell_index(q: u16, g: u32) -> (cell: i64)
    requires
        1 <= g <= 26754,
    ensures
        cell == cell_of(q as int, g as int),
{
    let d: i64 = q as i64 - BUFFER as i64;
    proof {
        assert(-16384 * 26754 <= d * g <= 49151 * 26754) by (nonlinear_arith)
            requires
                -16384 <= d <= 49151,
                1 <= g <= 26754,
        ;
    }
    let v: i64 = d * (g as i64);
    if v >= 0 {
        v / (EXTENT as i64)
    } else {
        let up: i64 = (-v - 1) / (EXTENT as i64) + 1;
        proof {
            let e = EXTENT as int;
            let t = -v - 1;
            lemma_fundamental_div_mod(t, e);
            let r = t % e;
            assert(v == -(t / e + 1) * e + (e - 1 - r)) by (nonlinear_arith)
                requires
                    t == e * (t / e) + r,
                    t == -v - 1,
            ;
            lemma_fundamental_div_mod_converse(v as int, e, -(t / e + 1), e - 1 - r);
        }
        -up
    }
}

fn kept(lines: &[Breakline]) -> (out: Vec<Breakline>)
    ensures
        out@ == constraints(lines@, lines.len() as int),
{
    let mut out: Vec<Breakline> = Vec::new();
    let mut i: usize = 0;
    while i < lines.len()
        invariant
            i <= lines.len(),
            out@ == constraints(lines@, i as int),
        decreases lines.len() - i,
    {
        if lines[i].a != lines[i].b {
            out.push(lines[i]);
        }
        i = i + 1;
    }
    out
}

/// Row-major addressing of `g` by `g` cells.
proof fn lemma_cell(g: int, row: int, col: int)
    requires
        0 <= row < g,
        0 <= col < g,
    ensures
        0 <= row * g + col < g * g,
        (row * g + col) / g == row,
        (row * g + col) % g == col,
{
    lemma_fundamental_div_mod_converse(row * g + col, g, row, col);
    assert(row * g + col < g * g && 0 <= row * g) by (nonlinear_arith)
        requires
            0 <= row < g,
            0 <= col < g,
    ;
}

/// Marks the cells one breakline touches.
fn mark(marks: &mut Vec<bool>, line: &Breakline, g: u32)
    requires
        1 <= g <= 26754,
        old(marks).len() == g * g,
    ensures
        final(marks).len() == g * g,
        forall|k: int|
            0 <= k < g * g ==> #[trigger] final(marks)[k] == (old(marks)[k] || touches(
                *line,
                g as int,
                k / (g as int),
                k % (g as int),
            )),
{
    let (y0, y1): (u16, u16) = if line.a.y < line.b.y {
        (line.a.y, line.b.y)
    } else {
        (line.b.y, line.a.y)
    };
    let (x0, x1): (u16, u16) = if line.a.x < line.b.x {
        (line.a.x, line.b.x)
    } else {
        (line.b.x, line.a.x)
    };
    let r0: i64 = cell_index(y0, g);
    let r1: i64 = cell_index(y1, g);
    let c0: i64 = cell_index(x0, g);
    let c1: i64 = cell_index(x1, g);
    let top: i64 = if r1 < g as i64 - 1 {
        r1
    } else {
        g as i64 - 1
    };
    let east: i64 = if c1 < g as i64 - 1 {
        c1
    } else {
        g as i64 - 1
    };
    let mut r: i64 = if r0 > 0 {
        r0
    } else {
        0
    };
    let ghost first = r as int;
    let ghost gi = g as int;
    while r <= top
        invariant
            1 <= g <= 26754,
            gi == g,
            marks.len() == g * g,
            old(marks).len() == g * g,
            0 <= first <= r,
            top < g,
            first == if r0 > 0 {
                r0 as int
            } else {
                0
            },
            top == if r1 < g - 1 {
                r1 as int
            } else {
                g - 1
            },
            east == if c1 < g - 1 {
                c1 as int
            } else {
                g - 1
            },
            r0 == cell_of(low(line.a.y, line.b.y), gi),
            r1 == cell_of(high(line.a.y, line.b.y), gi),
            c0 == cell_of(low(line.a.x, line.b.x), gi),
            c1 == cell_of(high(line.a.x, line.b.x), gi),
            forall|k: int|
                0 <= k < g * g ==> #[trigger] marks[k] == (old(marks)[k] || (touches(
                    *line,
                    gi,
                    k / gi,
                    k % gi,
                ) && k / gi < r)),
        decreases top - r + 1,
    {
        let mut c: i64 = if c0 > 0 {
            c0
        } else {
            0
        };
        while c <= east
            invariant
                1 <= g <= 26754,
                gi == g,
                marks.len() == g * g,
                old(marks).len() == g * g,
                0 <= r <= top < g,
                r0 <= r <= r1,
                east < g,
                east <= c1,
                0 <= c,
                c0 <= c,
                r0 == cell_of(low(line.a.y, line.b.y), gi),
                r1 == cell_of(high(line.a.y, line.b.y), gi),
                c0 == cell_of(low(line.a.x, line.b.x), gi),
                c1 == cell_of(high(line.a.x, line.b.x), gi),
                forall|k: int|
                    0 <= k < g * g ==> #[trigger] marks[k] == (old(marks)[k] || (touches(
                        *line,
                        gi,
                        k / gi,
                        k % gi,
                    ) && (k / gi < r || (k / gi == r && k % gi < c)))),
            decreases east - c + 1,
        {
            proof {
                lemma_cell(gi, r as int, c as int);
                assert(gi * gi <= 26754 * 26754) by (nonlinear_arith)
                    requires
                        1 <= gi <= 26754,
                ;
            }
            let at: usize = (r * (g as i64) + c) as usize;
            let ghost before = marks@;
            marks.set(at, true);
            proof {
                assert forall|k: int| 0 <= k < g * g implies #[trigger] marks[k] == (old(marks)[k]
                    || (touches(*line, gi, k / gi, k % gi) && (k / gi < r || (k / gi == r && k % gi
                    < c + 1)))) by {
                    if k != at {
                        assert(marks[k] == before[k]);
                        if k / gi == r && k % gi == c {
                            lemma_fundamental_div_mod(k, gi);
                            assert(gi * (k / gi) == (k / gi) * gi) by (nonlinear_arith);
                        }
                    }
                }
            }
            c = c + 1;
        }
        proof {
            assert forall|k: int| 0 <= k < g * g implies #[trigger] marks[k] == (old(marks)[k] || (
            touches(*line, gi, k / gi, k % gi) && k / gi < r + 1)) by {
                lemma_fundamental_div_mod(k, gi);
            }
        }
        r = r + 1;
    }
    proof {
        assert forall|k: int| 0 <= k < g * g implies #[trigger] marks[k] == (old(marks)[k]
            || touches(*line, gi, k / gi, k % gi)) by {
            lemma_fundamental_div_mod(k, gi);
            assert(k / gi < gi) by (nonlinear_arith)
                requires
                    0 <= k < gi * gi,
                    gi >= 1,
                    k == gi * (k / gi) + k % gi,
                    0 <= k % gi,
            ;
        }
    }
}

/// Plans the constrained mesh of one tile, or nothing when no breakline is
/// left: the plain lattice is exact then.
pub fn plan(grid: u32, lines: &[Breakline]) -> (out: Option<Plan>)
    requires
        6 * (cells(grid as int) * cells(grid as int)) <= u32::MAX,
    ensures
        out is None <==> constraints(lines@, lines.len() as int).len() == 0,
        out matches Some(p) ==> {
            let g = cells(grid as int);
            &&& same_u16(p.xs@, lattice_xs(g))
            &&& same_u16(p.ys@, lattice_ys(g))
            &&& p.constraints@ == constraints(lines@, lines.len() as int)
            &&& pairs_are(p.diagonals@, diagonals(p.constraints@, g, g * g))
        },
{
    let g: u32 = if grid < 1 {
        1
    } else {
        grid
    };
    let ghost gi = g as int;
    assert(g <= 26754) by (nonlinear_arith)
        requires
            6 * (g * g) <= u32::MAX,
    ;
    let lines: Vec<Breakline> = kept(lines);
    if lines.len() == 0 {
        return None;
    }
    assert(0 <= gi * gi <= 26754 * 26754) by (nonlinear_arith)
        requires
            0 <= gi <= 26754,
    ;
    let total: u32 = g * g;
    let mut marks: Vec<bool> = Vec::new();
    let mut m: u32 = 0;
    while m < total
        invariant
            m <= total,
            marks.len() == m,
            forall|k: int| 0 <= k < m ==> !(#[trigger] marks[k]),
        decreases total - m,
    {
        marks.push(false);
        m = m + 1;
    }
    let mut i: usize = 0;
    while i < lines.len()
        invariant
            1 <= g <= 26754,
            gi == g,
            total == g * g,
            i <= lines.len(),
            marks.len() == total,
            forall|k: int|
                0 <= k < total ==> #[trigger] marks[k] == crossed(
                    lines@,
                    i as int,
                    gi,
                    k / gi,
                    k % gi,
                ),
        decreases lines.len() - i,
    {
        let ghost before = marks@;
        mark(&mut marks, &lines[i], g);
        proof {
            assert forall|k: int| 0 <= k < total implies #[trigger] marks[k] == crossed(
                lines@,
                i + 1,
                gi,
                k / gi,
                k % gi,
            ) by {
                assert(before[k] == crossed(lines@, i as int, gi, k / gi, k % gi));
                if before[k] {
                    let w = choose|w: int|
                        0 <= w < i && touches(#[trigger] lines@[w], gi, k / gi, k % gi);
                    assert(touches(lines@[w], gi, k / gi, k % gi));
                }
                if touches(lines@[i as int], gi, k / gi, k % gi) {
                    assert(crossed(lines@, i + 1, gi, k / gi, k % gi));
                }
            }
        }
        i = i + 1;
    }
    let mut joined: Vec<(u32, u32)> = Vec::new();
    let mut k: u32 = 0;
    while k < total
        invariant
            1 <= g <= 26754,
            gi == g,
            total == g * g,
            total <= 26754 * 26754,
            k <= total,
            marks.len() == total,
            forall|j: int|
                0 <= j < total ==> #[trigger] marks[j] == crossed(
                    lines@,
                    lines.len() as int,
                    gi,
                    j / gi,
                    j % gi,
                ),
            pairs_are(joined@, diagonals(lines@, gi, k as int)),
        decreases total - k,
    {
        if !marks[k as usize] {
            let row: u32 = k / g;
            let col: u32 = k % g;
            proof {
                lemma_fundamental_div_mod(k as int, gi);
                assert(row < gi) by (nonlinear_arith)
                    requires
                        k < gi * gi,
                        gi >= 1,
                        k == gi * row + col,
                        0 <= col,
                ;
                assert(0 <= row * (gi + 1) <= 26753 * 26755) by (nonlinear_arith)
                    requires
                        0 <= row < gi,
                        gi <= 26754,
                ;
                assert((row + 1) * (gi + 1) == row * (gi + 1) + gi + 1) by (nonlinear_arith);
            }
            joined.push((row * (g + 1) + col, (row + 1) * (g + 1) + col + 1));
        }
        k = k + 1;
    }
    let (xs, ys): (Vec<u16>, Vec<u16>) = lattice_positions(g);
    Some(Plan { xs, ys, diagonals: joined, constraints: lines })
}

/// A face of a triangulation, by its vertices.
#[derive(Clone, Copy, Debug, PartialEq, Eq, Structural)]
pub struct Face {
    pub a: u32,
    pub b: u32,
    pub c: u32,
}

/// Twice the signed area of a face, positive when it runs counter-clockwise.
pub open spec fn area2(xs: Seq<u16>, ys: Seq<u16>, a: int, b: int, c: int) -> int {
    (xs[b] - xs[a]) * (ys[c] - ys[a]) - (ys[b] - ys[a]) * (xs[c] - xs[a])
}

/// The triangle indices of the first `n` faces: counter-clockwise ones as they
/// are, clockwise ones turned round, collapsed ones left out.
pub open spec fn drawn(xs: Seq<u16>, ys: Seq<u16>, faces: Seq<Face>, n: int) -> Seq<u32>
    decreases n,
{
    if n <= 0 {
        Seq::empty()
    } else {
        let f = faces[n - 1];
        let before = drawn(xs, ys, faces, n - 1);
        let area = area2(xs, ys, f.a as int, f.b as int, f.c as int);
        if area == 0 {
            before
        } else if area > 0 {
            before.push(f.a).push(f.b).push(f.c)
        } else {
            before.push(f.a).push(f.c).push(f.b)
        }
    }
}

fn turn(xs: &Vec<u16>, ys: &Vec<u16>, f: Face) -> (area: i64)
    requires
        ys.len() == xs.len(),
        f.a < xs.len(),
        f.b < xs.len(),
        f.c < xs.len(),
    ensures
        area == area2(xs@, ys@, f.a as int, f.b as int, f.c as int),
{
    let (ax, ay): (i64, i64) = (xs[f.a as usize] as i64, ys[f.a as usize] as i64);
    let (bx, by): (i64, i64) = (xs[f.b as usize] as i64, ys[f.b as usize] as i64);
    let (cx, cy): (i64, i64) = (xs[f.c as usize] as i64, ys[f.c as usize] as i64);
    proof {
        lemma_product(bx - ax, cy - ay);
        lemma_product(by - ay, cx - ax);
    }
    (bx - ax) * (cy - ay) - (by - ay) * (cx - ax)
}

proof fn lemma_product(u: int, v: int)
    requires
        -65535 <= u <= 65535,
        -65535 <= v <= 65535,
    ensures
        -65535 * 65535 <= u * v <= 65535 * 65535,
{
    assert(-65535 * 65535 <= u * v <= 65535 * 65535) by (nonlinear_arith)
        requires
            -65535 <= u <= 65535,
            -65535 <= v <= 65535,
    ;
}

/// Draws the mesh of a triangulation's vertices and faces, or nothing when no
/// face is left or the heights are not `finite`.
pub fn draw(
    x: Vec<u16>,
    y: Vec<u16>,
    z: Vec<i32>,
    normals: Vec<i8>,
    faces: &[Face],
    finite: bool,
) -> (out: Option<TerrainMesh>)
    requires
        y.len() == x.len(),
        z.len() == x.len(),
        normals.len() == 2 * x.len(),
        forall|i: int|
            0 <= i < faces.len() ==> (#[trigger] faces[i]).a < x.len() && faces[i].b < x.len()
                && faces[i].c < x.len(),
    ensures
        out is None <==> drawn(x@, y@, faces@, faces.len() as int).len() == 0 || !finite,
        out matches Some(m) ==> {
            &&& m.well_formed()
            &&& m.x@ == x@
            &&& m.y@ == y@
            &&& m.z@ == z@
            &&& m.normals@ == normals@
            &&& m.indices@ == drawn(x@, y@, faces@, faces.len() as int)
            &&& m.edge_across@.len() == 0
        },
{
    let mut indices: Vec<u32> = Vec::new();
    let mut i: usize = 0;
    while i < faces.len()
        invariant
            i <= faces.len(),
            y.len() == x.len(),
            forall|k: int|
                0 <= k < faces.len() ==> (#[trigger] faces[k]).a < x.len() && faces[k].b < x.len()
                    && faces[k].c < x.len(),
            indices@ == drawn(x@, y@, faces@, i as int),
            indices.len() % 3 == 0,
            forall|k: int| 0 <= k < indices.len() ==> #[trigger] indices[k] < x.len(),
        decreases faces.len() - i,
    {
        let f: Face = faces[i];
        let area: i64 = turn(&x, &y, f);
        if area > 0 {
            indices.push(f.a);
            indices.push(f.b);
            indices.push(f.c);
        } else if area < 0 {
            indices.push(f.a);
            indices.push(f.c);
            indices.push(f.b);
        }
        i = i + 1;
    }
    if indices.len() == 0 || !finite {
        return None;
    }
    Some(TerrainMesh { x, y, z, indices, normals, edge_across: Vec::new() })
}

/// Every triangle drawn runs counter-clockwise and has an area.
pub proof fn every_triangle_turns_left(xs: Seq<u16>, ys: Seq<u16>, faces: Seq<Face>, n: int, t: int)
    requires
        0 <= n,
        0 <= t,
        3 * t + 2 < drawn(xs, ys, faces, n).len(),
    ensures
        area2(
            xs,
            ys,
            drawn(xs, ys, faces, n)[3 * t] as int,
            drawn(xs, ys, faces, n)[3 * t + 1] as int,
            drawn(xs, ys, faces, n)[3 * t + 2] as int,
        ) > 0,
    decreases n,
{
    if n > 0 {
        let before = drawn(xs, ys, faces, n - 1);
        lemma_whole_triangles(xs, ys, faces, n - 1);
        let f = faces[n - 1];
        if 3 * t + 2 < before.len() {
            every_triangle_turns_left(xs, ys, faces, n - 1, t);
        } else {
            assert(3 * t == before.len());
            let (ax, ay) = (xs[f.a as int] as int, ys[f.a as int] as int);
            let (bx, by) = (xs[f.b as int] as int, ys[f.b as int] as int);
            let (cx, cy) = (xs[f.c as int] as int, ys[f.c as int] as int);
            assert((cx - ax) * (by - ay) - (cy - ay) * (bx - ax) == -((bx - ax) * (cy - ay) - (by
                - ay) * (cx - ax))) by (nonlinear_arith);
        }
    }
}

proof fn lemma_whole_triangles(xs: Seq<u16>, ys: Seq<u16>, faces: Seq<Face>, n: int)
    requires
        0 <= n,
    ensures
        drawn(xs, ys, faces, n).len() % 3 == 0,
    decreases n,
{
    if n > 0 {
        lemma_whole_triangles(xs, ys, faces, n - 1);
    }
}

/// A cell keeps its diagonal exactly when no breakline touches it.
pub proof fn untouched_cells_keep_their_diagonal(
    lines: Seq<Breakline>,
    g: int,
    row: int,
    col: int,
)
    requires
        1 <= g,
        0 <= row < g,
        0 <= col < g,
    ensures
        diagonals(lines, g, g * g).contains(
            (row * (g + 1) + col, (row + 1) * (g + 1) + col + 1),
        ) <==> !crossed(lines, lines.len() as int, g, row, col),
{
    lemma_cell(g, row, col);
    lemma_diagonals(lines, g, g * g, row, col);
}

proof fn lemma_diagonals(lines: Seq<Breakline>, g: int, k: int, row: int, col: int)
    requires
        1 <= g,
        0 <= k <= g * g,
        0 <= row < g,
        0 <= col < g,
    ensures
        diagonals(lines, g, k).contains((row * (g + 1) + col, (row + 1) * (g + 1) + col + 1)) <==> (
        row * g + col < k && !crossed(lines, lines.len() as int, g, row, col)),
    decreases k,
{
    lemma_cell(g, row, col);
    if k > 0 {
        lemma_diagonals(lines, g, k - 1, row, col);
        let r = (k - 1) / g;
        let c = (k - 1) % g;
        let d = (row * (g + 1) + col, (row + 1) * (g + 1) + col + 1);
        let e = (r * (g + 1) + c, (r + 1) * (g + 1) + c + 1);
        lemma_fundamental_div_mod(k - 1, g);
        assert(g * r == r * g) by (nonlinear_arith);
        let before = diagonals(lines, g, k - 1);
        let after = diagonals(lines, g, k);
        if d.0 == e.0 {
            lemma_fundamental_div_mod_converse(d.0, g + 1, row, col);
            lemma_fundamental_div_mod_converse(d.0, g + 1, r, c);
        }
        if before.contains(d) {
            let i = choose|i: int| 0 <= i < before.len() && before[i] == d;
            assert(after[i] == d);
        }
        if after.contains(d) && !before.contains(d) {
            let i = choose|i: int| 0 <= i < after.len() && after[i] == d;
            if i < before.len() {
                assert(before[i] == d);
            }
            assert(d == e);
        }
        if row * g + col == k - 1 && !crossed(lines, lines.len() as int, g, row, col) {
            assert(r == row && c == col);
            assert(after[before.len() as int] == d);
        }
    }
}

/// Every breakline with a length is put in, and nothing else is.
pub proof fn every_breakline_with_a_length_is_put_in(lines: Seq<Breakline>, n: int)
    requires
        0 <= n <= lines.len(),
    ensures
        forall|i: int| 0 <= i < n && (#[trigger] lines[i]).a != lines[i].b ==> constraints(lines, n).contains(lines[i]),
        forall|k: int|
            0 <= k < constraints(lines, n).len() ==> (#[trigger] constraints(lines, n)[k]).a != constraints(lines, n)[k].b
                && lines.contains(constraints(lines, n)[k]),
    decreases n,
{
    if n > 0 {
        every_breakline_with_a_length_is_put_in(lines, n - 1);
        let rest = constraints(lines, n - 1);
        let all = constraints(lines, n);
        if lines[n - 1].a != lines[n - 1].b {
            assert(all[rest.len() as int] == lines[n - 1]);
        }
        assert forall|i: int| 0 <= i < n && (#[trigger] lines[i]).a != lines[i].b implies all.contains(lines[i]) by {
            if i < n - 1 {
                assert(rest.contains(lines[i]));
                let k = choose|k: int| 0 <= k < rest.len() && rest[k] == lines[i];
                assert(all[k] == lines[i]);
            }
        }
        assert forall|k: int| 0 <= k < all.len() implies (#[trigger] all[k]).a != all[k].b && lines.contains(all[k]) by {
            if k < rest.len() {
                assert(all[k] == rest[k]);
            } else {
                assert(lines[n - 1] == all[k]);
            }
        }
    }
}

/// A cell is that share of the tile proper its number says.
pub proof fn a_cell_is_its_share_of_the_tile(q: int, g: int)
    requires
        1 <= g,
    ensures
        cell_of(q, g) * 32768 <= (q - 16384) * g < (cell_of(q, g) + 1) * 32768,
{
}

/// A breakline touches every cell that holds a point between its two ends.
pub proof fn a_breakline_touches_the_cells_between_its_ends(line: Breakline, g: int, x: int, y: int)
    requires
        1 <= g,
        (line.a.x <= x <= line.b.x) || (line.b.x <= x <= line.a.x),
        (line.a.y <= y <= line.b.y) || (line.b.y <= y <= line.a.y),
    ensures
        touches(line, g, cell_of(y, g), cell_of(x, g)),
{
    lemma_cells_in_order(low(line.a.x, line.b.x), x, g);
    lemma_cells_in_order(x, high(line.a.x, line.b.x), g);
    lemma_cells_in_order(low(line.a.y, line.b.y), y, g);
    lemma_cells_in_order(y, high(line.a.y, line.b.y), g);
}

proof fn lemma_cells_in_order(a: int, b: int, g: int)
    requires
        1 <= g,
        a <= b,
    ensures
        cell_of(a, g) <= cell_of(b, g),
{
    let u = (a - BUFFER) * g;
    let v = (b - BUFFER) * g;
    assert(u <= v) by (nonlinear_arith)
        requires
            u == (a - BUFFER) * g,
            v == (b - BUFFER) * g,
            a <= b,
            g >= 1,
    ;
}

/// A breakline touches no cell past either of its ends.
pub proof fn a_breakline_touches_no_cell_past_its_ends(line: Breakline, g: int, row: int, col: int)
    requires
        1 <= g,
        touches(line, g, row, col),
    ensures
        cell_of(line.a.x as int, g) <= col || cell_of(line.b.x as int, g) <= col,
        cell_of(line.a.x as int, g) >= col || cell_of(line.b.x as int, g) >= col,
        cell_of(line.a.y as int, g) <= row || cell_of(line.b.y as int, g) <= row,
        cell_of(line.a.y as int, g) >= row || cell_of(line.b.y as int, g) >= row,
{
}

/// Every face with an area is drawn: its three corners are a triangle of the
/// mesh.
pub proof fn every_face_with_an_area_is_drawn(xs: Seq<u16>, ys: Seq<u16>, faces: Seq<Face>, n: int, i: int)
    requires
        0 <= i < n <= faces.len(),
        (xs[faces[i].b as int] - xs[faces[i].a as int]) * (ys[faces[i].c as int] - ys[faces[i].a as int]) != (
        ys[faces[i].b as int] - ys[faces[i].a as int]) * (xs[faces[i].c as int] - xs[faces[i].a as int]),
    ensures
        exists|t: int| #[trigger] is_triangle(drawn(xs, ys, faces, n), t, faces[i]),
    decreases n,
{
    let f = faces[i];
    let before = drawn(xs, ys, faces, n - 1);
    let out = drawn(xs, ys, faces, n);
    lemma_whole_triangles(xs, ys, faces, n - 1);
    if i < n - 1 {
        every_face_with_an_area_is_drawn(xs, ys, faces, n - 1, i);
        let t = choose|t: int| #[trigger] is_triangle(before, t, f);
        assert(out[3 * t] == before[3 * t]);
        assert(out[3 * t + 1] == before[3 * t + 1]);
        assert(out[3 * t + 2] == before[3 * t + 2]);
        assert(is_triangle(out, t, f));
    } else {
        let t = before.len() as int / 3;
        assert(3 * t == before.len());
        assert(out[3 * t] == f.a);
        assert(is_triangle(out, t, f));
    }
}

/// Whether the `t`th triangle has the corners of a face, either way round.
pub open spec fn is_triangle(out: Seq<u32>, t: int, f: Face) -> bool {
    &&& 0 <= 3 * t
    &&& 3 * t + 2 < out.len()
    &&& out[3 * t] == f.a
    &&& (out[3 * t + 1] == f.b && out[3 * t + 2] == f.c) || (out[3 * t + 1] == f.c && out[3 * t + 2] == f.b)
}

} // verus!
