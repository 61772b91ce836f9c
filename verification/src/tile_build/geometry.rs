//! Quantized feature geometry and its flat form: all corners in one run, with
//! offsets where a line, a ring or a polygon begins.
use vstd::prelude::*;

verus! {

/// A position on the tile's quantized grid.
#[derive(Clone, Copy, Debug, PartialEq, Eq, Structural)]
pub struct Corner {
    pub x: u16,
    pub y: u16,
}

/// A ring of a polygon.
#[derive(Debug)]
pub struct Ring {
    pub corners: Vec<Corner>,
    /// Whether the last corner repeats the first.
    pub closed: bool,
}

/// An area with holes.
#[derive(Debug)]
pub struct Polygon {
    pub exterior: Ring,
    pub interiors: Vec<Ring>,
}

/// A feature's geometry on the tile's quantized grid.
#[derive(Debug)]
pub enum Geometry {
    Point(Corner),
    MultiPoint(Vec<Corner>),
    LineString(Vec<Corner>),
    MultiLineString(Vec<Vec<Corner>>),
    Polygon(Polygon),
    MultiPolygon(Vec<Polygon>),
    /// A kind that tiles do not carry.
    Other,
}

/// A geometry laid flat.
pub struct Flat {
    /// Which member of the geometry union this is.
    pub kind: u8,
    pub xs: Vec<u16>,
    pub ys: Vec<u16>,
    /// Where each line or ring begins among the corners, and the end.
    pub starts: Option<Vec<u32>>,
    /// Where each polygon begins among the rings, and the end.
    pub polygons: Option<Vec<u32>>,
}

/// What a geometry laid flat holds.
pub struct FlatView {
    pub kind: u8,
    pub corners: Seq<Corner>,
    pub starts: Option<Seq<u32>>,
    pub polygons: Option<Seq<u32>>,
}

pub const POINT_GEOMETRY: u8 = 1;

pub const LINE_GEOMETRY: u8 = 2;

pub const POLYGON_GEOMETRY: u8 = 3;

pub const MESH_GEOMETRY: u8 = 4;

pub open spec fn xs_of(corners: Seq<Corner>) -> Seq<u16> {
    corners.map_values(|c: Corner| c.x)
}

pub open spec fn ys_of(corners: Seq<Corner>) -> Seq<u16> {
    corners.map_values(|c: Corner| c.y)
}

/// Runs of corners one after the other.
pub open spec fn joined(runs: Seq<Seq<Corner>>) -> Seq<Corner>
    decreases runs.len(),
{
    if runs.len() == 0 {
        Seq::empty()
    } else {
        joined(runs.drop_last()) + runs.last()
    }
}

/// Where each run begins among the joined corners, and the end.
pub open spec fn bounds_of(runs: Seq<Seq<Corner>>) -> Seq<int>
    decreases runs.len(),
{
    if runs.len() == 0 {
        seq![0]
    } else {
        bounds_of(runs.drop_last()).push(joined(runs).len() as int)
    }
}

/// Numbers as they are stored.
pub open spec fn stored(numbers: Seq<int>) -> Seq<u32> {
    numbers.map_values(|n: int| n as u32)
}

/// A ring's corners without the repeated closing one.
pub open spec fn open_ring(ring: Ring) -> Seq<Corner> {
    if ring.closed && ring.corners@.len() > 1 {
        ring.corners@.drop_last()
    } else {
        ring.corners@
    }
}

/// The rings of a polygon up to its `n`-th hole.
pub open spec fn rings_of(p: Polygon, n: int) -> Seq<Seq<Corner>>
    decreases n,
{
    if n <= 0 {
        seq![open_ring(p.exterior)]
    } else {
        rings_of(p, n - 1).push(open_ring(p.interiors[n - 1]))
    }
}

/// The rings of the first `n` polygons.
pub open spec fn all_rings(polygons: Seq<Polygon>, n: int) -> Seq<Seq<Corner>>
    decreases n,
{
    if n <= 0 {
        Seq::empty()
    } else {
        all_rings(polygons, n - 1) + rings_of(
            polygons[n - 1],
            polygons[n - 1].interiors@.len() as int,
        )
    }
}

/// How many rings stand before each of the first `n` polygons, and after them.
pub open spec fn ring_counts(polygons: Seq<Polygon>, n: int) -> Seq<int>
    decreases n,
{
    if n <= 0 {
        seq![0]
    } else {
        ring_counts(polygons, n - 1).push(all_rings(polygons, n).len() as int)
    }
}

/// Points laid flat; nothing when there is none.
pub open spec fn flat_points(corners: Seq<Corner>) -> Option<FlatView> {
    if corners.len() == 0 {
        None
    } else {
        Some(FlatView { kind: POINT_GEOMETRY, corners, starts: None, polygons: None })
    }
}

/// Lines laid flat; nothing when they have fewer than two corners in all. One
/// line alone needs no offsets.
pub open spec fn flat_lines(lines: Seq<Seq<Corner>>) -> Option<FlatView> {
    if joined(lines).len() < 2 {
        None
    } else {
        Some(
            FlatView {
                kind: LINE_GEOMETRY,
                corners: joined(lines),
                starts: if lines.len() > 1 {
                    Some(stored(bounds_of(lines)))
                } else {
                    None
                },
                polygons: None,
            },
        )
    }
}

/// Polygons laid flat as open rings; nothing when no corner is left. One ring
/// alone needs no ring offsets, one polygon alone no polygon offsets.
pub open spec fn flat_polygons(polygons: Seq<Polygon>) -> Option<FlatView> {
    let n = polygons.len() as int;
    let rings = all_rings(polygons, n);
    if joined(rings).len() == 0 {
        None
    } else {
        Some(
            FlatView {
                kind: POLYGON_GEOMETRY,
                corners: joined(rings),
                starts: if rings.len() > 1 {
                    Some(stored(bounds_of(rings)))
                } else {
                    None
                },
                polygons: if n > 1 {
                    Some(stored(ring_counts(polygons, n)))
                } else {
                    None
                },
            },
        )
    }
}

pub open spec fn corner_lists(lines: Seq<Vec<Corner>>) -> Seq<Seq<Corner>> {
    lines.map_values(|l: Vec<Corner>| l@)
}

/// A geometry laid flat; nothing when it is empty or of a kind tiles do not
/// carry.
pub open spec fn flat_form(g: Geometry) -> Option<FlatView> {
    match g {
        Geometry::Point(c) => flat_points(seq![c]),
        Geometry::MultiPoint(v) => flat_points(v@),
        Geometry::LineString(v) => flat_lines(seq![v@]),
        Geometry::MultiLineString(v) => flat_lines(corner_lists(v@)),
        Geometry::Polygon(p) => flat_polygons(seq![p]),
        Geometry::MultiPolygon(v) => flat_polygons(v@),
        Geometry::Other => None,
    }
}

pub open spec fn words_view(v: Option<Vec<u32>>) -> Option<Seq<u32>> {
    match v {
        Some(w) => Some(w@),
        None => None,
    }
}

impl Flat {
    /// Whether this is the flat form described by a view.
    pub open spec fn shows(&self, f: FlatView) -> bool {
        &&& self.kind == f.kind
        &&& self.xs@ == xs_of(f.corners)
        &&& self.ys@ == ys_of(f.corners)
        &&& words_view(self.starts) == f.starts
        &&& words_view(self.polygons) == f.polygons
    }
}

/// Splits corners into their coordinates.
pub fn unzip(corners: &[Corner]) -> (out: (Vec<u16>, Vec<u16>))
    ensures
        out.0@ == xs_of(corners@),
        out.1@ == ys_of(corners@),
{
    let mut xs: Vec<u16> = Vec::new();
    let mut ys: Vec<u16> = Vec::new();
    let mut i: usize = 0;
    while i < corners.len()
        invariant
            i <= corners.len(),
            xs@ == xs_of(corners@.take(i as int)),
            ys@ == ys_of(corners@.take(i as int)),
        decreases corners.len() - i,
    {
        xs.push(corners[i].x);
        ys.push(corners[i].y);
        proof {
            assert(xs@ =~= xs_of(corners@.take(i + 1)));
            assert(ys@ =~= ys_of(corners@.take(i + 1)));
        }
        i = i + 1;
    }
    assert(corners@.take(corners.len() as int) =~= corners@);
    (xs, ys)
}

/// Corners gathered run by run.
struct Runs {
    xs: Vec<u16>,
    ys: Vec<u16>,
    bounds: Vec<usize>,
}

impl Runs {
    spec fn shows(&self, runs: Seq<Seq<Corner>>) -> bool {
        &&& self.xs@ == xs_of(joined(runs))
        &&& self.ys@ == ys_of(joined(runs))
        &&& self.bounds@.map_values(|b: usize| b as int) == bounds_of(runs)
    }

    fn new() -> (out: Runs)
        ensures
            out.shows(Seq::empty()),
    {
        let mut bounds: Vec<usize> = Vec::new();
        bounds.push(0);
        let out: Runs = Runs { xs: Vec::new(), ys: Vec::new(), bounds };
        proof {
            let none = Seq::<Seq<Corner>>::empty();
            assert(out.xs@ =~= xs_of(joined(none)));
            assert(out.ys@ =~= ys_of(joined(none)));
            assert(out.bounds@.map_values(|b: usize| b as int) =~= bounds_of(none));
        }
        out
    }

    /// Adds the first `n` of some corners as one run.
    fn take(&mut self, corners: &Vec<Corner>, n: usize, Ghost(runs): Ghost<Seq<Seq<Corner>>>)
        requires
            n <= corners.len(),
            old(self).shows(runs),
        ensures
            final(self).shows(runs.push(corners@.take(n as int))),
    {
        let mut i: usize = 0;
        while i < n
            invariant
                i <= n <= corners.len(),
                self.xs@ == xs_of(joined(runs)) + xs_of(corners@.take(i as int)),
                self.ys@ == ys_of(joined(runs)) + ys_of(corners@.take(i as int)),
                self.bounds@ == old(self).bounds@,
            decreases n - i,
        {
            self.xs.push(corners[i].x);
            self.ys.push(corners[i].y);
            proof {
                assert(self.xs@ =~= xs_of(joined(runs)) + xs_of(corners@.take(i + 1)));
                assert(self.ys@ =~= ys_of(joined(runs)) + ys_of(corners@.take(i + 1)));
            }
            i = i + 1;
        }
        let end: usize = self.xs.len();
        self.bounds.push(end);
        proof {
            let next = runs.push(corners@.take(n as int));
            assert(next.drop_last() =~= runs);
            assert(joined(next) == joined(runs) + corners@.take(n as int));
            assert(self.xs@ =~= xs_of(joined(next)));
            assert(self.ys@ =~= ys_of(joined(next)));
            assert(self.bounds@.map_values(|b: usize| b as int) =~= bounds_of(next));
        }
    }
}

/// Numbers as they are stored.
fn words(numbers: &Vec<usize>) -> (out: Vec<u32>)
    requires
        forall|i: int| 0 <= i < numbers.len() ==> #[trigger] numbers[i] <= u32::MAX,
    ensures
        out@ == stored(numbers@.map_values(|b: usize| b as int)),
{
    let mut out: Vec<u32> = Vec::new();
    let mut i: usize = 0;
    while i < numbers.len()
        invariant
            i <= numbers.len(),
            forall|k: int| 0 <= k < numbers.len() ==> #[trigger] numbers[k] <= u32::MAX,
            out.len() == i,
            forall|k: int| 0 <= k < i ==> #[trigger] out[k] == numbers[k] as int as u32,
        decreases numbers.len() - i,
    {
        out.push(numbers[i] as u32);
        i = i + 1;
    }
    assert(out@ =~= stored(numbers@.map_values(|b: usize| b as int)));
    out
}

proof fn lemma_bounds(runs: Seq<Seq<Corner>>)
    ensures
        bounds_of(runs).len() == runs.len() + 1,
        forall|i: int|
            0 <= i < bounds_of(runs).len() ==> 0 <= #[trigger] bounds_of(runs)[i] <= joined(
                runs,
            ).len(),
    decreases runs.len(),
{
    if runs.len() > 0 {
        lemma_bounds(runs.drop_last());
    }
}

fn point_form(corners: &[Corner]) -> (out: Option<Flat>)
    ensures
        out is Some <==> flat_points(corners@) is Some,
        out matches Some(f) ==> f.shows(flat_points(corners@)->0),
{
    if corners.len() == 0 {
        return None;
    }
    let (xs, ys): (Vec<u16>, Vec<u16>) = unzip(corners);
    Some(Flat { kind: POINT_GEOMETRY, xs, ys, starts: None, polygons: None })
}

/// The form gathered from lines, whose offsets must fit where they are stored.
fn line_form(runs: Runs, count: usize, Ghost(lines): Ghost<Seq<Seq<Corner>>>) -> (out: Option<Flat>)
    requires
        runs.shows(lines),
        count == lines.len(),
        joined(lines).len() <= u32::MAX,
    ensures
        out is Some <==> flat_lines(lines) is Some,
        out matches Some(f) ==> f.shows(flat_lines(lines)->0),
{
    if runs.xs.len() < 2 {
        return None;
    }
    let starts: Option<Vec<u32>> = if count > 1 {
        proof {
            lemma_bounds(lines);
            assert forall|i: int| 0 <= i < runs.bounds.len() implies #[trigger] runs.bounds[i]
                <= u32::MAX by {
                assert(runs.bounds@.map_values(|b: usize| b as int)[i] == runs.bounds[i]);
            }
        }
        Some(words(&runs.bounds))
    } else {
        None
    };
    Some(Flat { kind: LINE_GEOMETRY, xs: runs.xs, ys: runs.ys, starts, polygons: None })
}

fn ring_len(ring: &Ring) -> (n: usize)
    ensures
        n <= ring.corners.len(),
        ring.corners@.take(n as int) == open_ring(*ring),
{
    let len: usize = ring.corners.len();
    if ring.closed && len > 1 {
        assert(ring.corners@.take(len - 1) =~= ring.corners@.drop_last());
        len - 1
    } else {
        assert(ring.corners@.take(len as int) =~= ring.corners@);
        len
    }
}

/// Gathers one polygon's rings after those gathered before.
fn take_polygon(runs: &mut Runs, p: &Polygon, Ghost(before): Ghost<Seq<Seq<Corner>>>)
    requires
        old(runs).shows(before),
    ensures
        final(runs).shows(before + rings_of(*p, p.interiors.len() as int)),
{
    let n: usize = ring_len(&p.exterior);
    runs.take(&p.exterior.corners, n, Ghost(before));
    assert(before.push(open_ring(p.exterior)) =~= before + rings_of(*p, 0));
    let mut k: usize = 0;
    while k < p.interiors.len()
        invariant
            k <= p.interiors.len(),
            runs.shows(before + rings_of(*p, k as int)),
        decreases p.interiors.len() - k,
    {
        let hole: &Ring = &p.interiors[k];
        let m: usize = ring_len(hole);
        runs.take(&hole.corners, m, Ghost(before + rings_of(*p, k as int)));
        assert((before + rings_of(*p, k as int)).push(open_ring(*hole)) =~= before + rings_of(
            *p,
            k + 1,
        ));
        k = k + 1;
    }
}

proof fn lemma_ring_counts(polygons: Seq<Polygon>, n: int, m: int)
    requires
        0 <= n <= m <= polygons.len(),
    ensures
        ring_counts(polygons, n).len() == n + 1,
        forall|i: int|
            0 <= i <= n ==> 0 <= #[trigger] ring_counts(polygons, n)[i] <= all_rings(
                polygons,
                m,
            ).len(),
        all_rings(polygons, n).len() <= all_rings(polygons, m).len(),
    decreases m + n,
{
    if n < m {
        lemma_ring_counts(polygons, n, m - 1);
    } else if n > 0 {
        lemma_ring_counts(polygons, n - 1, m);
    }
}

/// The form gathered from polygons, whose offsets must fit where they are stored.
fn polygon_form(
    runs: Runs,
    counts: Vec<usize>,
    Ghost(polygons): Ghost<Seq<Polygon>>,
) -> (out: Option<Flat>)
    requires
        runs.shows(all_rings(polygons, polygons.len() as int)),
        counts@.map_values(|b: usize| b as int) == ring_counts(polygons, polygons.len() as int),
        flat_polygons(polygons) is Some ==> joined(
            all_rings(polygons, polygons.len() as int),
        ).len() <= u32::MAX && all_rings(polygons, polygons.len() as int).len() <= u32::MAX,
    ensures
        out is Some <==> flat_polygons(polygons) is Some,
        out matches Some(f) ==> f.shows(flat_polygons(polygons)->0),
{
    let ghost n = polygons.len() as int;
    let ghost rings = all_rings(polygons, n);
    if runs.xs.len() == 0 {
        return None;
    }
    proof {
        lemma_bounds(rings);
        lemma_ring_counts(polygons, n, n);
        assert forall|i: int| 0 <= i < runs.bounds.len() implies #[trigger] runs.bounds[i]
            <= u32::MAX by {
            assert(runs.bounds@.map_values(|b: usize| b as int)[i] == runs.bounds[i]);
        }
        assert forall|i: int| 0 <= i < counts.len() implies #[trigger] counts[i] <= u32::MAX by {
            assert(counts@.map_values(|b: usize| b as int)[i] == counts[i]);
        }
        assert(runs.bounds@.map_values(|b: usize| b as int).len() == rings.len() + 1);
        assert(counts@.map_values(|b: usize| b as int).len() == n + 1);
    }
    let starts: Option<Vec<u32>> = if runs.bounds.len() > 2 {
        Some(words(&runs.bounds))
    } else {
        None
    };
    let areas: Option<Vec<u32>> = if counts.len() > 2 {
        Some(words(&counts))
    } else {
        None
    };
    Some(Flat { kind: POLYGON_GEOMETRY, xs: runs.xs, ys: runs.ys, starts, polygons: areas })
}

/// Whether the offsets of a flat form fit in 32 bits.
pub open spec fn offsets_fit(g: Geometry) -> bool {
    match g {
        Geometry::LineString(v) => v@.len() <= u32::MAX,
        Geometry::MultiLineString(v) => joined(corner_lists(v@)).len() <= u32::MAX,
        Geometry::Polygon(p) => rings_fit(seq![p]),
        Geometry::MultiPolygon(v) => rings_fit(v@),
        _ => true,
    }
}

pub open spec fn rings_fit(polygons: Seq<Polygon>) -> bool {
    let rings = all_rings(polygons, polygons.len() as int);
    joined(rings).len() > 0 ==> joined(rings).len() <= u32::MAX && rings.len() <= u32::MAX
}

/// Lays a geometry flat.
pub fn flatten(g: &Geometry) -> (out: Option<Flat>)
    requires
        offsets_fit(*g),
    ensures
        out is Some <==> flat_form(*g) is Some,
        out matches Some(f) ==> f.shows(flat_form(*g)->0),
{
    match g {
        Geometry::Point(c) => {
            let one: Vec<Corner> = vec![*c];
            assert(one@ =~= seq![*c]);
            point_form(one.as_slice())
        },
        Geometry::MultiPoint(v) => point_form(v.as_slice()),
        Geometry::LineString(v) => {
            let mut runs: Runs = Runs::new();
            runs.take(v, v.len(), Ghost(Seq::empty()));
            let ghost lines = seq![v@];
            proof {
                assert(v@.take(v.len() as int) =~= v@);
                assert(Seq::<Seq<Corner>>::empty().push(v@) =~= lines);
                assert(lines.drop_last() =~= Seq::<Seq<Corner>>::empty());
                assert(joined(lines) =~= v@);
            }
            line_form(runs, 1, Ghost(lines))
        },
        Geometry::MultiLineString(v) => {
            let mut runs: Runs = Runs::new();
            let ghost lines = corner_lists(v@);
            let mut i: usize = 0;
            assert(lines.take(0) =~= Seq::<Seq<Corner>>::empty());
            while i < v.len()
                invariant
                    i <= v.len(),
                    lines == corner_lists(v@),
                    runs.shows(lines.take(i as int)),
                decreases v.len() - i,
            {
                let line: &Vec<Corner> = &v[i];
                runs.take(line, line.len(), Ghost(lines.take(i as int)));
                proof {
                    assert(line@.take(line.len() as int) =~= line@);
                    assert(lines.take(i as int).push(line@) =~= lines.take(i + 1));
                }
                i = i + 1;
            }
            assert(lines.take(v.len() as int) =~= lines);
            line_form(runs, v.len(), Ghost(lines))
        },
        Geometry::Polygon(p) => {
            let mut runs: Runs = Runs::new();
            let ghost polygons = seq![*p];
            take_polygon(&mut runs, p, Ghost(Seq::empty()));
            let mut counts: Vec<usize> = Vec::new();
            counts.push(0);
            let ghost rings = rings_of(*p, p.interiors.len() as int);
            proof {
                reveal_with_fuel(all_rings, 2);
                reveal_with_fuel(ring_counts, 2);
                assert(Seq::<Seq<Corner>>::empty() + rings =~= rings);
                assert(all_rings(polygons, 1) =~= rings);
                lemma_bounds(rings);
                assert(runs.bounds@.map_values(|b: usize| b as int).len() == runs.bounds.len());
            }
            counts.push(runs.bounds.len() - 1);
            proof {
                assert(counts@.map_values(|b: usize| b as int) =~= ring_counts(polygons, 1));
            }
            polygon_form(runs, counts, Ghost(polygons))
        },
        Geometry::MultiPolygon(v) => {
            let mut runs: Runs = Runs::new();
            let mut counts: Vec<usize> = Vec::new();
            counts.push(0);
            let mut i: usize = 0;
            assert(counts@.map_values(|b: usize| b as int) =~= ring_counts(v@, 0));
            while i < v.len()
                invariant
                    i <= v.len(),
                    runs.shows(all_rings(v@, i as int)),
                    counts@.map_values(|b: usize| b as int) == ring_counts(v@, i as int),
                decreases v.len() - i,
            {
                take_polygon(&mut runs, &v[i], Ghost(all_rings(v@, i as int)));
                proof {
                    lemma_bounds(all_rings(v@, i + 1));
                    assert(runs.bounds@.map_values(|b: usize| b as int).len()
                        == runs.bounds.len());
                }
                let ghost before = counts@;
                counts.push(runs.bounds.len() - 1);
                assert(counts@.map_values(|b: usize| b as int) =~= before.map_values(
                    |b: usize| b as int,
                ).push(runs.bounds.len() - 1));
                i = i + 1;
            }
            polygon_form(runs, counts, Ghost(v@))
        },
        Geometry::Other => None,
    }
}

/// A flat form's offsets run from nothing to everything: the first line or
/// ring begins at the first corner, and the last ends at the last.
pub proof fn offsets_span_the_corners(runs: Seq<Seq<Corner>>)
    ensures
        bounds_of(runs).len() == runs.len() + 1,
        bounds_of(runs)[0] == 0,
        bounds_of(runs)[runs.len() as int] == joined(runs).len(),
    decreases runs.len(),
{
    if runs.len() > 0 {
        offsets_span_the_corners(runs.drop_last());
    }
}

/// Each line or ring is found again between its two offsets.
pub proof fn a_run_is_found_again(runs: Seq<Seq<Corner>>, i: int)
    requires
        0 <= i < runs.len(),
    ensures
        0 <= bounds_of(runs)[i] <= bounds_of(runs)[i + 1] <= joined(runs).len(),
        joined(runs).subrange(bounds_of(runs)[i], bounds_of(runs)[i + 1]) == runs[i],
    decreases runs.len(),
{
    let before = runs.drop_last();
    offsets_span_the_corners(before);
    if i < before.len() {
        a_run_is_found_again(before, i);
        assert(joined(runs).subrange(bounds_of(runs)[i], bounds_of(runs)[i + 1]) =~= joined(
            before,
        ).subrange(bounds_of(before)[i], bounds_of(before)[i + 1]));
    } else {
        assert(joined(runs).subrange(bounds_of(runs)[i], bounds_of(runs)[i + 1]) =~= runs[i]);
    }
}

/// A point, or points, are laid flat as they come, unless there is none; a kind
/// tiles do not carry is not laid flat at all.
pub proof fn points_are_laid_flat_as_they_come(g: Geometry)
    ensures
        g matches Geometry::Point(c) ==> {
            &&& flat_form(g) matches Some(f)
            &&& f.kind == 1
            &&& f.corners.len() == 1 && f.corners[0] == c
            &&& f.starts is None && f.polygons is None
        },
        g matches Geometry::MultiPoint(v) ==> {
            &&& flat_form(g) is None <==> v@.len() == 0
            &&& flat_form(g) matches Some(f) ==> f.kind == 1 && f.corners == v@ && f.starts is None
                && f.polygons is None
        },
        g is Other ==> flat_form(g) is None,
{
}

/// A line is laid flat as it comes, unless it has fewer than two corners.
pub proof fn a_line_is_laid_flat_as_it_comes(v: Vec<Corner>)
    ensures
        flat_form(Geometry::LineString(v)) is None <==> v@.len() < 2,
        flat_form(Geometry::LineString(v)) matches Some(f) ==> f.kind == 2 && f.corners == v@
            && f.starts is None && f.polygons is None,
{
    let lines = seq![v@];
    assert(lines.drop_last() =~= Seq::<Seq<Corner>>::empty());
    assert(joined(lines.drop_last()) =~= Seq::<Corner>::empty());
    assert(joined(lines) =~= v@);
}

/// Every one of several lines is found between two neighbouring offsets, which
/// run from the first corner to the last; one line alone has no offsets.
pub proof fn every_line_is_found_between_its_offsets(v: Vec<Vec<Corner>>, i: int)
    requires
        flat_form(Geometry::MultiLineString(v)) is Some,
        offsets_fit(Geometry::MultiLineString(v)),
        0 <= i < v@.len(),
    ensures
        ({
            let f = flat_form(Geometry::MultiLineString(v))->0;
            &&& f.kind == 2
            &&& f.polygons is None
            &&& f.corners.len() >= 2
            &&& v@.len() == 1 ==> f.starts is None && f.corners == v@[0]@
            &&& v@.len() > 1 ==> {
                &&& f.starts matches Some(s)
                &&& s.len() == v@.len() + 1
                &&& s[0] == 0
                &&& s[v@.len() as int] == f.corners.len()
                &&& s[i] <= s[i + 1] <= f.corners.len()
                &&& f.corners.subrange(s[i] as int, s[i + 1] as int) == v@[i]@
            }
        }),
{
    let lines = corner_lists(v@);
    offsets_span_the_corners(lines);
    a_run_is_found_again(lines, i);
    lemma_bounds(lines);
    assert(lines[i] == v@[i]@);
    if v@.len() == 1 {
        assert(lines.drop_last() =~= Seq::<Seq<Corner>>::empty());
        assert(joined(lines) =~= v@[0]@);
    }
}

/// Lines are left out only where they have at most one corner between them.
pub proof fn lines_are_left_out_only_when_short(v: Vec<Vec<Corner>>, i: int, j: int)
    requires
        flat_form(Geometry::MultiLineString(v)) is None,
        0 <= i < v@.len(),
        0 <= j < v@.len(),
        i != j,
    ensures
        v@[i]@.len() + v@[j]@.len() < 2,
{
    let lines = corner_lists(v@);
    let (a, b) = if i < j {
        (i, j)
    } else {
        (j, i)
    };
    a_run_is_found_again(lines, a);
    a_run_is_found_again(lines, b);
    lemma_bounds_ascend(lines, a + 1, b);
    assert(lines[a] == v@[a]@ && lines[b] == v@[b]@);
}

proof fn lemma_bounds_ascend(runs: Seq<Seq<Corner>>, i: int, j: int)
    requires
        0 <= i <= j <= runs.len(),
    ensures
        bounds_of(runs)[i] <= bounds_of(runs)[j],
    decreases j - i,
{
    if i < j {
        lemma_bounds_ascend(runs, i, j - 1);
        a_run_is_found_again(runs, j - 1);
    }
}

proof fn lemma_rings(p: Polygon, n: int, r: int)
    requires
        0 <= r <= n,
    ensures
        rings_of(p, n).len() == n + 1,
        rings_of(p, n)[r] == if r == 0 {
            open_ring(p.exterior)
        } else {
            open_ring(p.interiors[r - 1])
        },
    decreases n,
{
    if n > 0 {
        lemma_rings(p, n - 1, if r < n {
            r
        } else {
            0
        });
    }
}

proof fn lemma_ring_placed(polygons: Seq<Polygon>, p: int, r: int, n: int)
    requires
        0 <= p < n <= polygons.len(),
        0 <= r <= polygons[p].interiors@.len(),
    ensures
        ring_counts(polygons, n).len() == n + 1,
        ring_counts(polygons, n)[0] == 0,
        ring_counts(polygons, n)[n] == all_rings(polygons, n).len(),
        ring_counts(polygons, n)[p] == all_rings(polygons, p).len(),
        ring_counts(polygons, n)[p + 1] == all_rings(polygons, p + 1).len(),
        all_rings(polygons, p + 1).len() == all_rings(polygons, p).len() + 1
            + polygons[p].interiors@.len(),
        all_rings(polygons, p + 1).len() <= all_rings(polygons, n).len(),
        all_rings(polygons, n)[all_rings(polygons, p).len() + r] == if r == 0 {
            open_ring(polygons[p].exterior)
        } else {
            open_ring(polygons[p].interiors[r - 1])
        },
    decreases n,
{
    lemma_rings(polygons[p], polygons[p].interiors@.len() as int, r);
    if p < n - 1 {
        lemma_ring_placed(polygons, p, r, n - 1);
    } else if n > 1 {
        lemma_ring_placed(polygons, n - 2, 0, n - 1);
    } else {
        assert(ring_counts(polygons, 0).len() == 1);
    }
}

/// Every ring of every polygon is found between two neighbouring ring offsets:
/// a polygon's outer ring first, at its own offset among the rings, and its
/// holes after it. A ring is laid flat without the corner that closes it. One
/// ring alone has no ring offsets, and one polygon alone no polygon offsets.
pub proof fn every_ring_is_found_between_its_offsets(
    g: Geometry,
    given: Seq<Polygon>,
    p: int,
    r: int,
)
    requires
        (g matches Geometry::Polygon(one) && given == seq![one]) || (
        g matches Geometry::MultiPolygon(v) && given == v@),
        flat_form(g) is Some,
        offsets_fit(g),
        0 <= p < given.len(),
        0 <= r <= given[p].interiors@.len(),
    ensures
        ({
            let f = flat_form(g)->0;
            let ring = if r == 0 {
                given[p].exterior
            } else {
                given[p].interiors@[r - 1]
            };
            let first = match f.polygons {
                Some(c) => c[p] as int,
                None => 0,
            };
            let found = match f.starts {
                Some(s) => f.corners.subrange(s[first + r] as int, s[first + r + 1] as int),
                None => f.corners,
            };
            &&& f.kind == 3
            &&& f.polygons is Some <==> given.len() > 1
            &&& f.polygons matches Some(c) ==> {
                &&& c.len() == given.len() + 1
                &&& c[0] == 0
                &&& c[p + 1] == c[p] + 1 + given[p].interiors@.len()
            }
            &&& f.starts is None ==> given.len() == 1 && r == 0
            &&& f.starts matches Some(s) ==> {
                &&& s[0] == 0
                &&& s.last() == f.corners.len()
                &&& f.polygons matches Some(c) ==> s.len() == c.last() + 1
                &&& f.polygons is None ==> s.len() == given[p].interiors@.len() + 2
                &&& s[first + r] <= s[first + r + 1] <= f.corners.len()
            }
            &&& found.len() == ring.corners@.len() - if ring.closed && ring.corners@.len() > 1 {
                1int
            } else {
                0
            }
            &&& forall|k: int| 0 <= k < found.len() ==> #[trigger] found[k] == ring.corners@[k]
        }),
{
    let n = given.len() as int;
    let rings = all_rings(given, n);
    let at = all_rings(given, p).len() + r;
    lemma_ring_placed(given, p, r, n);
    lemma_ring_placed(given, n - 1, 0, n);
    lemma_ring_placed(given, 0, 0, n);
    lemma_bounds(rings);
    offsets_span_the_corners(rings);
    a_run_is_found_again(rings, at);
    lemma_ring_counts(given, n, n);
    if rings.len() == 1 {
        assert(rings.drop_last() =~= Seq::<Seq<Corner>>::empty());
        assert(joined(rings) =~= rings[0]);
    }
}

} // verus!
