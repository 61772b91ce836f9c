//! Bridge decks and tunnel bores, swept as boxes along a road's profile.
//!
//! A deck is a thin open slab whose top is the road. A bore has a roof above
//! the road and a floor on the plane of a deck's underside, so the two meet
//! flush. A bore's mouth stands where the road comes out of the ground, not
//! where the map says the tunnel ends: the buried sections are kept, and the
//! cap is put on the crossing of road and ground.
use vstd::arithmetic::div_mod::{lemma_div_is_ordered, lemma_div_multiples_vanish, lemma_div_pos_is_pos};
use vstd::prelude::*;

use crate::arith::{
    a_part_of_the_way_is_in_proportion, clamp, lemma_nearest_bounds, lemma_part_way, max, min, nearest, nearest_of, part_way, quot_of,
    the_nearest_is_off_by_half_at_most,
};
use crate::project::{Place, TileEdges};
use crate::terrain::TerrainMesh;
use crate::tile_build::geometry::Corner;

verus! {

/// Target spacing of centerline vertices, in micrometres.
pub const SEGMENT_UM: u64 = 8_000_000;

/// The most vertices a densified centerline is worth.
pub const MAX_VERTS: usize = 4096;

/// The greatest height or depth the sweep deals in, in micrometres.
pub const HEIGHT_LIMIT_UM: i64 = 10_000_000_000_000;

/// The greatest longitude or latitude, in billionths of a degree, with a wide
/// margin.
pub const PLACE_LIMIT: i64 = 1_000_000_000_000;

/// Measures of the swept boxes, in micrometres.
#[derive(Clone, Copy, Debug, PartialEq, Eq, Structural)]
pub struct BoxPriors {
    /// From the road down to a deck's underside.
    pub deck_thickness: i64,
    /// From the road up to a bore's roof.
    pub tunnel_height: i64,
    /// Between samples on the way out of a buried end.
    pub march: i64,
    /// How far out a mouth may stand.
    pub reach: i64,
    /// How far past the crossing a mouth stands.
    pub clearance: i64,
}

impl BoxPriors {
    pub open spec fn sensible(&self) -> bool {
        &&& 0 <= self.deck_thickness <= HEIGHT_LIMIT_UM
        &&& 0 <= self.tunnel_height <= HEIGHT_LIMIT_UM
        &&& 0 < self.march <= self.reach <= HEIGHT_LIMIT_UM
        &&& 0 <= self.clearance <= HEIGHT_LIMIT_UM
    }
}

/// One cross-section of a swept box.
#[derive(Clone, Copy, Debug, PartialEq, Eq, Structural)]
pub struct Section {
    pub at: Place,
    /// Heights of the box, in millimetres.
    pub top: i32,
    pub bottom: i32,
    /// Road above ground in micrometres: negative where the road is buried.
    pub gap: i64,
    /// The direction to the left, east and north, in millionths.
    pub left_e: i32,
    pub left_n: i32,
}

impl Section {
    pub open spec fn sound(&self) -> bool {
        &&& -PLACE_LIMIT <= self.at.lon <= PLACE_LIMIT
        &&& -PLACE_LIMIT <= self.at.lat <= PLACE_LIMIT
        &&& -2 * HEIGHT_LIMIT_UM <= self.gap <= 2 * HEIGHT_LIMIT_UM
    }
}

pub open spec fn all_sound(sections: Seq<Section>) -> bool {
    forall|i: int| 0 <= i < sections.len() ==> (#[trigger] sections[i]).sound()
}

/// A height as a mesh stores it: whole millimetres, within 32 bits.
pub open spec fn to_mm(um: int) -> int {
    clamp(nearest(um, 1000), i32::MIN as int, i32::MAX as int)
}

fn mm_of(um: i64) -> (mm: i32)
    ensures
        mm == to_mm(um as int),
{
    let v: i128 = nearest_of(um as i128, 1000);
    if v < i32::MIN as i128 {
        i32::MIN
    } else if v > i32::MAX as i128 {
        i32::MAX
    } else {
        v as i32
    }
}

/// A deck's section: its top is the road.
pub fn deck_section(at: Place, road: i64, left_e: i32, left_n: i32, p: &BoxPriors) -> (out: Section)
    requires
        p.sensible(),
        -HEIGHT_LIMIT_UM <= road <= HEIGHT_LIMIT_UM,
    ensures
        out == (Section {
            at,
            top: to_mm(road as int) as i32,
            bottom: to_mm(road - p.deck_thickness) as i32,
            gap: 0,
            left_e,
            left_n,
        }),
{
    Section {
        at,
        top: mm_of(road),
        bottom: mm_of(road - p.deck_thickness),
        gap: 0,
        left_e,
        left_n,
    }
}

/// A bore's section: a roof above the road, a floor on the plane of a deck's
/// underside.
pub fn bore_section(
    at: Place,
    road: i64,
    ground: i64,
    left_e: i32,
    left_n: i32,
    p: &BoxPriors,
) -> (out: Section)
    requires
        p.sensible(),
        -HEIGHT_LIMIT_UM <= road <= HEIGHT_LIMIT_UM,
        -HEIGHT_LIMIT_UM <= ground <= HEIGHT_LIMIT_UM,
    ensures
        out == (Section {
            at,
            top: to_mm(road + p.tunnel_height) as i32,
            bottom: to_mm(road - p.deck_thickness) as i32,
            gap: (road - ground) as i64,
            left_e,
            left_n,
        }),
{
    Section {
        at,
        top: mm_of(road + p.tunnel_height),
        bottom: mm_of(road - p.deck_thickness),
        gap: road - ground,
        left_e,
        left_n,
    }
}

/// A millimetre height `t` of `d` parts of the way from `a` to `b`.
pub open spec fn height_way(a: int, b: int, t: int, d: int) -> int {
    nearest(a * d + (b - a) * t, d)
}

/// The section on the crossing of road and ground between a buried section and
/// one above the ground.
pub open spec fn crossing(a: Section, b: Section) -> Section {
    let t = -a.gap as int;
    let d = b.gap - a.gap;
    Section {
        at: Place {
            lon: part_way(a.at.lon as int, b.at.lon as int, t, d) as i64,
            lat: part_way(a.at.lat as int, b.at.lat as int, t, d) as i64,
        },
        top: height_way(a.top as int, b.top as int, t, d) as i32,
        bottom: height_way(a.bottom as int, b.bottom as int, t, d) as i32,
        gap: 0,
        left_e: part_way(a.left_e as int, b.left_e as int, t, d) as i32,
        left_n: part_way(a.left_n as int, b.left_n as int, t, d) as i32,
    }
}

fn way(a: i64, b: i64, t: i64, d: i64) -> (out: i64)
    requires
        -0x1_0000_0000_0000 <= a <= 0x1_0000_0000_0000,
        -0x1_0000_0000_0000 <= b <= 0x1_0000_0000_0000,
        0 <= t <= d,
        0 < d <= 4 * HEIGHT_LIMIT_UM,
    ensures
        out == part_way(a as int, b as int, t as int, d as int),
        min(a as int, b as int) <= out <= max(a as int, b as int),
{
    let v: i128 = b as i128 - a as i128;
    proof {
        lemma_part_way(a as int, b as int, t as int, d as int);
        assert(-0x2_0000_0000_0000 * 40_000_000_000_000 <= v * t <= 0x2_0000_0000_0000
            * 40_000_000_000_000) by (nonlinear_arith)
            requires
                -0x2_0000_0000_0000 <= v <= 0x2_0000_0000_0000,
                0 <= t <= 40_000_000_000_000,
        ;
    }
    let part: i128 = quot_of(v * (t as i128), d as u128);
    (a as i128 + part) as i64
}

fn mm_way(a: i32, b: i32, t: i64, d: i64) -> (out: i32)
    requires
        0 <= t <= d,
        0 < d <= 4 * HEIGHT_LIMIT_UM,
    ensures
        out == height_way(a as int, b as int, t as int, d as int),
        min(a as int, b as int) <= out <= max(a as int, b as int),
{
    let v: i128 = b as i128 - a as i128;
    let w: i128 = a as i128;
    proof {
        let lo = min(a as int, b as int);
        let hi = max(a as int, b as int);
        assert(lo * d <= w * d + v * t <= hi * d) by (nonlinear_arith)
            requires
                lo <= w <= hi,
                lo <= w + v <= hi,
                0 <= t <= d,
                lo == w || lo == w + v,
                hi == w || hi == w + v,
        ;
        lemma_nearest_bounds(w * d + v * t, d as int, lo, hi);
        assert(-0x8000_0000 * 40_000_000_000_000 <= w * d <= 0x8000_0000 * 40_000_000_000_000)
            by (nonlinear_arith)
            requires
                -0x8000_0000 <= w <= 0x8000_0000,
                0 <= d <= 40_000_000_000_000,
        ;
        assert(-0x1_0000_0000 * 40_000_000_000_000 <= v * t <= 0x1_0000_0000 * 40_000_000_000_000)
            by (nonlinear_arith)
            requires
                -0x1_0000_0000 <= v <= 0x1_0000_0000,
                0 <= t <= 40_000_000_000_000,
        ;
    }
    nearest_of(w * (d as i128) + v * (t as i128), d as u64) as i32
}

/// Puts a section on the crossing between a buried one and one above ground.
pub fn crossing_section(a: &Section, b: &Section) -> (out: Section)
    requires
        a.sound(),
        b.sound(),
        a.gap < 0 <= b.gap,
    ensures
        out == crossing(*a, *b),
        out.sound(),
{
    let t: i64 = -a.gap;
    let d: i64 = b.gap - a.gap;
    Section {
        at: Place { lon: way(a.at.lon, b.at.lon, t, d), lat: way(a.at.lat, b.at.lat, t, d) },
        top: mm_way(a.top, b.top, t, d),
        bottom: mm_way(a.bottom, b.bottom, t, d),
        gap: 0,
        left_e: way(a.left_e as i64, b.left_e as i64, t, d) as i32,
        left_n: way(a.left_n as i64, b.left_n as i64, t, d) as i32,
    }
}

/// Which end of a bore a mouth stands at.
#[derive(Clone, Copy, Debug, PartialEq, Eq, Structural)]
pub enum End {
    Low,
    High,
}

/// The first buried section from `i` on, or the number of sections.
pub open spec fn first_buried(s: Seq<Section>, i: int) -> int
    decreases s.len() - i,
{
    if i >= s.len() {
        s.len() as int
    } else if s[i].gap < 0 {
        i
    } else {
        first_buried(s, i + 1)
    }
}

/// The last buried section among the first `n`, or -1.
pub open spec fn last_buried(s: Seq<Section>, n: int) -> int
    decreases n,
{
    if n <= 0 {
        -1
    } else if s[n - 1].gap < 0 {
        n - 1
    } else {
        last_buried(s, n - 1)
    }
}

/// The sections without those that stand above the ground at one end, a cap on
/// the crossing in their place. With nothing buried, or nothing above ground at
/// that end, the sections stay.
pub open spec fn trimmed(s: Seq<Section>, end: End) -> Seq<Section> {
    match end {
        End::Low => {
            let i = first_buried(s, 0);
            if 0 < i < s.len() {
                seq![crossing(s[i], s[i - 1])] + s.skip(i)
            } else {
                s
            }
        },
        End::High => {
            let i = last_buried(s, s.len() as int);
            if 0 <= i < s.len() - 1 {
                s.take(i + 1).push(crossing(s[i], s[i + 1]))
            } else {
                s
            }
        },
    }
}

proof fn lemma_first_buried(s: Seq<Section>, i: int)
    requires
        0 <= i <= s.len(),
    ensures
        i <= first_buried(s, i) <= s.len(),
        forall|k: int| i <= k < first_buried(s, i) ==> (#[trigger] s[k]).gap >= 0,
        first_buried(s, i) < s.len() ==> s[first_buried(s, i)].gap < 0,
    decreases s.len() - i,
{
    if i < s.len() && s[i].gap >= 0 {
        lemma_first_buried(s, i + 1);
    }
}

proof fn lemma_last_buried(s: Seq<Section>, n: int)
    requires
        0 <= n <= s.len(),
    ensures
        -1 <= last_buried(s, n) < n || n == 0,
        forall|k: int| last_buried(s, n) < k < n ==> (#[trigger] s[k]).gap >= 0,
        last_buried(s, n) >= 0 ==> s[last_buried(s, n)].gap < 0,
    decreases n,
{
    if n > 0 && s[n - 1].gap >= 0 {
        lemma_last_buried(s, n - 1);
    }
}

/// Trims one end down to the buried stretch.
pub fn trim_to_crossing(sections: &Vec<Section>, end: End) -> (out: Vec<Section>)
    requires
        all_sound(sections@),
    ensures
        out@ == trimmed(sections@, end),
        all_sound(out@),
{
    let n: usize = sections.len();
    let ghost s = sections@;
    let mut out: Vec<Section> = Vec::new();
    match end {
        End::Low => {
            let mut i: usize = 0;
            while i < n && sections[i].gap >= 0
                invariant
                    i <= n,
                    n == s.len(),
                    s == sections@,
                    first_buried(s, 0) == first_buried(s, i as int),
                    i > 0 ==> s[i - 1].gap >= 0,
                decreases n - i,
            {
                i = i + 1;
            }
            let from: usize = if 0 < i && i < n {
                out.push(crossing_section(&sections[i], &sections[i - 1]));
                i
            } else {
                0
            };
            let ghost head = out@;
            let mut k: usize = from;
            assert(out@ =~= head + s.subrange(from as int, from as int));
            while k < n
                invariant
                    from <= k <= n,
                    n == s.len(),
                    s == sections@,
                    out@ == head + s.subrange(from as int, k as int),
                decreases n - k,
            {
                out.push(sections[k]);
                assert(out@ =~= head + s.subrange(from as int, k + 1));
                k = k + 1;
            }
            assert(out@ =~= trimmed(s, end));
        },
        End::High => {
            let mut i: usize = n;
            while i > 0 && sections[i - 1].gap >= 0
                invariant
                    i <= n,
                    n == s.len(),
                    s == sections@,
                    last_buried(s, n as int) == last_buried(s, i as int),
                    i < n ==> s[i as int].gap >= 0,
                decreases i,
            {
                i = i - 1;
            }
            let cut: bool = 0 < i && i < n;
            let to: usize = if cut {
                i
            } else {
                n
            };
            let mut k: usize = 0;
            while k < to
                invariant
                    k <= to <= n,
                    n == s.len(),
                    s == sections@,
                    out@ == s.take(k as int),
                decreases to - k,
            {
                out.push(sections[k]);
                assert(out@ =~= s.take(k + 1));
                k = k + 1;
            }
            if cut {
                out.push(crossing_section(&sections[i - 1], &sections[i]));
            }
            assert(out@ =~= trimmed(s, end));
        },
    }
    out
}

/// The section at an end.
pub open spec fn edge(s: Seq<Section>, end: End) -> Section {
    match end {
        End::Low => s[0],
        End::High => s[s.len() - 1],
    }
}

/// Whether an end must be marched outward: it is still buried, and it is a real
/// end of the run, not a cut at the tile's border.
pub fn needs_march(sections: &Vec<Section>, end: End, interior: bool) -> (yes: bool)
    requires
        sections.len() > 0,
    ensures
        yes == (edge(sections@, end).gap < 0 && interior),
{
    let at: usize = match end {
        End::Low => 0,
        End::High => sections.len() - 1,
    };
    sections[at].gap < 0 && interior
}

/// The sections with one end resolved onto the crossing of road and ground.
pub open spec fn resolved(
    s: Seq<Section>,
    end: End,
    interior: bool,
    cap: Option<Section>,
) -> Seq<Section> {
    if edge(s, end).gap >= 0 {
        trimmed(s, end)
    } else if !interior {
        s
    } else {
        match (cap, end) {
            (None, _) => s,
            (Some(c), End::Low) => s.insert(0, c),
            (Some(c), End::High) => s.push(c),
        }
    }
}

/// Whether an end is capped: a buried cut at the tile's border stays open.
pub open spec fn is_capped(s: Seq<Section>, end: End, interior: bool) -> bool {
    edge(s, end).gap >= 0 || interior
}

/// Resolves one end onto the crossing of road and ground, and says whether it
/// is capped. `cap` is the section a march out of a buried end came to.
pub fn resolve_portal(
    sections: &mut Vec<Section>,
    end: End,
    interior: bool,
    cap: Option<Section>,
) -> (capped: bool)
    requires
        old(sections).len() > 0,
        all_sound(old(sections)@),
        cap matches Some(c) ==> c.sound(),
    ensures
        final(sections)@ == resolved(old(sections)@, end, interior, cap),
        capped == is_capped(old(sections)@, end, interior),
        all_sound(final(sections)@),
{
    let at: usize = match end {
        End::Low => 0,
        End::High => sections.len() - 1,
    };
    if sections[at].gap >= 0 {
        let kept: Vec<Section> = trim_to_crossing(sections, end);
        *sections = kept;
        return true;
    }
    if !interior {
        return false;
    }
    if let Some(c) = cap {
        match end {
            End::Low => sections.insert(0, c),
            End::High => sections.push(c),
        }
    }
    true
}

/// How far out the road first reaches the ground, sampled every march from a
/// buried end on: between the last buried sample and the first above ground in
/// proportion to their gaps, and a clearance further. Without one, the reach.
pub open spec fn mouth_from(prev: int, gaps: Seq<i64>, k: int, p: BoxPriors) -> int
    decreases gaps.len() - k,
{
    if k >= gaps.len() {
        p.reach as int
    } else if gaps[k] >= 0 {
        k * p.march + part_way(0, p.march as int, -prev, gaps[k] - prev) + p.clearance
    } else {
        mouth_from(gaps[k] as int, gaps, k + 1, p)
    }
}

/// How far out of a buried end the mouth stands. `gaps` holds the gap at every
/// march out to the reach.
pub fn portal_distance(edge_gap: i64, gaps: &[i64], p: &BoxPriors) -> (out: i64)
    requires
        p.sensible(),
        -2 * HEIGHT_LIMIT_UM <= edge_gap < 0,
        forall|i: int|
            0 <= i < gaps.len() ==> -2 * HEIGHT_LIMIT_UM <= #[trigger] gaps[i] <= 2
                * HEIGHT_LIMIT_UM,
        gaps.len() * p.march <= p.reach,
    ensures
        out == mouth_from(edge_gap as int, gaps@, 0, *p),
        0 <= out <= p.reach + p.clearance,
{
    let mut prev: i64 = edge_gap;
    let mut k: usize = 0;
    let mut from: i64 = 0;
    assert(0 * p.march == 0) by (nonlinear_arith);
    while k < gaps.len()
        invariant
            k <= gaps.len(),
            p.sensible(),
            -2 * HEIGHT_LIMIT_UM <= prev < 0,
            from == k * p.march,
            gaps.len() * p.march <= p.reach,
            forall|i: int|
                0 <= i < gaps.len() ==> -2 * HEIGHT_LIMIT_UM <= #[trigger] gaps[i] <= 2
                    * HEIGHT_LIMIT_UM,
            mouth_from(edge_gap as int, gaps@, 0, *p) == mouth_from(
                prev as int,
                gaps@,
                k as int,
                *p,
            ),
        decreases gaps.len() - k,
    {
        proof {
            assert((k + 1) * p.march == k * p.march + p.march) by (nonlinear_arith);
            assert((k + 1) * p.march <= gaps.len() * p.march) by (nonlinear_arith)
                requires
                    k + 1 <= gaps.len(),
                    p.march > 0,
            ;
            assert(0 <= k * p.march) by (nonlinear_arith)
                requires
                    p.march > 0,
            ;
        }
        let gap: i64 = gaps[k];
        if gap >= 0 {
            return from + way(0, p.march, -prev, gap - prev) + p.clearance;
        }
        prev = gap;
        from = from + p.march;
        k = k + 1;
    }
    p.reach
}

/// Whether a bore is worth drawing: some of it is buried. A tunnel over flat
/// ground has none, and the road is draped instead.
pub fn is_bore(sections: &Vec<Section>) -> (yes: bool)
    ensures
        yes == (sections.len() >= 2 && exists|i: int|
            0 <= i < sections.len() && (#[trigger] sections[i]).gap < 0),
{
    if sections.len() < 2 {
        return false;
    }
    let mut i: usize = 0;
    while i < sections.len()
        invariant
            i <= sections.len(),
            sections.len() >= 2,
            forall|k: int| 0 <= k < i ==> (#[trigger] sections[k]).gap >= 0,
        decreases sections.len() - i,
    {
        if sections[i].gap < 0 {
            return true;
        }
        i = i + 1;
    }
    false
}

/// A bore ready to be drawn, and which of its ends are capped.
#[derive(Debug)]
pub struct Bore {
    pub sections: Vec<Section>,
    pub low: bool,
    pub high: bool,
}

/// A bore on its way: its sections, whether its ends are real ends of the run,
/// and whether its high end is capped.
#[derive(Debug)]
pub struct BoreWork {
    pub sections: Vec<Section>,
    pub low_interior: bool,
    pub high_interior: bool,
    pub high: bool,
}

/// What comes next for a bore.
#[derive(Debug)]
pub enum BoreStep {
    /// March out of an end, away from the section behind it.
    March { end: End, edge: Section, inner: Section, work: BoreWork },
    /// Draw the bore, or drape the road where nothing is buried.
    Done { bore: Option<Bore> },
}

/// A step over mathematical sequences.
pub enum StepView {
    March { end: End, edge: Section, inner: Section, sections: Seq<Section>, low: bool, high: bool, capped: bool },
    Done { bore: Option<(Seq<Section>, bool, bool)> },
}

impl BoreStep {
    pub open spec fn view(&self) -> StepView {
        match *self {
            BoreStep::March { end, edge, inner, work } => StepView::March {
                end,
                edge,
                inner,
                sections: work.sections@,
                low: work.low_interior,
                high: work.high_interior,
                capped: work.high,
            },
            BoreStep::Done { bore } => StepView::Done {
                bore: match bore {
                    Some(b) => Some((b.sections@, b.low, b.high)),
                    None => None,
                },
            },
        }
    }
}

pub open spec fn any_buried(s: Seq<Section>) -> bool {
    exists|i: int| 0 <= i < s.len() && (#[trigger] s[i]).gap < 0
}

/// The bore once both ends are resolved, `low` and `high` saying which are
/// capped. Without a buried section there is none.
pub open spec fn finished(s: Seq<Section>, low: bool, high: bool) -> StepView {
    StepView::Done {
        bore: if s.len() >= 2 && any_buried(s) {
            Some((s, low, high))
        } else {
            None
        },
    }
}

/// The bore once its low end is resolved with a cap.
pub open spec fn low_resolved(
    s: Seq<Section>,
    low_interior: bool,
    high: bool,
    cap: Option<Section>,
) -> StepView {
    finished(
        resolved(s, End::Low, low_interior, cap),
        is_capped(s, End::Low, low_interior),
        high,
    )
}

/// The step that comes once the high end is resolved.
pub open spec fn after_high(s: Seq<Section>, low_interior: bool, high_interior: bool, high: bool) -> StepView {
    if s[0].gap < 0 && low_interior {
        StepView::March {
            end: End::Low,
            edge: s[0],
            inner: s[1],
            sections: s,
            low: low_interior,
            high: high_interior,
            capped: high,
        }
    } else {
        low_resolved(s, low_interior, high, None)
    }
}

/// The step that comes once the high end is resolved with a cap.
pub open spec fn high_resolved(
    s: Seq<Section>,
    low_interior: bool,
    high_interior: bool,
    cap: Option<Section>,
) -> StepView {
    after_high(
        resolved(s, End::High, high_interior, cap),
        low_interior,
        high_interior,
        is_capped(s, End::High, high_interior),
    )
}

/// The first step of a bore: its high end is resolved before its low one.
pub open spec fn first_step(s: Seq<Section>, low_interior: bool, high_interior: bool) -> StepView {
    if s[s.len() - 1].gap < 0 && high_interior {
        StepView::March {
            end: End::High,
            edge: s[s.len() - 1],
            inner: s[s.len() - 2],
            sections: s,
            low: low_interior,
            high: high_interior,
            capped: false,
        }
    } else {
        high_resolved(s, low_interior, high_interior, None)
    }
}

proof fn lemma_resolved_len(s: Seq<Section>, end: End, interior: bool, cap: Option<Section>)
    requires
        s.len() >= 2,
    ensures
        resolved(s, end, interior, cap).len() >= 2,
{
    lemma_first_buried(s, 0);
    lemma_last_buried(s, s.len() as int);
}

fn finish_low(work: BoreWork, cap: Option<Section>) -> (out: BoreStep)
    requires
        work.sections@.len() >= 2,
        all_sound(work.sections@),
        cap matches Some(c) ==> c.sound(),
    ensures
        out@ == low_resolved(work.sections@, work.low_interior, work.high, cap),
{
    let mut sections: Vec<Section> = work.sections;
    let low: bool = resolve_portal(&mut sections, End::Low, work.low_interior, cap);
    let bore: Option<Bore> = if is_bore(&sections) {
        Some(Bore { sections, low, high: work.high })
    } else {
        None
    };
    BoreStep::Done { bore }
}

fn step_low(work: BoreWork) -> (out: BoreStep)
    requires
        work.sections@.len() >= 2,
        all_sound(work.sections@),
    ensures
        out@ == after_high(work.sections@, work.low_interior, work.high_interior, work.high),
{
    if needs_march(&work.sections, End::Low, work.low_interior) {
        let (edge, inner): (Section, Section) = (work.sections[0], work.sections[1]);
        BoreStep::March { end: End::Low, edge, inner, work }
    } else {
        finish_low(work, None)
    }
}

fn step_high(work: BoreWork, cap: Option<Section>) -> (out: BoreStep)
    requires
        work.sections@.len() >= 2,
        all_sound(work.sections@),
        cap matches Some(c) ==> c.sound(),
    ensures
        out@ == high_resolved(work.sections@, work.low_interior, work.high_interior, cap),
{
    proof {
        lemma_resolved_len(work.sections@, End::High, work.high_interior, cap);
    }
    let mut sections: Vec<Section> = work.sections;
    let high: bool = resolve_portal(&mut sections, End::High, work.high_interior, cap);
    step_low(
        BoreWork {
            sections,
            low_interior: work.low_interior,
            high_interior: work.high_interior,
            high,
        },
    )
}

/// Begins a bore. An end that lies on the tile's border is no interior one: the
/// bore continues in the neighbour.
pub fn begin_bore(sections: Vec<Section>, low_interior: bool, high_interior: bool) -> (out: BoreStep)
    requires
        sections@.len() >= 2,
        all_sound(sections@),
    ensures
        out@ == first_step(sections@, low_interior, high_interior),
{
    let n: usize = sections.len();
    let march: bool = needs_march(&sections, End::High, high_interior);
    let (edge, inner): (Section, Section) = (sections[n - 1], sections[n - 2]);
    let work: BoreWork = BoreWork { sections, low_interior, high_interior, high: false };
    if march {
        BoreStep::March { end: End::High, edge, inner, work }
    } else {
        step_high(work, None)
    }
}

/// Goes on after a march, `cap` being the section it came to.
pub fn answer_bore(work: BoreWork, end: End, cap: Option<Section>) -> (out: BoreStep)
    requires
        work.sections@.len() >= 2,
        all_sound(work.sections@),
        cap matches Some(c) ==> c.sound(),
    ensures
        out@ == match end {
            End::High => high_resolved(work.sections@, work.low_interior, work.high_interior, cap),
            End::Low => low_resolved(work.sections@, work.low_interior, work.high, cap),
        },
{
    match end {
        End::High => step_high(work, cap),
        End::Low => finish_low(work, cap),
    }
}

/// A trimmed end stands exactly on the crossing, behind it the bore is buried.
pub proof fn a_trimmed_end_stands_on_the_crossing(s: Seq<Section>, end: End)
    requires
        s.len() > 0,
        edge(s, end).gap >= 0,
        exists|i: int| 0 <= i < s.len() && (#[trigger] s[i]).gap < 0,
    ensures
        edge(trimmed(s, end), end).gap == 0,
        trimmed(s, end).len() >= 2,
        end is Low ==> trimmed(s, end)[1].gap < 0,
        end is High ==> trimmed(s, end)[trimmed(s, end).len() - 2].gap < 0,
{
    lemma_first_buried(s, 0);
    lemma_last_buried(s, s.len() as int);
    let w = choose|i: int| 0 <= i < s.len() && (#[trigger] s[i]).gap < 0;
    match end {
        End::Low => {
            let i = first_buried(s, 0);
            assert(i <= w);
            assert(trimmed(s, end)[1] == s[i]);
        },
        End::High => {
            let i = last_buried(s, s.len() as int);
            assert(w <= i);
        },
    }
}

/// A cap lies between the two sections it is put between.
pub proof fn a_cap_lies_between_its_sections(a: Section, b: Section)
    requires
        a.gap < 0 <= b.gap,
    ensures
        min(a.top as int, b.top as int) <= crossing(a, b).top <= max(a.top as int, b.top as int),
        min(a.at.lon as int, b.at.lon as int) <= crossing(a, b).at.lon <= max(
            a.at.lon as int,
            b.at.lon as int,
        ),
        min(a.at.lat as int, b.at.lat as int) <= crossing(a, b).at.lat <= max(
            a.at.lat as int,
            b.at.lat as int,
        ),
{
    let t = -a.gap as int;
    let d = b.gap - a.gap;
    lemma_part_way(a.at.lon as int, b.at.lon as int, t, d);
    lemma_part_way(a.at.lat as int, b.at.lat as int, t, d);
    let w = a.top as int;
    let v = b.top - a.top;
    let lo = min(a.top as int, b.top as int);
    let hi = max(a.top as int, b.top as int);
    assert(lo * d <= w * d + v * t <= hi * d) by (nonlinear_arith)
        requires
            lo <= w <= hi,
            lo <= w + v <= hi,
            0 <= t <= d,
            lo == w || lo == w + v,
            hi == w || hi == w + v,
    ;
    lemma_nearest_bounds(w * d + v * t, d, lo, hi);
}

/// A deck and a bore over one road share the plane of their undersides, and a
/// deck has nothing above the road.
pub proof fn a_bore_meets_a_deck_flush(road: int, p: BoxPriors)
    requires
        p.sensible(),
    ensures
        to_mm(road - p.deck_thickness) <= to_mm(road) <= to_mm(road + p.tunnel_height),
{
    lemma_nearest_rises(road - p.deck_thickness, road);
    lemma_nearest_rises(road, road + p.tunnel_height);
}

proof fn lemma_nearest_rises(a: int, b: int)
    requires
        a <= b,
    ensures
        nearest(a, 1000) <= nearest(b, 1000),
{
    if a >= 0 {
        lemma_div_is_ordered(2 * a + 1000, 2 * b + 1000, 2000);
    } else if b < 0 {
        lemma_div_is_ordered(-2 * b + 1000, -2 * a + 1000, 2000);
    } else {
        lemma_div_pos_is_pos(-2 * a + 1000, 2000);
        lemma_div_pos_is_pos(2 * b + 1000, 2000);
    }
}

/// Whether a coordinate lies within a ten-thousandth of the extent from an edge.
pub open spec fn near_edge(c: int, edge: int, extent: int) -> bool {
    (if c < edge {
        edge - c
    } else {
        c - edge
    }) * 10_000 < extent
}

/// Whether a place lies on the border of the tile proper, where a box is cut
/// and goes on in the neighbour.
pub open spec fn is_on_edge(c: Place, t: TileEdges) -> bool {
    let width = t.east - t.west;
    let height = t.north - t.south;
    ||| near_edge(c.lon as int, t.west as int, width)
    ||| near_edge(c.lon as int, t.east as int, width)
    ||| near_edge(c.lat as int, t.south as int, height)
    ||| near_edge(c.lat as int, t.north as int, height)
}

fn is_near(c: i64, edge: i64, extent: i128) -> (yes: bool)
    ensures
        yes == near_edge(c as int, edge as int, extent as int),
{
    let d: i128 = if c < edge {
        edge as i128 - c as i128
    } else {
        c as i128 - edge as i128
    };
    d * 10_000 < extent
}

/// Whether a place lies on the border of the tile proper.
pub fn on_tile_edge(c: Place, t: &TileEdges) -> (yes: bool)
    ensures
        yes == is_on_edge(c, *t),
{
    let width: i128 = t.east as i128 - t.west as i128;
    let height: i128 = t.north as i128 - t.south as i128;
    is_near(c.lon, t.west, width) || is_near(c.lon, t.east, width) || is_near(
        c.lat,
        t.south,
        height,
    ) || is_near(c.lat, t.north, height)
}

/// How many steps a stretch of a centerline is split into.
pub open spec fn split_of(len: int) -> int {
    clamp((len + SEGMENT_UM - 1) / SEGMENT_UM as int, 1, MAX_VERTS as int)
}

/// The first `n` of `of` steps from `a` to `b`.
pub open spec fn steps_to(a: Place, b: Place, of: int, n: int) -> Seq<Place>
    decreases n,
{
    if n <= 0 {
        Seq::empty()
    } else {
        steps_to(a, b, of, n - 1).push(
            Place {
                lon: part_way(a.lon as int, b.lon as int, n, of) as i64,
                lat: part_way(a.lat as int, b.lat as int, n, of) as i64,
            },
        )
    }
}

/// A centerline densified over its first `n` stretches, cut off at the most
/// vertices a line is worth.
pub open spec fn densified(pts: Seq<Place>, lens: Seq<u64>, n: int) -> Seq<Place>
    decreases n,
{
    if n <= 0 {
        seq![pts[0]]
    } else {
        let before = densified(pts, lens, n - 1);
        let of = split_of(lens[n - 1] as int);
        before + steps_to(pts[n - 1], pts[n], of, min(of, MAX_VERTS - before.len()))
    }
}

pub open spec fn on_globe(p: Place) -> bool {
    -PLACE_LIMIT <= p.lon <= PLACE_LIMIT && -PLACE_LIMIT <= p.lat <= PLACE_LIMIT
}

/// Densifies a centerline. `lens` holds the length of each stretch in
/// micrometres.
pub fn densify(pts: &[Place], lens: &[u64]) -> (out: Vec<Place>)
    requires
        pts.len() > 0 ==> lens.len() + 1 == pts.len(),
        forall|i: int| 0 <= i < pts.len() ==> on_globe(#[trigger] pts[i]),
    ensures
        pts.len() == 0 ==> out.len() == 0,
        pts.len() > 0 ==> out@ == densified(pts@, lens@, pts.len() - 1),
        out@.len() <= MAX_VERTS,
{
    let mut out: Vec<Place> = Vec::new();
    if pts.len() == 0 {
        return out;
    }
    out.push(pts[0]);
    assert(out@ =~= seq![pts[0]]);
    let mut k: usize = 0;
    while k < lens.len()
        invariant
            k <= lens.len(),
            lens.len() + 1 == pts.len(),
            forall|i: int| 0 <= i < pts.len() ==> on_globe(#[trigger] pts[i]),
            out@ == densified(pts@, lens@, k as int),
            1 <= out.len() <= MAX_VERTS,
        decreases lens.len() - k,
    {
        if out.len() < MAX_VERTS {
            let len: u64 = lens[k];
            let whole: u64 = len / SEGMENT_UM + if len % SEGMENT_UM == 0 {
                0
            } else {
                1
            };
            assert(whole == (len + SEGMENT_UM - 1) / SEGMENT_UM as int);
            let of: i64 = if whole < 1 {
                1
            } else if whole > MAX_VERTS as u64 {
                MAX_VERTS as i64
            } else {
                whole as i64
            };
            let (a, b): (Place, Place) = (pts[k], pts[k + 1]);
            let ghost before = out@;
            let room: i64 = (MAX_VERTS - out.len()) as i64;
            let upto: i64 = if of < room {
                of
            } else {
                room
            };
            let mut i: i64 = 0;
            assert(out@ =~= before + steps_to(a, b, of as int, 0));
            while i < upto
                invariant
                    0 <= i <= upto <= of <= MAX_VERTS,
                    1 <= of,
                    on_globe(a),
                    on_globe(b),
                    before.len() + upto <= MAX_VERTS,
                    out.len() == before.len() + i,
                    out@ == before + steps_to(a, b, of as int, i as int),
                decreases upto - i,
            {
                i = i + 1;
                out.push(Place { lon: way(a.lon, b.lon, i, of), lat: way(a.lat, b.lat, i, of) });
                assert(out@ =~= before + steps_to(a, b, of as int, i as int));
            }
        } else {
            assert(out@ =~= densified(pts@, lens@, k + 1));
        }
        k = k + 1;
    }
    out
}

/// A stretch is split finely enough, unless it is longer than all the vertices
/// it may have.
pub proof fn a_stretch_is_split_finely(len: int)
    requires
        0 <= len <= MAX_VERTS * SEGMENT_UM,
    ensures
        len <= split_of(len) * SEGMENT_UM,
{
}

proof fn lemma_whole_way(a: int, b: int, of: int)
    requires
        of > 0,
    ensures
        part_way(a, b, of, of) == b,
{
    let d = b - a;
    if d >= 0 {
        lemma_div_multiples_vanish(d, of);
        assert(d * of == of * d) by (nonlinear_arith);
        assert(d * of >= 0) by (nonlinear_arith)
            requires
                d >= 0,
                of > 0,
        ;
    } else {
        lemma_div_multiples_vanish(-d, of);
        assert(-(d * of) == of * (-d)) by (nonlinear_arith);
        assert(d * of < 0) by (nonlinear_arith)
            requires
                d < 0,
                of > 0,
        ;
    }
}

proof fn lemma_steps_len(a: Place, b: Place, of: int, n: int)
    requires
        0 <= n,
    ensures
        steps_to(a, b, of, n).len() == n,
    decreases n,
{
    if n > 0 {
        lemma_steps_len(a, b, of, n - 1);
    }
}

/// A densified line starts where the line does and is never past the cap. Until
/// the cap stops it, it passes through every vertex of the line.
pub proof fn a_densified_line_passes_its_vertices(pts: Seq<Place>, lens: Seq<u64>, n: int)
    requires
        0 <= n < pts.len(),
        lens.len() + 1 == pts.len(),
    ensures
        1 <= densified(pts, lens, n).len() <= MAX_VERTS,
        densified(pts, lens, n)[0] == pts[0],
        densified(pts, lens, n).len() < MAX_VERTS ==> densified(pts, lens, n).last() == pts[n],
    decreases n,
{
    if n > 0 {
        a_densified_line_passes_its_vertices(pts, lens, n - 1);
        let before = densified(pts, lens, n - 1);
        let (a, b) = (pts[n - 1], pts[n]);
        let of = split_of(lens[n - 1] as int);
        lemma_steps_len(a, b, of, min(of, MAX_VERTS - before.len()));
        lemma_whole_way(a.lon as int, b.lon as int, of);
        lemma_whole_way(a.lat as int, b.lat as int, of);
    }
}

/// A face normal as it is stored.
#[derive(Clone, Copy, Debug, PartialEq, Eq, Structural)]
pub struct Normal {
    pub u: i8,
    pub v: i8,
}

/// A vertex of a swept box.
#[derive(Clone, Copy, Debug, PartialEq, Eq, Structural)]
pub struct Vertex {
    pub at: Corner,
    pub z: i32,
}

/// Four corners with one normal.
#[derive(Clone, Copy, Debug, PartialEq, Eq, Structural)]
pub struct Quad {
    pub p0: Vertex,
    pub p1: Vertex,
    pub p2: Vertex,
    pub p3: Vertex,
    pub normal: Normal,
}

impl Quad {
    /// The corner of a number from 0 to 3.
    pub open spec fn corner(&self, j: int) -> Vertex {
        if j == 0 {
            self.p0
        } else if j == 1 {
            self.p1
        } else if j == 2 {
            self.p2
        } else {
            self.p3
        }
    }
}

/// Which corner each of a quad's six indices names.
pub open spec fn fan(j: int) -> int {
    if j == 0 || j == 3 {
        0
    } else if j == 1 {
        1
    } else if j == 5 {
        3
    } else {
        2
    }
}

/// Whether a mesh draws exactly some quads, one after the other.
pub open spec fn draws(
    x: Seq<u16>,
    y: Seq<u16>,
    z: Seq<i32>,
    indices: Seq<u32>,
    normals: Seq<i8>,
    quads: Seq<Quad>,
) -> bool {
    &&& x.len() == 4 * quads.len()
    &&& y.len() == 4 * quads.len()
    &&& z.len() == 4 * quads.len()
    &&& normals.len() == 8 * quads.len()
    &&& indices.len() == 6 * quads.len()
    &&& forall|v: int| 0 <= v < x.len() ==> #[trigger] x[v] == quads[v / 4].corner(v % 4).at.x
    &&& forall|v: int| 0 <= v < y.len() ==> #[trigger] y[v] == quads[v / 4].corner(v % 4).at.y
    &&& forall|v: int| 0 <= v < z.len() ==> #[trigger] z[v] == quads[v / 4].corner(v % 4).z
    &&& forall|m: int|
        0 <= m < indices.len() ==> #[trigger] indices[m] == 4 * (m / 6) + fan(m % 6)
    &&& forall|w: int|
        0 <= w < normals.len() ==> #[trigger] normals[w] == if w % 2 == 0 {
            quads[w / 8].normal.u
        } else {
            quads[w / 8].normal.v
        }
}

/// Vertices and triangles on their way into a mesh.
pub struct Accum {
    pub x: Vec<u16>,
    pub y: Vec<u16>,
    pub z: Vec<i32>,
    pub indices: Vec<u32>,
    pub normals: Vec<i8>,
}

impl Accum {
    /// A height and a normal for every vertex, and no triangle past the last
    /// vertex.
    pub open spec fn well_formed(&self) -> bool {
        &&& self.y@.len() == self.x@.len()
        &&& self.z@.len() == self.x@.len()
        &&& self.normals@.len() == 2 * self.x@.len()
        &&& forall|m: int| 0 <= m < self.indices@.len() ==> #[trigger] self.indices@[m] < self.x@.len()
    }

    pub open spec fn shows(&self, quads: Seq<Quad>) -> bool {
        draws(self.x@, self.y@, self.z@, self.indices@, self.normals@, quads)
    }

    pub fn new() -> (out: Accum)
        ensures
            out.shows(Seq::empty()),
            out.well_formed(),
    {
        Accum {
            x: Vec::new(),
            y: Vec::new(),
            z: Vec::new(),
            indices: Vec::new(),
            normals: Vec::new(),
        }
    }

    /// Adds a vertex and gives its number.
    pub fn push(&mut self, v: Vertex, n: Normal) -> (at: u32)
        requires
            old(self).x.len() < u32::MAX,
        ensures
            at == old(self).x.len(),
            final(self).x@ == old(self).x@.push(v.at.x),
            final(self).y@ == old(self).y@.push(v.at.y),
            final(self).z@ == old(self).z@.push(v.z),
            final(self).normals@ == old(self).normals@.push(n.u).push(n.v),
            final(self).indices@ == old(self).indices@,
            old(self).well_formed() ==> final(self).well_formed(),
    {
        let at: u32 = self.x.len() as u32;
        self.x.push(v.at.x);
        self.y.push(v.at.y);
        self.z.push(v.z);
        self.normals.push(n.u);
        self.normals.push(n.v);
        at
    }

    /// Adds a triangle.
    pub fn tri(&mut self, a: u32, b: u32, c: u32)
        ensures
            final(self).indices@ == old(self).indices@.push(a).push(b).push(c),
            final(self).x@ == old(self).x@,
            final(self).y@ == old(self).y@,
            final(self).z@ == old(self).z@,
            final(self).normals@ == old(self).normals@,
            old(self).well_formed() && a < old(self).x.len() && b < old(self).x.len() && c < old(
                self,
            ).x.len() ==> final(self).well_formed(),
    {
        self.indices.push(a);
        self.indices.push(b);
        self.indices.push(c);
    }

    /// The mesh, or nothing when it has no triangle.
    pub fn into_mesh(self) -> (out: Option<TerrainMesh>)
        ensures
            out is None <==> self.indices@.len() == 0,
            out matches Some(m) ==> m.x@ == self.x@ && m.y@ == self.y@ && m.z@ == self.z@
                && m.indices@ == self.indices@ && m.normals@ == self.normals@
                && m.edge_across@.len() == 0,
    {
        if self.indices.len() == 0 {
            return None;
        }
        Some(
            TerrainMesh {
                x: self.x,
                y: self.y,
                z: self.z,
                indices: self.indices,
                normals: self.normals,
                edge_across: Vec::new(),
            },
        )
    }
}

/// Whether quads were added, in order, after all that was there: each one's
/// corners as four vertices of its normal, and the two triangles of its fan.
pub open spec fn quads_added(before: Accum, after: Accum, quads: Seq<Quad>) -> bool {
    &&& after.x@ == before.x@ + Seq::new(
        4 * quads.len(),
        |v: int| quads[v / 4].corner(v % 4).at.x,
    )
    &&& after.y@ == before.y@ + Seq::new(
        4 * quads.len(),
        |v: int| quads[v / 4].corner(v % 4).at.y,
    )
    &&& after.z@ == before.z@ + Seq::new(4 * quads.len(), |v: int| quads[v / 4].corner(v % 4).z)
    &&& after.normals@ == before.normals@ + Seq::new(
        8 * quads.len(),
        |w: int|
            if w % 2 == 0 {
                quads[w / 8].normal.u
            } else {
                quads[w / 8].normal.v
            },
    )
    &&& after.indices@ == before.indices@ + Seq::new(
        6 * quads.len(),
        |m: int| (before.x@.len() + 4 * (m / 6) + fan(m % 6)) as u32,
    )
}

/// Quads added one lot after the other are added together.
pub proof fn quads_add_up(a: Accum, b: Accum, c: Accum, first: Seq<Quad>, second: Seq<Quad>)
    requires
        quads_added(a, b, first),
        quads_added(b, c, second),
    ensures
        quads_added(a, c, first + second),
{
    let both = first + second;
    assert(c.x@ =~= a.x@ + Seq::new(4 * both.len(), |v: int| both[v / 4].corner(v % 4).at.x));
    assert(c.y@ =~= a.y@ + Seq::new(4 * both.len(), |v: int| both[v / 4].corner(v % 4).at.y));
    assert(c.z@ =~= a.z@ + Seq::new(4 * both.len(), |v: int| both[v / 4].corner(v % 4).z));
    assert(c.normals@ =~= a.normals@ + Seq::new(
        8 * both.len(),
        |w: int|
            if w % 2 == 0 {
                both[w / 8].normal.u
            } else {
                both[w / 8].normal.v
            },
    ));
    assert(c.indices@ =~= a.indices@ + Seq::new(
        6 * both.len(),
        |m: int| (a.x@.len() + 4 * (m / 6) + fan(m % 6)) as u32,
    ));
}

/// Adds a quad: its four corners as vertices of one normal, after all that is
/// there, and the two triangles of its fan.
pub fn quad(acc: &mut Accum, q: Quad)
    requires
        old(acc).x.len() + 4 <= u32::MAX,
    ensures
        final(acc).x@ == old(acc).x@ + seq![q.p0.at.x, q.p1.at.x, q.p2.at.x, q.p3.at.x],
        final(acc).y@ == old(acc).y@ + seq![q.p0.at.y, q.p1.at.y, q.p2.at.y, q.p3.at.y],
        final(acc).z@ == old(acc).z@ + seq![q.p0.z, q.p1.z, q.p2.z, q.p3.z],
        final(acc).normals@ == old(acc).normals@.push(q.normal.u).push(q.normal.v).push(
            q.normal.u,
        ).push(q.normal.v).push(q.normal.u).push(q.normal.v).push(q.normal.u).push(q.normal.v),
        ({
            let n = old(acc).x@.len();
            final(acc).indices@ == old(acc).indices@ + seq![
                n as u32,
                (n + 1) as u32,
                (n + 2) as u32,
                n as u32,
                (n + 2) as u32,
                (n + 3) as u32,
            ]
        }),
        quads_added(*old(acc), *final(acc), seq![q]),
        old(acc).well_formed() ==> final(acc).well_formed(),
{
    let ghost n = acc.x@.len();
    let v0: u32 = acc.push(q.p0, q.normal);
    let v1: u32 = acc.push(q.p1, q.normal);
    let v2: u32 = acc.push(q.p2, q.normal);
    let v3: u32 = acc.push(q.p3, q.normal);
    acc.tri(v0, v1, v2);
    acc.tri(v0, v2, v3);
    proof {
        let one = seq![q];
        assert(acc.x@ =~= old(acc).x@ + Seq::new(4, |v: int| one[v / 4].corner(v % 4).at.x));
        assert(acc.y@ =~= old(acc).y@ + Seq::new(4, |v: int| one[v / 4].corner(v % 4).at.y));
        assert(acc.z@ =~= old(acc).z@ + Seq::new(4, |v: int| one[v / 4].corner(v % 4).z));
        assert(acc.normals@ =~= old(acc).normals@ + Seq::new(
            8,
            |w: int|
                if w % 2 == 0 {
                    one[w / 8].normal.u
                } else {
                    one[w / 8].normal.v
                },
        ));
        assert(acc.indices@ =~= old(acc).indices@ + Seq::new(
            6,
            |m: int| (n + 4 * (m / 6) + fan(m % 6)) as u32,
        ));
    }
}

/// A cross-section laid out on the tile's grid.
#[derive(Clone, Copy, Debug, PartialEq, Eq, Structural)]
pub struct Rib {
    pub left: Corner,
    pub right: Corner,
    pub top: i32,
    pub bottom: i32,
    /// The normals of the walls that start here.
    pub out_left: Normal,
    pub out_right: Normal,
}

pub open spec fn vertex(at: Corner, z: i32) -> Vertex {
    Vertex { at, z }
}

/// The four faces between two ribs: bottom, top, left and right.
pub open spec fn faces(a: Rib, b: Rib, up: Normal, down: Normal) -> Seq<Quad> {
    seq![
        Quad {
            p0: vertex(a.left, a.bottom),
            p1: vertex(a.right, a.bottom),
            p2: vertex(b.right, b.bottom),
            p3: vertex(b.left, b.bottom),
            normal: down,
        },
        Quad {
            p0: vertex(a.left, a.top),
            p1: vertex(b.left, b.top),
            p2: vertex(b.right, b.top),
            p3: vertex(a.right, a.top),
            normal: up,
        },
        Quad {
            p0: vertex(a.left, a.bottom),
            p1: vertex(b.left, b.bottom),
            p2: vertex(b.left, b.top),
            p3: vertex(a.left, a.top),
            normal: a.out_left,
        },
        Quad {
            p0: vertex(a.right, a.bottom),
            p1: vertex(a.right, a.top),
            p2: vertex(b.right, b.top),
            p3: vertex(b.right, b.bottom),
            normal: a.out_right,
        },
    ]
}

/// The faces of the first `n` stretches between ribs.
pub open spec fn prism(ribs: Seq<Rib>, up: Normal, down: Normal, n: int) -> Seq<Quad>
    decreases n,
{
    if n <= 0 {
        Seq::empty()
    } else {
        prism(ribs, up, down, n - 1) + faces(ribs[n - 1], ribs[n], up, down)
    }
}

/// The face that closes an end.
pub open spec fn portal(r: Rib, normal: Normal) -> Quad {
    Quad {
        p0: vertex(r.left, r.bottom),
        p1: vertex(r.right, r.bottom),
        p2: vertex(r.right, r.top),
        p3: vertex(r.left, r.top),
        normal,
    }
}

/// A box to sweep: its ribs in order, and the normals of its end faces where an
/// end is capped.
#[derive(Debug)]
pub struct Sweep {
    pub ribs: Vec<Rib>,
    pub low: Option<Normal>,
    pub high: Option<Normal>,
}

/// The quads of a swept box: its prism, then its caps.
pub open spec fn swept(s: Sweep, up: Normal, down: Normal) -> Seq<Quad> {
    let ribs = s.ribs@;
    if ribs.len() < 2 {
        Seq::empty()
    } else {
        let body = prism(ribs, up, down, ribs.len() - 1);
        let low = match s.low {
            Some(n) => body.push(portal(ribs[0], n)),
            None => body,
        };
        match s.high {
            Some(n) => low.push(portal(ribs[ribs.len() - 1], n)),
            None => low,
        }
    }
}

/// The quads of the first `n` boxes.
pub open spec fn all_swept(sweeps: Seq<Sweep>, up: Normal, down: Normal, n: int) -> Seq<Quad>
    decreases n,
{
    if n <= 0 {
        Seq::empty()
    } else {
        all_swept(sweeps, up, down, n - 1) + swept(sweeps[n - 1], up, down)
    }
}

proof fn lemma_prism_len(ribs: Seq<Rib>, up: Normal, down: Normal, n: int)
    requires
        0 <= n,
    ensures
        prism(ribs, up, down, n).len() == 4 * n,
    decreases n,
{
    if n > 0 {
        lemma_prism_len(ribs, up, down, n - 1);
    }
}

proof fn lemma_all_swept_len(sweeps: Seq<Sweep>, up: Normal, down: Normal, i: int, n: int)
    requires
        0 <= i <= n,
    ensures
        all_swept(sweeps, up, down, i).len() <= all_swept(sweeps, up, down, n).len(),
    decreases n,
{
    if i < n {
        lemma_all_swept_len(sweeps, up, down, i, n - 1);
    }
}

/// Closes an end with a face.
fn cap_end(acc: &mut Accum, r: &Rib, normal: Normal)
    requires
        old(acc).x.len() + 4 <= u32::MAX,
    ensures
        quads_added(*old(acc), *final(acc), seq![portal(*r, normal)]),
{
    let q: Quad = Quad {
        p0: Vertex { at: r.left, z: r.bottom },
        p1: Vertex { at: r.right, z: r.bottom },
        p2: Vertex { at: r.right, z: r.top },
        p3: Vertex { at: r.left, z: r.top },
        normal,
    };
    quad(acc, q);
}

/// Draws the four faces between two ribs.
fn stretch(acc: &mut Accum, a: &Rib, b: &Rib, up: Normal, down: Normal)
    requires
        old(acc).x.len() + 16 <= u32::MAX,
    ensures
        quads_added(*old(acc), *final(acc), faces(*a, *b, up, down)),
{
    let ghost acc0 = *acc;
    let f0: Quad = Quad {
        p0: Vertex { at: a.left, z: a.bottom },
        p1: Vertex { at: a.right, z: a.bottom },
        p2: Vertex { at: b.right, z: b.bottom },
        p3: Vertex { at: b.left, z: b.bottom },
        normal: down,
    };
    quad(acc, f0);
    let ghost acc1 = *acc;
    let f1: Quad = Quad {
        p0: Vertex { at: a.left, z: a.top },
        p1: Vertex { at: b.left, z: b.top },
        p2: Vertex { at: b.right, z: b.top },
        p3: Vertex { at: a.right, z: a.top },
        normal: up,
    };
    quad(acc, f1);
    let ghost acc2 = *acc;
    let f2: Quad = Quad {
        p0: Vertex { at: a.left, z: a.bottom },
        p1: Vertex { at: b.left, z: b.bottom },
        p2: Vertex { at: b.left, z: b.top },
        p3: Vertex { at: a.left, z: a.top },
        normal: a.out_left,
    };
    quad(acc, f2);
    let ghost acc3 = *acc;
    let f3: Quad = Quad {
        p0: Vertex { at: a.right, z: a.bottom },
        p1: Vertex { at: a.right, z: a.top },
        p2: Vertex { at: b.right, z: b.top },
        p3: Vertex { at: b.right, z: b.bottom },
        normal: a.out_right,
    };
    quad(acc, f3);
    proof {
        quads_add_up(acc0, acc1, acc2, seq![f0], seq![f1]);
        quads_add_up(acc0, acc2, acc3, seq![f0] + seq![f1], seq![f2]);
        quads_add_up(acc0, acc3, *acc, seq![f0] + seq![f1] + seq![f2], seq![f3]);
        assert(seq![f0] + seq![f1] + seq![f2] + seq![f3] =~= faces(*a, *b, up, down));
    }
}

/// Draws the faces between every two neighbouring ribs.
fn sweep_prism(acc: &mut Accum, ribs: &Vec<Rib>, up: Normal, down: Normal)
    requires
        ribs.len() >= 2,
        old(acc).x.len() + 16 * (ribs.len() - 1) <= u32::MAX,
    ensures
        quads_added(*old(acc), *final(acc), prism(ribs@, up, down, ribs.len() - 1)),
{
    let ghost start = *acc;
    let n: usize = ribs.len() - 1;
    let mut i: usize = 0;
    proof {
        lemma_nothing_added(start);
    }
    while i < n
        invariant
            i <= n,
            n == ribs.len() - 1,
            start.x.len() + 16 * n <= u32::MAX,
            quads_added(start, *acc, prism(ribs@, up, down, i as int)),
        decreases n - i,
    {
        let ghost mid = *acc;
        proof {
            lemma_prism_len(ribs@, up, down, i as int);
        }
        stretch(acc, &ribs[i], &ribs[i + 1], up, down);
        proof {
            quads_add_up(
                start,
                mid,
                *acc,
                prism(ribs@, up, down, i as int),
                faces(ribs[i as int], ribs[i + 1], up, down),
            );
        }
        i = i + 1;
    }
}

proof fn lemma_nothing_added(a: Accum)
    ensures
        quads_added(a, a, Seq::empty()),
{
    assert(a.x@ =~= a.x@ + Seq::empty());
    assert(a.y@ =~= a.y@ + Seq::empty());
    assert(a.z@ =~= a.z@ + Seq::empty());
    assert(a.normals@ =~= a.normals@ + Seq::empty());
    assert(a.indices@ =~= a.indices@ + Seq::empty());
}

/// What is added to nothing is all that is drawn.
proof fn lemma_drawn(start: Accum, acc: Accum, quads: Seq<Quad>)
    requires
        start.shows(Seq::empty()),
        quads_added(start, acc, quads),
        4 * quads.len() <= u32::MAX,
    ensures
        acc.shows(quads),
{
}

/// Draws swept boxes as one mesh, or nothing when there is no box to draw: the
/// caller then drapes the road.
pub fn stamp(sweeps: &[Sweep], up: Normal, down: Normal) -> (out: Option<TerrainMesh>)
    requires
        4 * all_swept(sweeps@, up, down, sweeps.len() as int).len() <= u32::MAX,
    ensures
        out is None <==> all_swept(sweeps@, up, down, sweeps.len() as int).len() == 0,
        out matches Some(m) ==> m.well_formed() && draws(
            m.x@,
            m.y@,
            m.z@,
            m.indices@,
            m.normals@,
            all_swept(sweeps@, up, down, sweeps.len() as int),
        ),
{
    let mut acc: Accum = Accum::new();
    let ghost start = acc;
    let ghost total = all_swept(sweeps@, up, down, sweeps.len() as int);
    let mut i: usize = 0;
    proof {
        lemma_nothing_added(start);
    }
    while i < sweeps.len()
        invariant
            i <= sweeps.len(),
            total == all_swept(sweeps@, up, down, sweeps.len() as int),
            4 * total.len() <= u32::MAX,
            start.x@.len() == 0,
            quads_added(start, acc, all_swept(sweeps@, up, down, i as int)),
        decreases sweeps.len() - i,
    {
        let s: &Sweep = &sweeps[i];
        let n: usize = s.ribs.len();
        let ghost mut drawn = all_swept(sweeps@, up, down, i as int);
        let ghost after = drawn + swept(*s, up, down);
        proof {
            lemma_all_swept_len(sweeps@, up, down, i + 1, sweeps.len() as int);
        }
        if n >= 2 {
            let ghost body = prism(s.ribs@, up, down, n - 1);
            proof {
                lemma_prism_len(s.ribs@, up, down, n - 1);
            }
            let ghost mid = acc;
            sweep_prism(&mut acc, &s.ribs, up, down);
            proof {
                quads_add_up(start, mid, acc, drawn, body);
                drawn = drawn + body;
            }
            if let Some(normal) = s.low {
                let ghost mid = acc;
                cap_end(&mut acc, &s.ribs[0], normal);
                proof {
                    let face = seq![portal(s.ribs[0], normal)];
                    quads_add_up(start, mid, acc, drawn, face);
                    drawn = drawn + face;
                }
            }
            if let Some(normal) = s.high {
                let ghost mid = acc;
                cap_end(&mut acc, &s.ribs[n - 1], normal);
                proof {
                    let face = seq![portal(s.ribs[n - 1], normal)];
                    quads_add_up(start, mid, acc, drawn, face);
                    drawn = drawn + face;
                }
            }
        }
        assert(drawn =~= after);
        i = i + 1;
    }
    proof {
        lemma_drawn(start, acc, total);
    }
    acc.into_mesh()
}

/// A box has four faces between neighbouring ribs and one at each capped end:
/// 24 indices a stretch and 6 a cap.
pub proof fn a_box_has_four_faces_a_stretch(s: Sweep, up: Normal, down: Normal)
    requires
        s.ribs@.len() >= 2,
    ensures
        swept(s, up, down).len() == 4 * (s.ribs@.len() - 1) + (if s.low is Some {
            1int
        } else {
            0
        }) + (if s.high is Some {
            1int
        } else {
            0
        }),
{
    lemma_prism_len(s.ribs@, up, down, s.ribs@.len() - 1);
}

/// A swept box stays between the heights of its ribs.
pub proof fn a_box_stays_between_its_ribs(
    s: Sweep,
    up: Normal,
    down: Normal,
    lo: i32,
    hi: i32,
    k: int,
    j: int,
)
    requires
        forall|i: int|
            0 <= i < s.ribs@.len() ==> lo <= (#[trigger] s.ribs@[i]).bottom <= s.ribs@[i].top <= hi,
        0 <= k < swept(s, up, down).len(),
        0 <= j < 4,
    ensures
        lo <= swept(s, up, down)[k].corner(j).z <= hi,
{
    let ribs = s.ribs@;
    let n = ribs.len() as int;
    lemma_prism_len(ribs, up, down, n - 1);
    if k < 4 * (n - 1) {
        lemma_prism_heights(ribs, up, down, lo, hi, n - 1, k, j);
        assert(swept(s, up, down)[k] == prism(ribs, up, down, n - 1)[k]);
    } else {
        assert(lo <= ribs[0].bottom <= ribs[0].top <= hi);
        assert(lo <= ribs[n - 1].bottom <= ribs[n - 1].top <= hi);
    }
}

proof fn lemma_prism_heights(
    ribs: Seq<Rib>,
    up: Normal,
    down: Normal,
    lo: i32,
    hi: i32,
    n: int,
    k: int,
    j: int,
)
    requires
        0 <= n < ribs.len(),
        forall|i: int|
            0 <= i < ribs.len() ==> lo <= (#[trigger] ribs[i]).bottom <= ribs[i].top <= hi,
        0 <= k < prism(ribs, up, down, n).len(),
        0 <= j < 4,
    ensures
        lo <= prism(ribs, up, down, n)[k].corner(j).z <= hi,
    decreases n,
{
    if n > 0 {
        lemma_prism_len(ribs, up, down, n - 1);
        let before = prism(ribs, up, down, n - 1);
        if k < before.len() {
            lemma_prism_heights(ribs, up, down, lo, hi, n - 1, k, j);
            assert(prism(ribs, up, down, n)[k] == before[k]);
        } else {
            assert(lo <= ribs[n - 1].bottom <= ribs[n - 1].top <= hi);
            assert(lo <= ribs[n].bottom <= ribs[n].top <= hi);
            assert(prism(ribs, up, down, n)[k] == faces(ribs[n - 1], ribs[n], up, down)[k
                - before.len()]);
        }
    }
}

/// Whether two vertices are neighbours round a quad.
pub open spec fn has_side(q: Quad, p: Vertex, r: Vertex) -> bool {
    ||| (q.p0 == p && q.p1 == r) || (q.p0 == r && q.p1 == p)
    ||| (q.p1 == p && q.p2 == r) || (q.p1 == r && q.p2 == p)
    ||| (q.p2 == p && q.p3 == r) || (q.p2 == r && q.p3 == p)
    ||| (q.p3 == p && q.p0 == r) || (q.p3 == r && q.p0 == p)
}

proof fn lemma_prism_face(ribs: Seq<Rib>, up: Normal, down: Normal, n: int, i: int, k: int)
    requires
        0 <= i < n,
        0 <= k < 4,
    ensures
        prism(ribs, up, down, n).len() == 4 * n,
        prism(ribs, up, down, n)[4 * i + k] == faces(ribs[i], ribs[i + 1], up, down)[k],
    decreases n,
{
    lemma_prism_len(ribs, up, down, n);
    lemma_prism_len(ribs, up, down, n - 1);
    if i < n - 1 {
        lemma_prism_face(ribs, up, down, n - 1, i, k);
    }
}

/// Between two ribs a box is closed all round: a floor, a top and two walls,
/// each with its own normal, any two neighbours sharing the edge that runs from
/// rib to rib, and each ending in its own edge of either rib.
pub proof fn a_stretch_is_closed_all_round(s: Sweep, up: Normal, down: Normal, i: int)
    requires
        0 <= i,
        i + 1 < s.ribs@.len(),
    ensures
        ({
            let (a, b) = (s.ribs@[i], s.ribs@[i + 1]);
            let floor = swept(s, up, down)[4 * i];
            let top = swept(s, up, down)[4 * i + 1];
            let left = swept(s, up, down)[4 * i + 2];
            let right = swept(s, up, down)[4 * i + 3];
            let al = Vertex { at: a.left, z: a.bottom };
            let ar = Vertex { at: a.right, z: a.bottom };
            let bl = Vertex { at: b.left, z: b.bottom };
            let br = Vertex { at: b.right, z: b.bottom };
            let al_top = Vertex { at: a.left, z: a.top };
            let ar_top = Vertex { at: a.right, z: a.top };
            let bl_top = Vertex { at: b.left, z: b.top };
            let br_top = Vertex { at: b.right, z: b.top };
            &&& floor.normal == down && top.normal == up
            &&& left.normal == a.out_left && right.normal == a.out_right
            &&& has_side(floor, al, bl) && has_side(left, al, bl)
            &&& has_side(floor, ar, br) && has_side(right, ar, br)
            &&& has_side(top, al_top, bl_top) && has_side(left, al_top, bl_top)
            &&& has_side(top, ar_top, br_top) && has_side(right, ar_top, br_top)
            &&& has_side(floor, al, ar) && has_side(floor, bl, br)
            &&& has_side(top, al_top, ar_top) && has_side(top, bl_top, br_top)
            &&& has_side(left, al, al_top) && has_side(left, bl, bl_top)
            &&& has_side(right, ar, ar_top) && has_side(right, br, br_top)
        }),
{
    let ribs = s.ribs@;
    let n = ribs.len() - 1;
    lemma_prism_face(ribs, up, down, n, i, 0);
    lemma_prism_face(ribs, up, down, n, i, 1);
    lemma_prism_face(ribs, up, down, n, i, 2);
    lemma_prism_face(ribs, up, down, n, i, 3);
    assert(4 * i + 3 < 4 * n);
}

/// A capped end is closed by one more face, of the cap's normal, that has all
/// four edges of the rib there: the low end's before the high end's.
pub proof fn a_capped_end_is_closed(s: Sweep, up: Normal, down: Normal)
    requires
        s.ribs@.len() >= 2,
    ensures
        ({
            let n = s.ribs@.len() as int;
            let quads = swept(s, up, down);
            &&& s.low matches Some(normal) ==> closes(quads[4 * (n - 1)], s.ribs@[0], normal)
            &&& s.high matches Some(normal) ==> closes(quads.last(), s.ribs@[n - 1], normal)
        }),
{
    lemma_prism_len(s.ribs@, up, down, s.ribs@.len() - 1);
}

/// Whether a face has a normal and all four edges of a rib.
pub open spec fn closes(q: Quad, r: Rib, normal: Normal) -> bool {
    let left = Vertex { at: r.left, z: r.bottom };
    let right = Vertex { at: r.right, z: r.bottom };
    let left_top = Vertex { at: r.left, z: r.top };
    let right_top = Vertex { at: r.right, z: r.top };
    &&& q.normal == normal
    &&& has_side(q, left, right)
    &&& has_side(q, right, right_top)
    &&& has_side(q, right_top, left_top)
    &&& has_side(q, left_top, left)
}

/// A box of fewer than two ribs has no faces, and every box's faces are drawn,
/// box after box.
pub proof fn every_box_is_drawn(sweeps: Seq<Sweep>, up: Normal, down: Normal, k: int, n: int)
    requires
        0 <= k < n <= sweeps.len(),
    ensures
        sweeps[k].ribs@.len() < 2 ==> swept(sweeps[k], up, down).len() == 0,
        ({
            let before = all_swept(sweeps, up, down, k).len();
            let own = swept(sweeps[k], up, down);
            &&& all_swept(sweeps, up, down, 0).len() == 0
            &&& all_swept(sweeps, up, down, k + 1).len() == before + own.len()
            &&& before + own.len() <= all_swept(sweeps, up, down, n).len()
            &&& all_swept(sweeps, up, down, n).subrange(before as int, (before + own.len()) as int)
                == own
        }),
    decreases n,
{
    let before = all_swept(sweeps, up, down, k).len() as int;
    let own = swept(sweeps[k], up, down);
    let all = all_swept(sweeps, up, down, n);
    if k < n - 1 {
        every_box_is_drawn(sweeps, up, down, k, n - 1);
        let rest = all_swept(sweeps, up, down, n - 1);
        assert(all.subrange(before, before + own.len()) =~= rest.subrange(
            before,
            before + own.len(),
        ));
    } else {
        assert(all.subrange(before, before + own.len()) =~= own);
    }
}

/// A mesh that draws quads draws each as two triangles that share its diagonal,
/// every vertex of them at its corner and with the quad's normal.
pub proof fn a_quad_is_drawn_as_its_two_halves(
    x: Seq<u16>,
    y: Seq<u16>,
    z: Seq<i32>,
    indices: Seq<u32>,
    normals: Seq<i8>,
    quads: Seq<Quad>,
    q: int,
)
    requires
        draws(x, y, z, indices, normals, quads),
        0 <= q < quads.len(),
        4 * quads.len() <= u32::MAX,
    ensures
        indices.len() == 6 * quads.len(),
        stands_at(x, y, z, normals, indices[6 * q] as int, quads[q].p0, quads[q].normal),
        stands_at(x, y, z, normals, indices[6 * q + 1] as int, quads[q].p1, quads[q].normal),
        stands_at(x, y, z, normals, indices[6 * q + 2] as int, quads[q].p2, quads[q].normal),
        stands_at(x, y, z, normals, indices[6 * q + 3] as int, quads[q].p0, quads[q].normal),
        stands_at(x, y, z, normals, indices[6 * q + 4] as int, quads[q].p2, quads[q].normal),
        stands_at(x, y, z, normals, indices[6 * q + 5] as int, quads[q].p3, quads[q].normal),
{
    assert forall|j: int| 0 <= j < 6 implies #[trigger] indices[6 * q + j] == 4 * q + fan(j) by {
        assert((6 * q + j) / 6 == q && (6 * q + j) % 6 == j);
    }
    assert(indices[6 * q + 0] == 4 * q + fan(0));
    assert forall|j: int| 0 <= j < 4 implies #[trigger] stands_at(
        x,
        y,
        z,
        normals,
        4 * q + j,
        quads[q].corner(j),
        quads[q].normal,
    ) by {
        assert((4 * q + j) / 4 == q && (4 * q + j) % 4 == j);
        assert((2 * (4 * q + j)) / 8 == q && (2 * (4 * q + j) + 1) / 8 == q);
        assert((2 * (4 * q + j)) % 2 == 0 && (2 * (4 * q + j) + 1) % 2 == 1);
    }
    assert(stands_at(x, y, z, normals, 4 * q + 0, quads[q].corner(0), quads[q].normal));
    assert(stands_at(x, y, z, normals, 4 * q + 1, quads[q].corner(1), quads[q].normal));
    assert(stands_at(x, y, z, normals, 4 * q + 2, quads[q].corner(2), quads[q].normal));
    assert(stands_at(x, y, z, normals, 4 * q + 3, quads[q].corner(3), quads[q].normal));
}

/// Whether a mesh's vertex has a position and a normal.
pub open spec fn stands_at(
    x: Seq<u16>,
    y: Seq<u16>,
    z: Seq<i32>,
    normals: Seq<i8>,
    i: int,
    v: Vertex,
    n: Normal,
) -> bool {
    &&& 0 <= i < x.len() && i < y.len() && i < z.len() && 2 * i + 1 < normals.len()
    &&& x[i] == v.at.x && y[i] == v.at.y && z[i] == v.z
    &&& normals[2 * i] == n.u && normals[2 * i + 1] == n.v
}

/// A height is stored as the nearest whole millimetre that 32 bits hold.
pub proof fn a_height_is_the_nearest_millimetre(um: int)
    ensures
        i32::MIN <= to_mm(um) <= i32::MAX,
        i32::MIN * 1000 <= um <= i32::MAX * 1000 ==> -500 <= um - 1000 * to_mm(um) <= 500,
{
    the_nearest_is_off_by_half_at_most(um, 1000);
    if i32::MIN * 1000 <= um <= i32::MAX * 1000 {
        lemma_nearest_bounds(um, 1000, i32::MIN as int, i32::MAX as int);
    }
}

/// A cap stands on the crossing in proportion to the gaps on either side: every
/// measure of it is as far from the buried section's as the road has to rise,
/// rounded.
pub proof fn a_cap_stands_in_proportion(a: Section, b: Section)
    requires
        a.gap < 0 <= b.gap,
    ensures
        ({
            let c = crossing(a, b);
            let t = -a.gap as int;
            let d = b.gap - a.gap;
            &&& c.gap == 0
            &&& -d < (c.at.lon - a.at.lon) * d - (b.at.lon - a.at.lon) * t < d
            &&& -d < (c.at.lat - a.at.lat) * d - (b.at.lat - a.at.lat) * t < d
            &&& -d < (c.left_e - a.left_e) * d - (b.left_e - a.left_e) * t < d
            &&& -d < (c.left_n - a.left_n) * d - (b.left_n - a.left_n) * t < d
            &&& -d <= 2 * (a.top * d + (b.top - a.top) * t - c.top * d) <= d
            &&& -d <= 2 * (a.bottom * d + (b.bottom - a.bottom) * t - c.bottom * d) <= d
        }),
{
    let t = -a.gap as int;
    let d = b.gap - a.gap;
    lemma_part_way(a.at.lon as int, b.at.lon as int, t, d);
    lemma_part_way(a.at.lat as int, b.at.lat as int, t, d);
    lemma_part_way(a.left_e as int, b.left_e as int, t, d);
    lemma_part_way(a.left_n as int, b.left_n as int, t, d);
    a_part_of_the_way_is_in_proportion(a.at.lon as int, b.at.lon as int, t, d);
    a_part_of_the_way_is_in_proportion(a.at.lat as int, b.at.lat as int, t, d);
    a_part_of_the_way_is_in_proportion(a.left_e as int, b.left_e as int, t, d);
    a_part_of_the_way_is_in_proportion(a.left_n as int, b.left_n as int, t, d);
    lemma_height_way(a.top as int, b.top as int, t, d);
    lemma_height_way(a.bottom as int, b.bottom as int, t, d);
}

proof fn lemma_height_way(a: int, b: int, t: int, d: int)
    requires
        0 < d,
        0 <= t <= d,
    ensures
        min(a, b) <= height_way(a, b, t, d) <= max(a, b),
        -d <= 2 * (a * d + (b - a) * t - height_way(a, b, t, d) * d) <= d,
{
    let v = b - a;
    let lo = min(a, b);
    let hi = max(a, b);
    assert(lo * d <= a * d + v * t <= hi * d) by (nonlinear_arith)
        requires
            lo <= a <= hi,
            lo <= a + v <= hi,
            0 <= t <= d,
            lo == a || lo == a + v,
            hi == a || hi == a + v,
    ;
    lemma_nearest_bounds(a * d + v * t, d, lo, hi);
    the_nearest_is_off_by_half_at_most(a * d + v * t, d);
}

/// Trimming an end leaves everything from its first buried section on as it
/// was, and puts one cap before it, on the crossing with the section outside.
/// Where nothing stands above the ground there, or nothing is buried, all stay.
pub proof fn a_trim_keeps_what_is_buried(s: Seq<Section>, i: int)
    requires
        0 <= i < s.len(),
        s[i].gap < 0,
    ensures
        (forall|k: int| 0 <= k < i ==> (#[trigger] s[k]).gap >= 0) ==> {
            let t = trimmed(s, End::Low);
            &&& i == 0 ==> t == s
            &&& i > 0 ==> t.len() == s.len() - i + 1 && t[0] == crossing(s[i], s[i - 1])
            &&& i > 0 ==> forall|k: int| i <= k < s.len() ==> t[k - i + 1] == #[trigger] s[k]
        },
        (forall|k: int| i < k < s.len() ==> (#[trigger] s[k]).gap >= 0) ==> {
            let t = trimmed(s, End::High);
            &&& i == s.len() - 1 ==> t == s
            &&& i < s.len() - 1 ==> t.len() == i + 2 && t[i + 1] == crossing(s[i], s[i + 1])
            &&& i < s.len() - 1 ==> forall|k: int| 0 <= k <= i ==> t[k] == #[trigger] s[k]
        },
{
    lemma_first_buried(s, 0);
    lemma_last_buried(s, s.len() as int);
    let f = first_buried(s, 0);
    let l = last_buried(s, s.len() as int);
    if forall|k: int| 0 <= k < i ==> (#[trigger] s[k]).gap >= 0 {
        if f < i {
            assert(s[f].gap >= 0);
        }
        assert(f == i);
    }
    if forall|k: int| i < k < s.len() ==> (#[trigger] s[k]).gap >= 0 {
        if l > i {
            assert(s[l].gap >= 0);
        }
        assert(l == i);
    }
}

/// A run with nothing buried is not trimmed.
pub proof fn nothing_buried_is_not_trimmed(s: Seq<Section>, end: End)
    requires
        forall|k: int| 0 <= k < s.len() ==> (#[trigger] s[k]).gap >= 0,
    ensures
        trimmed(s, end) == s,
{
    lemma_first_buried(s, 0);
    lemma_last_buried(s, s.len() as int);
    let f = first_buried(s, 0);
    let l = last_buried(s, s.len() as int);
    if f < s.len() {
        assert(s[f].gap >= 0);
    }
    if l >= 0 {
        assert(s[l].gap >= 0);
    }
}

/// A mouth stands a clearance past the first crossing out of a buried end: in
/// the first stretch of the march whose far sample is above the ground, in
/// proportion to the gaps at its two samples. Where every sample is buried it
/// stands at the reach.
pub proof fn a_mouth_stands_past_the_first_crossing(edge: int, gaps: Seq<i64>, k: int, p: BoxPriors)
    requires
        p.sensible(),
        edge < 0,
        0 <= k <= gaps.len(),
        forall|i: int| 0 <= i < k ==> #[trigger] gaps[i] < 0,
        k < gaps.len() ==> gaps[k] >= 0,
    ensures
        k == gaps.len() ==> mouth_from(edge, gaps, 0, p) == p.reach,
        k < gaps.len() ==> {
            let before = if k == 0 {
                edge
            } else {
                gaps[k - 1] as int
            };
            let past = mouth_from(edge, gaps, 0, p) - p.clearance - k * p.march;
            &&& 0 <= past <= p.march
            &&& -(gaps[k] - before) < past * (gaps[k] - before) - p.march * -before < gaps[k] - before
        },
{
    lemma_mouth(edge, gaps, 0, k, p);
}

proof fn lemma_mouth(prev: int, gaps: Seq<i64>, j: int, k: int, p: BoxPriors)
    requires
        p.sensible(),
        prev < 0,
        0 <= j <= k <= gaps.len(),
        forall|i: int| 0 <= i < k ==> #[trigger] gaps[i] < 0,
        k < gaps.len() ==> gaps[k] >= 0,
    ensures
        k == gaps.len() ==> mouth_from(prev, gaps, j, p) == p.reach,
        k < gaps.len() ==> {
            let before = if k == j {
                prev
            } else {
                gaps[k - 1] as int
            };
            let past = mouth_from(prev, gaps, j, p) - p.clearance - k * p.march;
            &&& 0 <= past <= p.march
            &&& -(gaps[k] - before) < past * (gaps[k] - before) - p.march * -before < gaps[k] - before
        },
    decreases k - j,
{
    if j < k {
        lemma_mouth(gaps[j] as int, gaps, j + 1, k, p);
    } else if k < gaps.len() {
        lemma_part_way(0, p.march as int, -prev, gaps[k] - prev);
        a_part_of_the_way_is_in_proportion(0, p.march as int, -prev, gaps[k] - prev);
    }
}

/// An end above the ground, or a real end of the run, is capped; only a buried
/// cut at the tile's border stays open, and there nothing changes. A march out
/// of a buried end adds its cap outside everything that was there.
pub proof fn only_a_buried_border_stays_open(
    s: Seq<Section>,
    end: End,
    interior: bool,
    cap: Option<Section>,
)
    requires
        s.len() > 0,
    ensures
        ({
            let outer = match end {
                End::Low => s[0],
                End::High => s[s.len() - 1],
            };
            let out = resolved(s, end, interior, cap);
            &&& is_capped(s, end, interior) <==> outer.gap >= 0 || interior
            &&& outer.gap >= 0 ==> out == trimmed(s, end)
            &&& outer.gap < 0 && (!interior || cap is None) ==> out == s
            &&& outer.gap < 0 && interior ==> (cap matches Some(c) ==> {
                &&& out.len() == s.len() + 1
                &&& end is Low ==> out[0] == c && forall|k: int|
                    0 <= k < s.len() ==> out[k + 1] == #[trigger] s[k]
                &&& end is High ==> out.last() == c && forall|k: int|
                    0 <= k < s.len() ==> out[k] == #[trigger] s[k]
            })
        }),
{
}

/// A bore that lies wholly above the ground is none, and one with a buried
/// section is drawn with all it has. Its high end is resolved before its low
/// one, and a buried real end is marched out of.
pub proof fn a_bore_is_resolved_end_by_end(s: Seq<Section>, low: bool, high: bool)
    requires
        s.len() >= 2,
    ensures
        s[s.len() - 1].gap < 0 && high ==> (first_step(s, low, high) matches StepView::March {
            end,
            edge,
            inner,
            sections,
            ..
        } && end is High && edge == s[s.len() - 1] && inner == s[s.len() - 2] && sections == s),
        s[s.len() - 1].gap < 0 && !high && s[0].gap < 0 && low ==> (first_step(
            s,
            low,
            high,
        ) matches StepView::March { end, edge, inner, sections, capped, .. } && end is Low && edge
            == s[0] && inner == s[1] && sections == s && !capped),
        s[s.len() - 1].gap < 0 && !high && s[0].gap < 0 && !low ==> first_step(s, low, high)
            == (StepView::Done { bore: Some((s, false, false)) }),
        (forall|k: int| 0 <= k < s.len() ==> (#[trigger] s[k]).gap >= 0) ==> first_step(
            s,
            low,
            high,
        ) == (StepView::Done { bore: None }),
        s[s.len() - 1].gap >= 0 && s[0].gap >= 0 && any_buried(s) ==> first_step(s, low, high) == (
        StepView::Done { bore: Some((trimmed(trimmed(s, End::High), End::Low), true, true)) }),
{
    if s[s.len() - 1].gap < 0 && s[0].gap < 0 {
        assert(any_buried(s));
    }
    if forall|k: int| 0 <= k < s.len() ==> (#[trigger] s[k]).gap >= 0 {
        nothing_buried_is_not_trimmed(s, End::High);
        nothing_buried_is_not_trimmed(s, End::Low);
        assert(!any_buried(s));
    }
    if s[s.len() - 1].gap >= 0 && s[0].gap >= 0 && any_buried(s) {
        let t = trimmed(s, End::High);
        lemma_last_buried(s, s.len() as int);
        let w = choose|i: int| 0 <= i < s.len() && (#[trigger] s[i]).gap < 0;
        let l = last_buried(s, s.len() as int);
        assert(w <= l);
        assert(0 < l < s.len() - 1);
        assert(t[0] == s[0]);
        assert(t[l] == s[l]);
        assert(any_buried(t));
        a_trimmed_end_stands_on_the_crossing(t, End::Low);
        let u = trimmed(t, End::Low);
        assert(u[1].gap < 0);
        assert(any_buried(u));
        lemma_resolved_len(s, End::High, high, None);
    }
}

/// A place is on the tile's border where it is within a ten-thousandth of the
/// tile's size of one of its four edges.
pub proof fn the_border_is_all_four_edges(c: Place, t: TileEdges)
    ensures
        is_on_edge(c, t) <==> {
            let (w, h) = (t.east - t.west, t.north - t.south);
            ||| -w < 10_000 * (c.lon - t.west) < w
            ||| -w < 10_000 * (c.lon - t.east) < w
            ||| -h < 10_000 * (c.lat - t.south) < h
            ||| -h < 10_000 * (c.lat - t.north) < h
        },
{
}

/// A stretch of a densified line is split into even steps: each vertex is in
/// proportion to its number among them, the last at the stretch's end.
pub proof fn a_stretch_is_split_evenly(pts: Seq<Place>, lens: Seq<u64>, n: int, k: int)
    requires
        0 < n < pts.len(),
        lens.len() + 1 == pts.len(),
        forall|i: int| 0 <= i < pts.len() ==> on_globe(#[trigger] pts[i]),
        densified(pts, lens, n).len() < MAX_VERTS,
        1 <= k,
        densified(pts, lens, n - 1).len() + k <= densified(pts, lens, n).len(),
    ensures
        ({
            let before = densified(pts, lens, n - 1);
            let line = densified(pts, lens, n);
            let of = line.len() - before.len();
            let v = line[before.len() + k - 1];
            let (a, b) = (pts[n - 1], pts[n]);
            &&& line.take(before.len() as int) == before
            &&& lens[n - 1] <= of * 8_000_000 && (of == 1 || lens[n - 1] > (of - 1) * 8_000_000)
            &&& -of < (v.lon - a.lon) * of - (b.lon - a.lon) * k < of
            &&& -of < (v.lat - a.lat) * of - (b.lat - a.lat) * k < of
        }),
{
    let before = densified(pts, lens, n - 1);
    let line = densified(pts, lens, n);
    let (a, b) = (pts[n - 1], pts[n]);
    let of = split_of(lens[n - 1] as int);
    let upto = min(of, MAX_VERTS - before.len());
    a_densified_line_passes_its_vertices(pts, lens, n - 1);
    lemma_steps_len(a, b, of, upto);
    assert(line.take(before.len() as int) =~= before);
    assert(upto == of);
    lemma_steps_at(a, b, of, of, k);
    assert(on_globe(a) && on_globe(b));
    lemma_part_way(a.lon as int, b.lon as int, k, of);
    lemma_part_way(a.lat as int, b.lat as int, k, of);
    a_part_of_the_way_is_in_proportion(a.lon as int, b.lon as int, k, of);
    a_part_of_the_way_is_in_proportion(a.lat as int, b.lat as int, k, of);
}

proof fn lemma_steps_at(a: Place, b: Place, of: int, n: int, k: int)
    requires
        1 <= k <= n,
    ensures
        steps_to(a, b, of, n).len() == n,
        steps_to(a, b, of, n)[k - 1] == (Place {
            lon: part_way(a.lon as int, b.lon as int, k, of) as i64,
            lat: part_way(a.lat as int, b.lat as int, k, of) as i64,
        }),
    decreases n,
{
    lemma_steps_len(a, b, of, n);
    if k < n {
        lemma_steps_at(a, b, of, n - 1, k);
    }
}

} // verus!
