//! Do adjacent tiles agree where they meet, and does a surface agree with
//! itself there?
//!
//! Border vertices are joined on the global lattice their quantized
//! coordinates lie on, so a reported step is a real disagreement. What one
//! tile says at a lattice point is a claim, one per tile and sheet; a claim
//! holding two heights is a surface split open, and a border is compared claim
//! against claim.
use std::collections::HashMap;
use vstd::arithmetic::div_mod::lemma_div_nonincreasing;
use vstd::prelude::*;
use vstd::std_specs::hash::*;
use crate::arith::{max, min};
use crate::project::EXTENT;
use crate::verify::{fresh, scored, Invariant, Metric, Note, Offender, Place, Scores, Sense, Tally};
use crate::verify::checks::Options;
use crate::verify::scene::{bump, bumped, RoadMesh};

pub mod found;

verus! {

/// Anything above this is a visible step.
pub const STEP_UM: i128 = 5_000;

/// What one tile says about one lattice point on its border.
#[derive(Clone, Copy, Debug, PartialEq, Eq, Structural)]
pub struct Claim {
    pub tile: u64,
    pub sheet: Option<i64>,
    pub lo: i64,
    pub hi: i64,
}

/// A lattice point on a border and what each tile touching it claims.
#[derive(Debug)]
pub struct BorderPoint {
    pub x: i64,
    pub y: i64,
    pub claims: Vec<Claim>,
}

/// A drawn vertex, in quanta from the tile's west and south edges.
#[derive(Clone, Copy, Debug, PartialEq, Eq, Structural)]
pub struct Vertex {
    pub x: i64,
    pub y: i64,
    pub height: i64,
}

/// What a border point holds.
pub struct Spot {
    pub x: i64,
    pub y: i64,
    pub claims: Seq<Claim>,
}

/// Whether a vertex lies on its tile's border, corners of other pairs of tiles
/// left out.
pub open spec fn on_border(v: Vertex) -> bool {
    &&& v.x == 0 || v.x == EXTENT || v.y == 0 || v.y == EXTENT
    &&& 0 <= v.x <= EXTENT
    &&& 0 <= v.y <= EXTENT
}

/// Where quantum `q` of tile `t` lies on the global lattice.
pub open spec fn lattice(t: int, q: int) -> int {
    t * EXTENT + q
}

/// The number of a tile.
pub open spec fn tile_number(x: int, y: int) -> int {
    x * 0x1_0000_0000 + y
}

/// The claim of a tile and sheet among the first `n`.
pub open spec fn slot_of(claims: Seq<Claim>, tile: u64, sheet: Option<i64>, n: int) -> Option<int>
    decreases n,
{
    if n <= 0 {
        None
    } else {
        match slot_of(claims, tile, sheet, n - 1) {
            Some(k) => Some(k),
            None => if claims[n - 1].tile == tile && claims[n - 1].sheet == sheet {
                Some(n - 1)
            } else {
                None
            },
        }
    }
}

/// The claims after a tile puts a vertex of `sheet` at height `z`.
pub open spec fn claimed(claims: Seq<Claim>, tile: u64, sheet: Option<i64>, z: i64) -> Seq<Claim> {
    match slot_of(claims, tile, sheet, claims.len() as int) {
        Some(k) => claims.update(
            k,
            Claim {
                lo: min(claims[k].lo as int, z as int) as i64,
                hi: max(claims[k].hi as int, z as int) as i64,
                ..claims[k]
            },
        ),
        None => claims.push(Claim { tile, sheet, lo: z, hi: z }),
    }
}

/// The spot at a lattice point among the first `n`.
pub open spec fn spot_of(spots: Seq<Spot>, x: int, y: int, n: int) -> Option<int>
    decreases n,
{
    if n <= 0 {
        None
    } else {
        match spot_of(spots, x, y, n - 1) {
            Some(k) => Some(k),
            None => if spots[n - 1].x == x && spots[n - 1].y == y {
                Some(n - 1)
            } else {
                None
            },
        }
    }
}

/// The spots after a tile puts a vertex at a lattice point.
pub open spec fn noted(spots: Seq<Spot>, x: i64, y: i64, tile: u64, sheet: Option<i64>, z: i64) -> Seq<Spot> {
    match spot_of(spots, x as int, y as int, spots.len() as int) {
        Some(k) => spots.update(k, Spot { claims: claimed(spots[k].claims, tile, sheet, z), ..spots[k] }),
        None => spots.push(Spot { x, y, claims: claimed(Seq::empty(), tile, sheet, z) }),
    }
}

/// The spots after the first `n` vertices of a mesh of tile `x`, `y`.
pub open spec fn collected(spots: Seq<Spot>, mesh: Seq<Vertex>, sheet: Option<i64>, x: u32, y: u32, n: int) -> Seq<Spot>
    decreases n,
{
    if n <= 0 {
        spots
    } else {
        let rest = collected(spots, mesh, sheet, x, y, n - 1);
        let v = mesh[n - 1];
        if on_border(v) {
            noted(
                rest,
                lattice(x as int, v.x as int) as i64,
                lattice(y as int, v.y as int) as i64,
                tile_number(x as int, y as int) as u64,
                sheet,
                v.height,
            )
        } else {
            rest
        }
    }
}

/// No two claims are of one tile and sheet.
pub open spec fn distinct_claims(claims: Seq<Claim>) -> bool {
    forall|i: int, j: int|
        0 <= i < j < claims.len() ==> (#[trigger] claims[i]).tile != (#[trigger] claims[j]).tile || claims[i].sheet
            != claims[j].sheet
}

proof fn lemma_slot_of(claims: Seq<Claim>, tile: u64, sheet: Option<i64>, n: int)
    ensures
        match slot_of(claims, tile, sheet, n) {
            Some(k) => 0 <= k < n && claims[k].tile == tile && claims[k].sheet == sheet,
            None => forall|k: int| 0 <= k < n ==> !((#[trigger] claims[k]).tile == tile && claims[k].sheet == sheet),
        },
    decreases n,
{
    if n > 0 {
        lemma_slot_of(claims, tile, sheet, n - 1);
    }
}

proof fn lemma_spot_of(spots: Seq<Spot>, x: int, y: int, n: int)
    ensures
        match spot_of(spots, x, y, n) {
            Some(k) => 0 <= k < n && spots[k].x == x && spots[k].y == y,
            None => forall|k: int| 0 <= k < n ==> !((#[trigger] spots[k]).x == x && spots[k].y == y),
        },
    decreases n,
{
    if n > 0 {
        lemma_spot_of(spots, x, y, n - 1);
    }
}

/// The east edge of a tile and the west edge of the next lie on the same
/// lattice points.
pub proof fn neighbours_meet_on_their_border(t: int)
    ensures
        lattice(t, EXTENT as int) == lattice(t + 1, 0),
{
}

/// Whatever a tile claims, it keeps one claim per sheet, and that claim
/// reaches the height it was just given.
pub proof fn one_claim_per_tile_and_sheet(claims: Seq<Claim>, tile: u64, sheet: Option<i64>, z: i64)
    requires
        distinct_claims(claims),
    ensures
        distinct_claims(claimed(claims, tile, sheet, z)),
        exists|k: int|
            {
                &&& 0 <= k < claimed(claims, tile, sheet, z).len()
                &&& (#[trigger] claimed(claims, tile, sheet, z)[k]).tile == tile
                &&& claimed(claims, tile, sheet, z)[k].sheet == sheet
                &&& claimed(claims, tile, sheet, z)[k].lo <= z <= claimed(claims, tile, sheet, z)[k].hi
            },
{
    let n = claims.len() as int;
    lemma_slot_of(claims, tile, sheet, n);
    let after = claimed(claims, tile, sheet, z);
    match slot_of(claims, tile, sheet, n) {
        Some(k) => {
            assert(after[k].tile == tile);
        },
        None => {
            assert(after[n].tile == tile);
        },
    }
}

// ---------------------------------------------------------------------------
// What the collected spots measure.
// ---------------------------------------------------------------------------

/// How many tiles a zoom is across.
pub open spec fn across(zoom: int) -> int
    decreases zoom,
{
    if zoom <= 0 {
        1
    } else {
        2 * across(zoom - 1)
    }
}

pub open spec fn capped(v: int) -> i64 {
    if v > i64::MAX {
        i64::MAX
    } else {
        v as i64
    }
}

/// The geodetic position of a lattice point.
pub open spec fn place_of(x: int, y: int, zoom: int) -> Place {
    Place {
        lon: capped(x * 360_000_000_000 / (EXTENT * across(zoom)) - 180_000_000_000),
        lat: capped(y * 180_000_000_000 / (EXTENT * across(zoom)) - 90_000_000_000),
    }
}

/// What the first `n` claims of a spot add to the splits.
pub open spec fn split_scored(s: Scores, spot: Spot, zoom: u8, n: int) -> Scores
    decreases n,
{
    if n <= 0 {
        s
    } else {
        let c = spot.claims[n - 1];
        let gap = c.hi - c.lo;
        scored(
            split_scored(s, spot, zoom, n - 1),
            gap,
            if gap > STEP_UM {
                Some(
                    Offender {
                        place: place_of(spot.x as int, spot.y as int, zoom as int),
                        zoom,
                        value: gap as i128,
                        note: Note::Split { sheet: c.sheet, low: c.lo, high: c.hi },
                    },
                )
            } else {
                None
            },
        )
    }
}

/// What the first `n` spots add to the splits.
pub open spec fn splits_scored(s: Scores, spots: Seq<Spot>, zoom: u8, n: int) -> Scores
    decreases n,
{
    if n <= 0 {
        s
    } else {
        split_scored(
            splits_scored(s, spots, zoom, n - 1),
            spots[n - 1],
            zoom,
            spots[n - 1].claims.len() as int,
        )
    }
}

/// Whether every tile holds one surface.
pub open spec fn one_each(claims: Seq<Claim>) -> bool {
    forall|i: int, j: int| 0 <= i < j < claims.len() ==> (#[trigger] claims[i]).tile != (#[trigger] claims[j]).tile
}

pub open spec fn sheet_before(a: Option<i64>, b: Option<i64>) -> bool {
    match (a, b) {
        (None, Some(_)) => true,
        (Some(p), Some(q)) => p < q,
        (_, None) => false,
    }
}

/// How many of the first `n` sheets come before `s`.
pub open spec fn sheet_rank(sheets: Seq<Option<i64>>, s: Option<i64>, n: int) -> int
    decreases n,
{
    if n <= 0 {
        0
    } else {
        sheet_rank(sheets, s, n - 1) + if sheet_before(sheets[n - 1], s) {
            1int
        } else {
            0
        }
    }
}

/// The sheets of the first `n` claims, in order, each once.
pub open spec fn sheets_of(claims: Seq<Claim>, n: int) -> Seq<Option<i64>>
    decreases n,
{
    if n <= 0 {
        Seq::empty()
    } else {
        let rest = sheets_of(claims, n - 1);
        let s = claims[n - 1].sheet;
        if rest.contains(s) {
            rest
        } else {
            rest.insert(sheet_rank(rest, s, rest.len() as int), s)
        }
    }
}

/// The first `n` claims that are on a sheet.
pub open spec fn on_sheet(claims: Seq<Claim>, s: Option<i64>, n: int) -> Seq<Claim>
    decreases n,
{
    if n <= 0 {
        Seq::empty()
    } else {
        let rest = on_sheet(claims, s, n - 1);
        if claims[n - 1].sheet == s {
            rest.push(claims[n - 1])
        } else {
            rest
        }
    }
}

/// The lowest (or highest) end of the first `n` claims.
pub open spec fn least(group: Seq<Claim>, top: bool, n: int) -> int
    decreases n,
{
    let end = if top {
        group[n - 1].hi as int
    } else {
        group[n - 1].lo as int
    };
    if n <= 1 {
        end
    } else {
        min(least(group, top, n - 1), end)
    }
}

pub open spec fn most(group: Seq<Claim>, top: bool, n: int) -> int
    decreases n,
{
    let end = if top {
        group[n - 1].hi as int
    } else {
        group[n - 1].lo as int
    };
    if n <= 1 {
        end
    } else {
        max(most(group, top, n - 1), end)
    }
}

/// How far apart the lows, or the highs, of a group are.
pub open spec fn spread(group: Seq<Claim>, top: bool) -> int {
    most(group, top, group.len() as int) - least(group, top, group.len() as int)
}

pub open spec fn group_step(group: Seq<Claim>) -> int {
    max(spread(group, false), spread(group, true))
}

pub open spec fn has_split(group: Seq<Claim>) -> bool {
    exists|k: int| 0 <= k < group.len() && (#[trigger] group[k]).hi - group[k].lo > STEP_UM
}

/// What the borders have measured.
pub struct Held {
    pub step: Scores,
    /// Groups compared across a border.
    pub shared: u64,
    /// Groups left out because a tile had split open there.
    pub unusable: u64,
}

/// What one group of claims at a spot adds.
pub open spec fn group_held(h: Held, x: i64, y: i64, group: Seq<Claim>, zoom: u8) -> Held {
    if group.len() < 2 {
        h
    } else if has_split(group) {
        Held { unusable: bumped(h.unusable), ..h }
    } else {
        let step = group_step(group);
        Held {
            shared: bumped(h.shared),
            step: scored(
                h.step,
                step,
                if step > STEP_UM {
                    Some(
                        Offender {
                            place: place_of(x as int, y as int, zoom as int),
                            zoom,
                            value: step as i128,
                            note: Note::SeamStep { tiles: group.len() as u64, x, y },
                        },
                    )
                } else {
                    None
                },
            ),
            ..h
        }
    }
}

/// What the groups of the first `n` sheets at a spot add.
pub open spec fn sheets_held(h: Held, spot: Spot, sheets: Seq<Option<i64>>, zoom: u8, n: int) -> Held
    decreases n,
{
    if n <= 0 {
        h
    } else {
        group_held(
            sheets_held(h, spot, sheets, zoom, n - 1),
            spot.x,
            spot.y,
            on_sheet(spot.claims, sheets[n - 1], spot.claims.len() as int),
            zoom,
        )
    }
}

/// What one spot adds: one comparison where every tile holds one surface there,
/// and else one per sheet.
pub open spec fn spot_held(h: Held, spot: Spot, zoom: u8) -> Held {
    if one_each(spot.claims) {
        group_held(h, spot.x, spot.y, spot.claims, zoom)
    } else {
        let sheets = sheets_of(spot.claims, spot.claims.len() as int);
        sheets_held(h, spot, sheets, zoom, sheets.len() as int)
    }
}

/// What the first `n` spots add.
pub open spec fn spots_held(h: Held, spots: Seq<Spot>, zoom: u8, n: int) -> Held
    decreases n,
{
    if n <= 0 {
        h
    } else {
        spot_held(spots_held(h, spots, zoom, n - 1), spots[n - 1], zoom)
    }
}

/// A tile that has split open is charged to itself, never to its neighbour: its
/// group adds no step.
pub proof fn a_split_is_not_charged_to_the_neighbour(h: Held, x: i64, y: i64, group: Seq<Claim>, zoom: u8)
    requires
        has_split(group),
    ensures
        group_held(h, x, y, group, zoom).step == h.step,
{
}

proof fn lemma_level_group(group: Seq<Claim>, lo: i64, hi: i64, n: int)
    requires
        1 <= n <= group.len(),
        forall|k: int| 0 <= k < group.len() ==> (#[trigger] group[k]).lo == lo && group[k].hi == hi,
    ensures
        least(group, false, n) == lo,
        most(group, false, n) == lo,
        least(group, true, n) == hi,
        most(group, true, n) == hi,
    decreases n,
{
    if n > 1 {
        lemma_level_group(group, lo, hi, n - 1);
    }
}

/// Tiles that agree at a border point measure no step there.
pub proof fn tiles_that_agree_have_no_step(h: Held, x: i64, y: i64, group: Seq<Claim>, zoom: u8, lo: i64, hi: i64)
    requires
        group.len() >= 2,
        0 <= hi - lo <= STEP_UM,
        forall|k: int| 0 <= k < group.len() ==> (#[trigger] group[k]).lo == lo && group[k].hi == hi,
    ensures
        group_held(h, x, y, group, zoom).step == scored(h.step, 0, None),
        group_held(h, x, y, group, zoom).shared == bumped(h.shared),
{
    lemma_level_group(group, lo, hi, group.len() as int);
}

proof fn lemma_group_bounds(group: Seq<Claim>, top: bool, n: int)
    requires
        1 <= n <= group.len(),
    ensures
        i64::MIN <= least(group, top, n) <= most(group, top, n) <= i64::MAX,
        forall|k: int|
            0 <= k < n ==> least(group, top, n) <= (if top {
                (#[trigger] group[k]).hi as int
            } else {
                group[k].lo as int
            }) <= most(group, top, n),
    decreases n,
{
    if n > 1 {
        lemma_group_bounds(group, top, n - 1);
    }
}

/// A measured step is as large as any disagreement in its group: two tiles
/// whose lows differ are charged at least the difference.
pub proof fn a_disagreement_is_measured(group: Seq<Claim>, i: int, j: int)
    requires
        0 <= i < group.len(),
        0 <= j < group.len(),
    ensures
        group_step(group) >= group[i].lo - group[j].lo,
        group_step(group) >= group[i].hi - group[j].hi,
{
    lemma_group_bounds(group, false, group.len() as int);
    lemma_group_bounds(group, true, group.len() as int);
}

// ---------------------------------------------------------------------------
// The border points of one surface.
// ---------------------------------------------------------------------------

pub open spec fn spot_of_point(p: BorderPoint) -> Spot {
    Spot { x: p.x, y: p.y, claims: p.claims@ }
}

pub open spec fn spots_of(points: Seq<BorderPoint>) -> Seq<Spot> {
    Seq::new(points.len(), |i: int| spot_of_point(points[i]))
}

spec fn key_of(x: int, y: int) -> int {
    x * 0x1_0000_0000_0000_0000 + y
}

fn lattice_key(x: i64, y: i64) -> (key: u128)
    requires
        0 <= x,
        0 <= y,
    ensures
        key == key_of(x as int, y as int),
{
    (x as u128) * 0x1_0000_0000_0000_0000 + y as u128
}

/// Folds a height into the claim of a tile and sheet.
fn claim(claims: &mut Vec<Claim>, tile: u64, sheet: Option<i64>, z: i64)
    ensures
        final(claims)@ == claimed(old(claims)@, tile, sheet, z),
{
    let mut slot: Option<usize> = None;
    let mut k: usize = 0;
    while k < claims.len()
        invariant
            k <= claims@.len(),
            claims@ == old(claims)@,
            match slot_of(claims@, tile, sheet, k as int) {
                Some(s) => slot is Some && slot->0 == s && s < k,
                None => slot is None,
            },
        decreases claims@.len() - k,
    {
        if slot.is_none() && claims[k].tile == tile && same_sheet(claims[k].sheet, sheet) {
            slot = Some(k);
        }
        k = k + 1;
    }
    match slot {
        Some(s) => {
            let c: Claim = claims[s];
            let lo: i64 = if c.lo < z { c.lo } else { z };
            let hi: i64 = if c.hi < z { z } else { c.hi };
            claims.set(s, Claim { tile: c.tile, sheet: c.sheet, lo, hi });
        },
        None => claims.push(Claim { tile, sheet, lo: z, hi: z }),
    }
}

fn same_sheet(a: Option<i64>, b: Option<i64>) -> (same: bool)
    ensures
        same == (a == b),
{
    match (a, b) {
        (None, None) => true,
        (Some(p), Some(q)) => p == q,
        _ => false,
    }
}

/// Every border lattice point of one surface, and what each tile claims there.
#[derive(Debug)]
pub struct Borders {
    points: Vec<BorderPoint>,
    index: HashMap<u128, usize>,
}

impl Borders {
    /// The spots, in the order they were first seen.
    pub closed spec fn view(&self) -> Seq<Spot> {
        spots_of(self.points@)
    }

    /// The index finds every point, and only them.
    pub closed spec fn well_formed(&self) -> bool {
        &&& forall|i: int|
            0 <= i < self.points@.len() ==> {
                &&& 0 <= (#[trigger] self.points@[i]).x
                &&& 0 <= self.points@[i].y
                &&& self.index@.contains_key(key_of(self.points@[i].x as int, self.points@[i].y as int) as u128)
                &&& self.index@[key_of(self.points@[i].x as int, self.points@[i].y as int) as u128] == i
            }
        &&& forall|k: u128| #[trigger]
            self.index@.contains_key(k) ==> {
                &&& self.index@[k] < self.points@.len()
                &&& key_of(
                    self.points@[self.index@[k] as int].x as int,
                    self.points@[self.index@[k] as int].y as int,
                ) == k
            }
    }

    pub fn new() -> (out: Borders)
        ensures
            out.well_formed(),
            out@ == Seq::<Spot>::empty(),
    {
        broadcast use group_hash_axioms;

        let out = Borders { points: Vec::new(), index: HashMap::new() };
        assert(out@ =~= Seq::<Spot>::empty());
        out
    }

    /// Notes a vertex at a lattice point.
    fn note(&mut self, x: i64, y: i64, tile: u64, sheet: Option<i64>, z: i64)
        requires
            old(self).well_formed(),
            0 <= x,
            0 <= y,
        ensures
            final(self).well_formed(),
            final(self)@ == noted(old(self)@, x, y, tile, sheet, z),
    {
        broadcast use group_hash_axioms;

        let key: u128 = lattice_key(x, y);
        let ghost before = self@;
        let ghost n = self.points@.len() as int;
        proof {
            lemma_spot_of(before, x as int, y as int, n);
            if let Some(k) = spot_of(before, x as int, y as int, n) {
                assert(self.points@[k].x == before[k].x);
            }
        }
        let found: Option<usize> = match self.index.get(&key) {
            Some(i) => Some(*i),
            None => None,
        };
        match found {
            Some(i) => {
                proof {
                    assert(self.points@[i as int].x == x && self.points@[i as int].y == y);
                    assert(before[i as int] == spot_of_point(self.points@[i as int]));
                }
                claim(&mut self.points[i].claims, tile, sheet, z);
                assert(self@ =~= noted(before, x, y, tile, sheet, z));
            },
            None => {
                let mut claims: Vec<Claim> = Vec::new();
                claim(&mut claims, tile, sheet, z);
                let at: usize = self.points.len();
                self.points.push(BorderPoint { x, y, claims });
                self.index.insert(key, at);
                assert(self@ =~= noted(before, x, y, tile, sheet, z));
            },
        }
    }

    /// Folds every border vertex of a mesh of tile `x`, `y` in.
    pub fn collect(&mut self, mesh: &[Vertex], sheet: Option<i64>, x: u32, y: u32)
        requires
            old(self).well_formed(),
        ensures
            final(self).well_formed(),
            final(self)@ == collected(old(self)@, mesh@, sheet, x, y, mesh@.len() as int),
    {
        let tile: u64 = (x as u64) * 0x1_0000_0000 + y as u64;
        let edge: i64 = EXTENT as i64;
        let mut i: usize = 0;
        while i < mesh.len()
            invariant
                i <= mesh@.len(),
                tile == tile_number(x as int, y as int),
                edge == EXTENT,
                self.well_formed(),
                self@ == collected(old(self)@, mesh@, sheet, x, y, i as int),
            decreases mesh@.len() - i,
        {
            let v: Vertex = mesh[i];
            let rim: bool = v.x == 0 || v.x == edge || v.y == 0 || v.y == edge;
            if rim && 0 <= v.x && v.x <= edge && 0 <= v.y && v.y <= edge {
                self.note((x as i64) * edge + v.x, (y as i64) * edge + v.y, tile, sheet, v.height);
            }
            i = i + 1;
        }
    }
}

/// The splits and steps of one surface's borders.
#[derive(Debug)]
pub struct Measured {
    pub step: Tally,
    pub split: Tally,
    pub shared: u64,
    pub unusable: u64,
}

impl Measured {
    pub open spec fn well_formed(&self) -> bool {
        self.step.well_formed() && self.split.well_formed()
    }

    pub open spec fn view(&self) -> Held {
        Held { step: self.step@, shared: self.shared, unusable: self.unusable }
    }
}

fn tiles_across(zoom: u8) -> (n: u128)
    requires
        zoom < 64,
    ensures
        n == across(zoom as int),
        0 < n < 0x1_0000_0000_0000_0000,
{
    let mut n: u128 = 1;
    let mut z: u8 = 0;
    while z < zoom
        invariant
            z <= zoom < 64,
            n == across(z as int),
            0 < n,
            n * across(zoom - z) == across(zoom as int),
        decreases zoom - z,
    {
        proof {
            assert(across(zoom - z) == 2 * across(zoom - z - 1));
            assert(n * (2 * across(zoom - z - 1)) == (2 * n) * across(zoom - z - 1)) by (nonlinear_arith);
            lemma_across(zoom - z);
            lemma_across(zoom as int);
            assert(n <= across(zoom as int)) by (nonlinear_arith)
                requires
                    n * across(zoom - z) == across(zoom as int),
                    across(zoom - z) >= 1,
                    n > 0,
            ;
        }
        n = n * 2;
        z = z + 1;
    }
    proof {
        lemma_across(zoom as int);
    }
    n
}

proof fn lemma_across(zoom: int)
    requires
        0 <= zoom < 64,
    ensures
        1 <= across(zoom) <= 0x8000_0000_0000_0000,
{
    lemma_across_at_most(zoom, 63);
    assert(across(63) == 0x8000_0000_0000_0000) by {
        reveal_with_fuel(across, 64);
    }
}

proof fn lemma_across_at_most(a: int, b: int)
    requires
        0 <= a <= b,
    ensures
        1 <= across(a) <= across(b),
    decreases b,
{
    if a < b {
        lemma_across_at_most(a, b - 1);
    } else if a > 0 {
        lemma_across_at_most(a - 1, b - 1);
    }
}

/// One coordinate of a lattice point, in billionths of a degree.
fn degrees(q: i64, turn: u64, half: u64, n: u128) -> (out: i64)
    requires
        0 <= q,
        half <= turn <= 360_000_000_000,
        0 < n < 0x1_0000_0000_0000_0000,
    ensures
        out == capped(q * turn / (EXTENT * n) - half),
{
    proof {
        assert(q * turn < 0x8000_0000_0000_0000 * 360_000_000_001) by (nonlinear_arith)
            requires
                0 <= q < 0x8000_0000_0000_0000,
                0 <= turn <= 360_000_000_000,
        ;
        assert(0 <= q * turn) by (nonlinear_arith)
            requires
                0 <= q,
                0 <= turn,
        ;
    }
    let whole: u128 = (q as u128) * (turn as u128);
    let part: u128 = whole / ((EXTENT as u128) * n);
    proof {
        lemma_div_nonincreasing(whole as int, EXTENT * n);
    }
    let out: i128 = part as i128 - half as i128;
    if out > i64::MAX as i128 {
        i64::MAX
    } else {
        out as i64
    }
}

fn place_at(x: i64, y: i64, zoom: u8) -> (out: Place)
    requires
        0 <= x,
        0 <= y,
        zoom < 64,
    ensures
        out == place_of(x as int, y as int, zoom as int),
{
    let n: u128 = tiles_across(zoom);
    Place {
        lon: degrees(x, 360_000_000_000, 180_000_000_000, n),
        lat: degrees(y, 180_000_000_000, 90_000_000_000, n),
    }
}

fn sheet_comes_before(a: Option<i64>, b: Option<i64>) -> (yes: bool)
    ensures
        yes == sheet_before(a, b),
{
    match (a, b) {
        (None, Some(_)) => true,
        (Some(p), Some(q)) => p < q,
        _ => false,
    }
}

proof fn lemma_sheet_rank(sheets: Seq<Option<i64>>, s: Option<i64>, n: int)
    ensures
        0 <= sheet_rank(sheets, s, n) <= max(n, 0),
    decreases n,
{
    if n > 0 {
        lemma_sheet_rank(sheets, s, n - 1);
    }
}

/// The sheets of the claims, in order, each once.
fn sheets_in(claims: &Vec<Claim>) -> (out: Vec<Option<i64>>)
    ensures
        out@ == sheets_of(claims@, claims@.len() as int),
{
    let mut out: Vec<Option<i64>> = Vec::new();
    let mut i: usize = 0;
    while i < claims.len()
        invariant
            i <= claims@.len(),
            out@ == sheets_of(claims@, i as int),
            out@.len() <= i,
        decreases claims@.len() - i,
    {
        let s: Option<i64> = claims[i].sheet;
        let mut rank: usize = 0;
        let mut known: bool = false;
        let mut k: usize = 0;
        while k < out.len()
            invariant
                k <= out@.len(),
                rank <= k,
                rank == sheet_rank(out@, s, k as int),
                known == exists|j: int| 0 <= j < k && #[trigger] out@[j] == s,
            decreases out@.len() - k,
        {
            if same_sheet(out[k], s) {
                known = true;
            }
            if sheet_comes_before(out[k], s) {
                rank = rank + 1;
            }
            k = k + 1;
        }
        assert(known == out@.contains(s));
        if !known {
            out.insert(rank, s);
        }
        i = i + 1;
    }
    out
}

fn holds_one_each(claims: &Vec<Claim>) -> (yes: bool)
    ensures
        yes == one_each(claims@),
{
    let mut i: usize = 0;
    while i < claims.len()
        invariant
            i <= claims@.len(),
            forall|a: int, b: int|
                0 <= a < b < claims@.len() && a < i ==> (#[trigger] claims@[a]).tile != (#[trigger] claims@[b]).tile,
        decreases claims@.len() - i,
    {
        let mut j: usize = i + 1;
        while j < claims.len()
            invariant
                i < j <= claims@.len(),
                forall|b: int| i < b < j ==> claims@[i as int].tile != (#[trigger] claims@[b]).tile,
            decreases claims@.len() - j,
        {
            if claims[i].tile == claims[j].tile {
                return false;
            }
            j = j + 1;
        }
        i = i + 1;
    }
    true
}

fn claims_on(claims: &Vec<Claim>, s: Option<i64>) -> (out: Vec<Claim>)
    ensures
        out@ == on_sheet(claims@, s, claims@.len() as int),
{
    let mut out: Vec<Claim> = Vec::new();
    let mut i: usize = 0;
    while i < claims.len()
        invariant
            i <= claims@.len(),
            out@ == on_sheet(claims@, s, i as int),
        decreases claims@.len() - i,
    {
        if same_sheet(claims[i].sheet, s) {
            out.push(claims[i]);
        }
        i = i + 1;
    }
    out
}

fn spread_of(group: &Vec<Claim>, top: bool) -> (out: i128)
    requires
        group@.len() >= 1,
    ensures
        out == spread(group@, top),
{
    let mut lo: i64 = if top { group[0].hi } else { group[0].lo };
    let mut hi: i64 = lo;
    let mut i: usize = 1;
    while i < group.len()
        invariant
            1 <= i <= group@.len(),
            lo == least(group@, top, i as int),
            hi == most(group@, top, i as int),
        decreases group@.len() - i,
    {
        let v: i64 = if top { group[i].hi } else { group[i].lo };
        if v < lo {
            lo = v;
        }
        if hi < v {
            hi = v;
        }
        i = i + 1;
    }
    hi as i128 - lo as i128
}

impl Measured {
    fn visit_splits(&mut self, p: &BorderPoint, zoom: u8)
        requires
            old(self).well_formed(),
            0 <= p.x,
            0 <= p.y,
            zoom < 64,
        ensures
            final(self).well_formed(),
            final(self)@ == old(self)@,
            final(self).split@ == split_scored(old(self).split@, spot_of_point(*p), zoom, p.claims@.len() as int),
    {
        let mut i: usize = 0;
        while i < p.claims.len()
            invariant
                i <= p.claims@.len(),
                0 <= p.x,
                0 <= p.y,
                zoom < 64,
                self.well_formed(),
                self@ == old(self)@,
                self.split@ == split_scored(old(self).split@, spot_of_point(*p), zoom, i as int),
            decreases p.claims@.len() - i,
        {
            let c: Claim = p.claims[i];
            let gap: i128 = c.hi as i128 - c.lo as i128;
            let offender: Option<Offender> = if gap > STEP_UM {
                Some(
                    Offender {
                        place: place_at(p.x, p.y, zoom),
                        zoom,
                        value: gap,
                        note: Note::Split { sheet: c.sheet, low: c.lo, high: c.hi },
                    },
                )
            } else {
                None
            };
            self.split.record(gap, offender);
            i = i + 1;
        }
    }

    fn visit_group(&mut self, x: i64, y: i64, group: &Vec<Claim>, zoom: u8)
        requires
            old(self).well_formed(),
            0 <= x,
            0 <= y,
            zoom < 64,
        ensures
            final(self).well_formed(),
            final(self)@ == group_held(old(self)@, x, y, group@, zoom),
            final(self).split == old(self).split,
    {
        let n: usize = group.len();
        if n < 2 {
            return;
        }
        let mut i: usize = 0;
        while i < n
            invariant
                i <= n,
                n == group@.len(),
                n >= 2,
                self.well_formed(),
                *self == *old(self),
                forall|k: int| 0 <= k < i ==> (#[trigger] group@[k]).hi - group@[k].lo <= STEP_UM,
            decreases n - i,
        {
            if group[i].hi as i128 - group[i].lo as i128 > STEP_UM {
                assert(group@[i as int].hi - group@[i as int].lo > STEP_UM);
                self.unusable = bump(self.unusable);
                return;
            }
            i = i + 1;
        }
        self.shared = bump(self.shared);
        let low: i128 = spread_of(group, false);
        let high: i128 = spread_of(group, true);
        let step: i128 = if low < high { high } else { low };
        let offender: Option<Offender> = if step > STEP_UM {
            Some(
                Offender {
                    place: place_at(x, y, zoom),
                    zoom,
                    value: step,
                    note: Note::SeamStep { tiles: n as u64, x, y },
                },
            )
        } else {
            None
        };
        self.step.record(step, offender);
    }

    fn visit_spot(&mut self, p: &BorderPoint, zoom: u8)
        requires
            old(self).well_formed(),
            0 <= p.x,
            0 <= p.y,
            zoom < 64,
        ensures
            final(self).well_formed(),
            final(self)@ == spot_held(old(self)@, spot_of_point(*p), zoom),
            final(self).split == old(self).split,
    {
        if holds_one_each(&p.claims) {
            self.visit_group(p.x, p.y, &p.claims, zoom);
            return;
        }
        let sheets: Vec<Option<i64>> = sheets_in(&p.claims);
        let mut i: usize = 0;
        while i < sheets.len()
            invariant
                i <= sheets@.len(),
                0 <= p.x,
                0 <= p.y,
                zoom < 64,
                self.well_formed(),
                self@ == sheets_held(old(self)@, spot_of_point(*p), sheets@, zoom, i as int),
                self.split == old(self).split,
            decreases sheets@.len() - i,
        {
            let group: Vec<Claim> = claims_on(&p.claims, sheets[i]);
            self.visit_group(p.x, p.y, &group, zoom);
            i = i + 1;
        }
    }
}

impl Borders {
    /// What the collected borders measure, as of `zoom`.
    pub fn measure(&self, zoom: u8, worst_k: usize) -> (out: Measured)
        requires
            self.well_formed(),
            zoom < 64,
            worst_k < usize::MAX,
        ensures
            out.well_formed(),
            out@ == spots_held(
                Held { step: fresh(worst_k), shared: 0, unusable: 0 },
                self@,
                zoom,
                self@.len() as int,
            ),
            out.split@ == splits_scored(fresh(worst_k), self@, zoom, self@.len() as int),
    {
        let mut out = Measured {
            step: Tally::new(Sense::HigherIsWorse, worst_k),
            split: Tally::new(Sense::HigherIsWorse, worst_k),
            shared: 0,
            unusable: 0,
        };
        let ghost start = out@;
        let mut i: usize = 0;
        while i < self.points.len()
            invariant
                i <= self.points@.len(),
                self.well_formed(),
                zoom < 64,
                out.well_formed(),
                out@ == spots_held(start, self@, zoom, i as int),
                out.split@ == splits_scored(fresh(worst_k), self@, zoom, i as int),
            decreases self.points@.len() - i,
        {
            assert(self@[i as int] == spot_of_point(self.points@[i as int]));
            out.visit_splits(&self.points[i], zoom);
            out.visit_spot(&self.points[i], zoom);
            i = i + 1;
        }
        out
    }
}

/// What a tile shows at its borders: its terrain, and each of its at-grade
/// surface bands, in the order of its road meshes.
#[derive(Debug)]
pub struct BorderScene {
    pub x: u32,
    pub y: u32,
    pub terrain: Option<Vec<Vertex>>,
    pub meshes: Vec<Vec<Vertex>>,
}

pub open spec fn pavements_collected(spots: Seq<Spot>, roads: Seq<RoadMesh>, t: BorderScene, n: int) -> Seq<Spot>
    decreases n,
{
    if n <= 0 {
        spots
    } else {
        let rest = pavements_collected(spots, roads, t, n - 1);
        if roads[n - 1].pavement {
            collected(rest, t.meshes@[n - 1]@, roads[n - 1].sheet, t.x, t.y, t.meshes@[n - 1]@.len() as int)
        } else {
            rest
        }
    }
}

/// How a count of pavement meshes stands after the first `n` meshes; with
/// `bare`, of those without a sheet only.
pub open spec fn meshes_counted(count: u64, roads: Seq<RoadMesh>, bare: bool, n: int) -> u64
    decreases n,
{
    if n <= 0 {
        count
    } else {
        let rest = meshes_counted(count, roads, bare, n - 1);
        if roads[n - 1].pavement && (!bare || roads[n - 1].sheet is None) {
            bumped(rest)
        } else {
            rest
        }
    }
}

/// The seam check.
#[derive(Debug)]
pub struct Seams {
    pub terrain: Borders,
    pub pavement: Borders,
    /// Pavement meshes seen, and how many carried no sheet.
    pub meshes: u64,
    pub sheetless: u64,
    pub worst_k: usize,
    pub zoom: u8,
}

/// The measured seams.
#[derive(Debug)]
pub struct SeamReport {
    pub metrics: Vec<Metric>,
    /// Shared points left out because a tile had split open there.
    pub terrain_unusable: u64,
    pub pavement_unusable: u64,
    pub meshes: u64,
    pub sheetless: u64,
}

impl Seams {
    pub open spec fn well_formed(&self) -> bool {
        &&& self.terrain.well_formed()
        &&& self.pavement.well_formed()
        &&& self.worst_k < usize::MAX
        &&& self.zoom < 64
    }

    pub fn new(opt: &Options) -> (out: Seams)
        requires
            opt.worst_k < usize::MAX,
        ensures
            out.well_formed(),
            out.terrain@ == Seq::<Spot>::empty(),
            out.pavement@ == Seq::<Spot>::empty(),
            out.meshes == 0,
            out.sheetless == 0,
            out.worst_k == opt.worst_k,
            out.zoom == 0,
    {
        Seams {
            terrain: Borders::new(),
            pavement: Borders::new(),
            meshes: 0,
            sheetless: 0,
            worst_k: opt.worst_k,
            zoom: 0,
        }
    }

    /// Collects one tile.
    pub fn visit(&mut self, zoom: u8, roads: &[RoadMesh], t: &BorderScene)
        requires
            old(self).well_formed(),
            zoom < 64,
            t.meshes@.len() == roads@.len(),
        ensures
            final(self).well_formed(),
            final(self).zoom == zoom,
            final(self).worst_k == old(self).worst_k,
            final(self).terrain@ == (match t.terrain {
                Some(mesh) => collected(old(self).terrain@, mesh@, None, t.x, t.y, mesh@.len() as int),
                None => old(self).terrain@,
            }),
            final(self).pavement@ == pavements_collected(old(self).pavement@, roads@, *t, roads@.len() as int),
            final(self).meshes == meshes_counted(old(self).meshes, roads@, false, roads@.len() as int),
            final(self).sheetless == meshes_counted(old(self).sheetless, roads@, true, roads@.len() as int),
    {
        self.zoom = zoom;
        if let Some(mesh) = &t.terrain {
            self.terrain.collect(mesh, None, t.x, t.y);
        }
        let ghost ground = self.terrain;
        let mut i: usize = 0;
        while i < roads.len()
            invariant
                i <= roads@.len(),
                zoom < 64,
                t.meshes@.len() == roads@.len(),
                self.well_formed(),
                self.zoom == zoom,
                self.worst_k == old(self).worst_k,
                self.terrain == ground,
                self.pavement@ == pavements_collected(old(self).pavement@, roads@, *t, i as int),
                self.meshes == meshes_counted(old(self).meshes, roads@, false, i as int),
                self.sheetless == meshes_counted(old(self).sheetless, roads@, true, i as int),
            decreases roads@.len() - i,
        {
            if roads[i].pavement {
                self.meshes = bump(self.meshes);
                if roads[i].sheet.is_none() {
                    self.sheetless = bump(self.sheetless);
                }
                self.pavement.collect(&t.meshes[i], roads[i].sheet, t.x, t.y);
            }
            i = i + 1;
        }
    }

    /// What a surface's borders measured.
    pub open spec fn steps(&self, of: Seq<Spot>) -> Held {
        spots_held(
            Held { step: fresh(self.worst_k), shared: 0, unusable: 0 },
            of,
            self.zoom,
            of.len() as int,
        )
    }

    pub open spec fn splits(&self, of: Seq<Spot>) -> Scores {
        splits_scored(fresh(self.worst_k), of, self.zoom, of.len() as int)
    }

    pub open spec fn reported(&self, out: Seq<Metric>) -> bool {
        &&& out.len() == 4
        &&& out[0].reports(
            "seam.terrain_step"@,
            Invariant::I2,
            STEP_UM as int,
            self.steps(self.terrain@).shared == 0,
            self.steps(self.terrain@).step,
        )
        &&& out[1].reports(
            "seam.terrain_split"@,
            Invariant::I2,
            STEP_UM as int,
            self.splits(self.terrain@).samples.len() == 0,
            self.splits(self.terrain@),
        )
        &&& out[2].reports(
            "seam.pavement_step"@,
            Invariant::I2,
            STEP_UM as int,
            self.steps(self.pavement@).shared == 0,
            self.steps(self.pavement@).step,
        )
        &&& out[3].reports(
            "order.at_grade_overlap"@,
            Invariant::I3,
            STEP_UM as int,
            self.splits(self.pavement@).samples.len() == 0,
            self.splits(self.pavement@),
        )
    }

    pub fn finish(self) -> (out: SeamReport)
        requires
            self.well_formed(),
        ensures
            self.reported(out.metrics@),
            out.terrain_unusable == self.steps(self.terrain@).unusable,
            out.pavement_unusable == self.steps(self.pavement@).unusable,
            out.meshes == self.meshes,
            out.sheetless == self.sheetless,
    {
        let ground: Measured = self.terrain.measure(self.zoom, self.worst_k);
        let asphalt: Measured = self.pavement.measure(self.zoom, self.worst_k);
        let mut metrics: Vec<Metric> = Vec::new();
        metrics.push(Metric::close("seam.terrain_step", Invariant::I2, STEP_UM, ground.shared == 0, ground.step));
        let skipped: bool = ground.split.dist.is_empty();
        metrics.push(Metric::close("seam.terrain_split", Invariant::I2, STEP_UM, skipped, ground.split));
        metrics.push(Metric::close("seam.pavement_step", Invariant::I2, STEP_UM, asphalt.shared == 0, asphalt.step));
        let skipped: bool = asphalt.split.dist.is_empty();
        metrics.push(Metric::close("order.at_grade_overlap", Invariant::I3, STEP_UM, skipped, asphalt.split));
        SeamReport {
            metrics,
            terrain_unusable: ground.unusable,
            pavement_unusable: asphalt.unusable,
            meshes: self.meshes,
            sheetless: self.sheetless,
        }
    }
}

} // verus!
