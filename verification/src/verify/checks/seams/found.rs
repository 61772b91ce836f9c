//! What the tiles of a border are found to say of it.
use vstd::prelude::*;
use vstd::arithmetic::power2::{lemma_pow2_unfold, lemma2_to64, pow2};
use crate::verify::{Note, Offender, Scores};
use crate::verify::checks::seams::{
    across, claimed, collected, group_held, group_step, least, most, noted, on_sheet, place_of, sheet_before, sheet_rank,
    sheets_held, sheets_of, slot_of, split_scored, splits_scored, spot_held, spot_of, spread, Claim, Held, Spot, Vertex,
};
use crate::verify::findings::{above, gathered, gathered_rows, Finding};
use crate::verify::scene::bumped;

verus! {

/// A zoom is two to its power across.
pub proof fn a_zoom_is_a_power_of_two_across(zoom: int)
    requires
        0 <= zoom,
    ensures
        across(zoom) == pow2(zoom as nat),
    decreases zoom,
{
    if zoom > 0 {
        a_zoom_is_a_power_of_two_across(zoom - 1);
        lemma_pow2_unfold(zoom as nat);
    } else {
        lemma2_to64();
    }
}

/// The lattice spans the globe: so far along it is so far along a full turn of
/// longitude and half a turn of latitude.
pub proof fn a_lattice_point_lies_where_it_spans_to(x: int, y: int, zoom: int)
    requires
        0 <= zoom,
        0 <= x <= 32768 * pow2(zoom as nat),
        0 <= y <= 32768 * pow2(zoom as nat),
    ensures
        place_of(x, y, zoom).lon == x * 360_000_000_000 / (32768 * pow2(zoom as nat) as int) - 180_000_000_000,
        place_of(x, y, zoom).lat == y * 180_000_000_000 / (32768 * pow2(zoom as nat) as int) - 90_000_000_000,
{
    a_zoom_is_a_power_of_two_across(zoom);
    vstd::arithmetic::power2::lemma_pow2_pos(zoom as nat);
    let d: int = 32768 * pow2(zoom as nat) as int;
    let full = x * 360_000_000_000;
    let half = y * 180_000_000_000;
    assert(0 <= full / d <= 360_000_000_000) by (nonlinear_arith)
        requires
            0 <= x <= d,
            d > 0,
            full == x * 360_000_000_000,
    ;
    assert(0 <= half / d <= 180_000_000_000) by (nonlinear_arith)
        requires
            0 <= y <= d,
            d > 0,
            half == y * 180_000_000_000,
    ;
}

/// Whether a spot has a claim of a tile and sheet that reaches a height.
pub open spec fn reaches(spots: Seq<Spot>, x: int, y: int, tile: u64, sheet: Option<i64>, z: i64) -> bool {
    exists|i: int, k: int|
        0 <= i < spots.len() && spots[i].x == x && spots[i].y == y && 0 <= k < spots[i].claims.len()
            && is_reached((#[trigger] spots[i].claims[k]), tile, sheet, z)
}

pub open spec fn is_reached(c: Claim, tile: u64, sheet: Option<i64>, z: i64) -> bool {
    c.tile == tile && c.sheet == sheet && c.lo <= z <= c.hi
}

/// Whether a spot has a claim of a tile and sheet that begins or ends at a height.
pub open spec fn is_end(spots: Seq<Spot>, x: int, y: int, tile: u64, sheet: Option<i64>, z: i64) -> bool {
    exists|i: int, k: int|
        0 <= i < spots.len() && spots[i].x == x && spots[i].y == y && 0 <= k < spots[i].claims.len()
            && ends_at((#[trigger] spots[i].claims[k]), tile, sheet, z)
}

pub open spec fn ends_at(c: Claim, tile: u64, sheet: Option<i64>, z: i64) -> bool {
    c.tile == tile && c.sheet == sheet && (c.lo == z || c.hi == z)
}

proof fn lemma_slot(claims: Seq<Claim>, tile: u64, sheet: Option<i64>, n: int)
    requires
        0 <= n <= claims.len(),
    ensures
        slot_of(claims, tile, sheet, n) matches Some(k) ==> 0 <= k < n && claims[k].tile == tile && claims[k].sheet
            == sheet,
    decreases n,
{
    if n > 0 {
        lemma_slot(claims, tile, sheet, n - 1);
    }
}

proof fn lemma_spot(spots: Seq<Spot>, x: int, y: int, n: int)
    requires
        0 <= n <= spots.len(),
    ensures
        spot_of(spots, x, y, n) matches Some(k) ==> 0 <= k < n && spots[k].x == x && spots[k].y == y,
    decreases n,
{
    if n > 0 {
        lemma_spot(spots, x, y, n - 1);
    }
}

proof fn lemma_claimed(claims: Seq<Claim>, tile: u64, sheet: Option<i64>, z: i64) -> (at: int)
    ensures
        ({
            let now = claimed(claims, tile, sheet, z);
            &&& 0 <= at < now.len()
            &&& now.len() >= claims.len()
            &&& is_reached(now[at], tile, sheet, z)
            &&& now[at].lo == z || (at < claims.len() && now[at].lo == claims[at].lo)
            &&& now[at].hi == z || (at < claims.len() && now[at].hi == claims[at].hi)
            &&& at < claims.len() ==> claims[at].tile == tile && claims[at].sheet == sheet && now[at].lo
                <= claims[at].lo && claims[at].hi <= now[at].hi
            &&& now.len() == claims.len() || at == claims.len()
            &&& now.len() <= claims.len() + 1
            &&& forall|k: int| 0 <= k < claims.len() && k != at ==> #[trigger] now[k] == claims[k]
        }),
{
    lemma_slot(claims, tile, sheet, claims.len() as int);
    match slot_of(claims, tile, sheet, claims.len() as int) {
        Some(k) => k,
        None => claims.len() as int,
    }
}

/// A vertex noted is reached at its point; whatever was reached stays reached.
pub proof fn what_is_noted_is_reached(
    spots: Seq<Spot>,
    x: i64,
    y: i64,
    tile: u64,
    sheet: Option<i64>,
    z: i64,
    px: int,
    py: int,
    other: u64,
    layer: Option<i64>,
    h: i64,
)
    ensures
        reaches(noted(spots, x, y, tile, sheet, z), x as int, y as int, tile, sheet, z),
        reaches(spots, px, py, other, layer, h) ==> reaches(noted(spots, x, y, tile, sheet, z), px, py, other, layer, h),
        is_end(noted(spots, x, y, tile, sheet, z), px, py, other, layer, h) ==> is_end(
            spots,
            px,
            py,
            other,
            layer,
            h,
        ) || (px == x && py == y && other == tile && layer == sheet && h == z),
{
    let now = noted(spots, x, y, tile, sheet, z);
    lemma_spot(spots, x as int, y as int, spots.len() as int);
    let found = spot_of(spots, x as int, y as int, spots.len() as int);
    let at = match found {
        Some(k) => k,
        None => spots.len() as int,
    };
    let before = match found {
        Some(k) => spots[k].claims,
        None => Seq::empty(),
    };
    let c = lemma_claimed(before, tile, sheet, z);
    assert(now[at].claims == claimed(before, tile, sheet, z));
    assert(is_reached(now[at].claims[c], tile, sheet, z));
    if reaches(spots, px, py, other, layer, h) {
        let (i, k) = choose|i: int, k: int|
            0 <= i < spots.len() && spots[i].x == px && spots[i].y == py && 0 <= k < spots[i].claims.len()
                && is_reached((#[trigger] spots[i].claims[k]), other, layer, h);
        assert(now[i].x == px && now[i].y == py);
        if i != at {
            assert(now[i] == spots[i]);
        }
        assert(is_reached(now[i].claims[k], other, layer, h));
    }
    if is_end(now, px, py, other, layer, h) {
        let (i, k) = choose|i: int, k: int|
            0 <= i < now.len() && now[i].x == px && now[i].y == py && 0 <= k < now[i].claims.len()
                && ends_at((#[trigger] now[i].claims[k]), other, layer, h);
        if i != at {
            assert(now[i] == spots[i]);
            assert(ends_at(spots[i].claims[k], other, layer, h));
        } else if k != c {
            assert(ends_at(spots[i].claims[k], other, layer, h));
        } else if !(px == x && py == y && other == tile && layer == sheet && h == z) {
            assert(ends_at(spots[i].claims[k], other, layer, h));
        }
    }
}

/// Whether a vertex lies on the border of its tile, which is 32768 quanta across.
pub open spec fn is_border(v: Vertex) -> bool {
    &&& 0 <= v.x <= 32768 && 0 <= v.y <= 32768
    &&& v.x == 0 || v.x == 32768 || v.y == 0 || v.y == 32768
}

/// Every vertex on a tile's border is reached by the tile's claim for its sheet,
/// at the lattice point the vertex shares with the tile's neighbours.
pub proof fn every_border_vertex_is_claimed(
    spots: Seq<Spot>,
    mesh: Seq<Vertex>,
    sheet: Option<i64>,
    x: u32,
    y: u32,
    n: int,
    j: int,
)
    requires
        0 <= j < n <= mesh.len(),
        is_border(mesh[j]),
    ensures
        reaches(
            collected(spots, mesh, sheet, x, y, n),
            x * 32768 + mesh[j].x,
            y * 32768 + mesh[j].y,
            (x * 0x1_0000_0000 + y) as u64,
            sheet,
            mesh[j].height,
        ),
    decreases n,
{
    let v = mesh[n - 1];
    let before = collected(spots, mesh, sheet, x, y, n - 1);
    let px = x * 32768 + mesh[j].x;
    let py = y * 32768 + mesh[j].y;
    let tile = (x * 0x1_0000_0000 + y) as u64;
    if j < n - 1 {
        every_border_vertex_is_claimed(spots, mesh, sheet, x, y, n - 1, j);
    }
    if is_border(v) {
        what_is_noted_is_reached(
            before,
            (x * 32768 + v.x) as i64,
            (y * 32768 + v.y) as i64,
            tile,
            sheet,
            v.height,
            px,
            py,
            tile,
            sheet,
            mesh[j].height,
        );
    }
}

/// What a spot had is kept.
pub proof fn a_claim_is_never_withdrawn(
    spots: Seq<Spot>,
    mesh: Seq<Vertex>,
    sheet: Option<i64>,
    x: u32,
    y: u32,
    n: int,
    px: int,
    py: int,
    other: u64,
    layer: Option<i64>,
    h: i64,
)
    requires
        0 <= n <= mesh.len(),
        reaches(spots, px, py, other, layer, h),
    ensures
        reaches(collected(spots, mesh, sheet, x, y, n), px, py, other, layer, h),
    decreases n,
{
    if n > 0 {
        a_claim_is_never_withdrawn(spots, mesh, sheet, x, y, n - 1, px, py, other, layer, h);
        let v = mesh[n - 1];
        if is_border(v) {
            what_is_noted_is_reached(
                collected(spots, mesh, sheet, x, y, n - 1),
                (x * 32768 + v.x) as i64,
                (y * 32768 + v.y) as i64,
                (x * 0x1_0000_0000 + y) as u64,
                sheet,
                v.height,
                px,
                py,
                other,
                layer,
                h,
            );
        }
    }
}

/// Every end of a claim is the height of a border vertex of the tile there, or was
/// one before.
pub proof fn every_claim_ends_at_a_vertex(
    spots: Seq<Spot>,
    mesh: Seq<Vertex>,
    sheet: Option<i64>,
    x: u32,
    y: u32,
    n: int,
    px: int,
    py: int,
    other: u64,
    layer: Option<i64>,
    h: i64,
)
    requires
        0 <= n <= mesh.len(),
        is_end(collected(spots, mesh, sheet, x, y, n), px, py, other, layer, h),
    ensures
        is_end(spots, px, py, other, layer, h) || (other == (x * 0x1_0000_0000 + y) as u64 && layer == sheet && exists|
            j: int,
        |
            0 <= j < n && is_border(#[trigger] mesh[j]) && px == x * 32768 + mesh[j].x && py == y * 32768 + mesh[j].y
                && mesh[j].height == h),
    decreases n,
{
    if n > 0 {
        let v = mesh[n - 1];
        let before = collected(spots, mesh, sheet, x, y, n - 1);
        if is_border(v) {
            what_is_noted_is_reached(
                before,
                (x * 32768 + v.x) as i64,
                (y * 32768 + v.y) as i64,
                (x * 0x1_0000_0000 + y) as u64,
                sheet,
                v.height,
                px,
                py,
                other,
                layer,
                h,
            );
        }
        if is_end(before, px, py, other, layer, h) {
            every_claim_ends_at_a_vertex(spots, mesh, sheet, x, y, n - 1, px, py, other, layer, h);
        }
    }
}

/// What is found of every claim of every spot: how far it splits open, past the
/// limit above five millimetres.
pub open spec fn splits_found(spots: Seq<Spot>, zoom: u8, rows: Seq<Seq<Option<Finding>>>) -> bool {
    &&& rows.len() == spots.len()
    &&& forall|i: int| 0 <= i < spots.len() ==> (#[trigger] rows[i]).len() == spots[i].claims.len()
    &&& forall|i: int, k: int|
        0 <= i < spots.len() && 0 <= k < rows[i].len() ==> #[trigger] rows[i][k] == {
            let c = spots[i].claims[k];
            above(
                c.hi - c.lo,
                5_000,
                Offender {
                    place: place_of(spots[i].x as int, spots[i].y as int, zoom as int),
                    zoom,
                    value: (c.hi - c.lo) as i128,
                    note: Note::Split { sheet: c.sheet, low: c.lo, high: c.hi },
                },
            )
        }
}

/// Every claim is asked how far it splits.
pub proof fn every_claim_is_asked_for_its_split(
    s: Scores,
    spots: Seq<Spot>,
    zoom: u8,
    rows: Seq<Seq<Option<Finding>>>,
    n: int,
)
    requires
        0 <= n <= spots.len(),
        splits_found(spots, zoom, rows),
    ensures
        splits_scored(s, spots, zoom, n) == gathered_rows(s, rows, n),
    decreases n,
{
    if n > 0 {
        every_claim_is_asked_for_its_split(s, spots, zoom, rows, n - 1);
        let row = rows[n - 1];
        lemma_splits_found(splits_scored(s, spots, zoom, n - 1), spots, zoom, rows, n - 1, row.len() as int);
    }
}

proof fn lemma_splits_found(s: Scores, spots: Seq<Spot>, zoom: u8, rows: Seq<Seq<Option<Finding>>>, i: int, n: int)
    requires
        0 <= i < spots.len(),
        0 <= n <= rows[i].len(),
        splits_found(spots, zoom, rows),
    ensures
        split_scored(s, spots[i], zoom, n) == gathered(s, rows[i], n),
    decreases n,
{
    if n > 0 {
        lemma_splits_found(s, spots, zoom, rows, i, n - 1);
        let f = rows[i][n - 1];
    }
}

proof fn lemma_extremes(group: Seq<Claim>, top: bool, n: int) -> (at: (int, int))
    requires
        1 <= n <= group.len(),
    ensures
        0 <= at.0 < n,
        0 <= at.1 < n,
        least(group, top, n) == if top {
            group[at.0].hi
        } else {
            group[at.0].lo
        },
        most(group, top, n) == if top {
            group[at.1].hi
        } else {
            group[at.1].lo
        },
    decreases n,
{
    if n == 1 {
        (0, 0)
    } else {
        let at = lemma_extremes(group, top, n - 1);
        (
            if least(group, top, n) == least(group, top, n - 1) {
                at.0
            } else {
                n - 1
            },
            if most(group, top, n) == most(group, top, n - 1) {
                at.1
            } else {
                n - 1
            },
        )
    }
}

/// How far two claims are apart where they begin, or where they end.
pub open spec fn is_apart(group: Seq<Claim>, i: int, j: int, by: int) -> bool {
    group[i].lo - group[j].lo == by || group[i].hi - group[j].hi == by
}

/// The step of a group is how far two of its claims are apart, and none are
/// further.
pub proof fn the_step_is_the_widest_disagreement(group: Seq<Claim>)
    requires
        group.len() >= 1,
    ensures
        exists|i: int, j: int|
            0 <= i < group.len() && 0 <= j < group.len() && #[trigger] is_apart(group, i, j, group_step(group)),
        forall|i: int, j: int|
            0 <= i < group.len() && 0 <= j < group.len() ==> (#[trigger] group[i]).lo - (#[trigger] group[j]).lo
                <= group_step(group) && group[i].hi - group[j].hi <= group_step(group),
{
    let low = lemma_extremes(group, false, group.len() as int);
    let high = lemma_extremes(group, true, group.len() as int);
    if group_step(group) == spread(group, false) {
        assert(is_apart(group, low.1, low.0, group_step(group)));
    } else {
        assert(is_apart(group, high.1, high.0, group_step(group)));
    }
    assert forall|i: int, j: int| 0 <= i < group.len() && 0 <= j < group.len() implies (#[trigger] group[i]).lo - (
    #[trigger] group[j]).lo <= group_step(group) && group[i].hi - group[j].hi <= group_step(group) by {
        crate::verify::checks::seams::a_disagreement_is_measured(group, i, j);
    }
}

/// A group of two claims or more, none split open past five millimetres, is
/// compared: its step is a sample, past the limit above five millimetres. One
/// with a split is left out and counted, and a claim alone is nothing.
pub proof fn a_group_is_compared_unless_it_has_split(h: Held, x: i64, y: i64, group: Seq<Claim>, zoom: u8)
    ensures
        ({
            let now = group_held(h, x, y, group, zoom);
            let split = exists|k: int| 0 <= k < group.len() && (#[trigger] group[k]).hi - group[k].lo > 5_000;
            let found = above(
                group_step(group),
                5_000,
                Offender {
                    place: place_of(x as int, y as int, zoom as int),
                    zoom,
                    value: group_step(group) as i128,
                    note: Note::SeamStep { tiles: group.len() as u64, x, y },
                },
            );
            &&& group.len() < 2 ==> now == h
            &&& group.len() >= 2 && split ==> now == (Held { unusable: bumped(h.unusable), ..h })
            &&& group.len() >= 2 && !split ==> now == (Held {
                shared: bumped(h.shared),
                step: gathered(h.step, seq![found], 1),
                ..h
            })
        }),
{
    let found = above(
        group_step(group),
        5_000,
        Offender {
            place: place_of(x as int, y as int, zoom as int),
            zoom,
            value: group_step(group) as i128,
            note: Note::SeamStep { tiles: group.len() as u64, x, y },
        },
    );
    assert(seq![found][0] == found);
    assert(gathered(h.step, seq![found], 0) == h.step);
}

/// Whether a sheet is to be read before another: no sheet first, and the rest by
/// number.
pub open spec fn comes_first(a: Option<i64>, b: Option<i64>) -> bool {
    match b {
        None => false,
        Some(q) => a is None || a->0 < q,
    }
}

/// The sheets at a spot are those its claims are on, each once, in order.
pub proof fn the_sheets_are_those_of_the_claims(claims: Seq<Claim>, n: int)
    requires
        0 <= n <= claims.len(),
    ensures
        forall|k: int| 0 <= k < n ==> sheets_of(claims, n).contains((#[trigger] claims[k]).sheet),
        forall|i: int|
            0 <= i < sheets_of(claims, n).len() ==> exists|k: int|
                0 <= k < n && (#[trigger] claims[k]).sheet == #[trigger] sheets_of(claims, n)[i],
        forall|i: int, j: int|
            0 <= i < j < sheets_of(claims, n).len() ==> comes_first(
                #[trigger] sheets_of(claims, n)[i],
                #[trigger] sheets_of(claims, n)[j],
            ),
    decreases n,
{
    if n > 0 {
        the_sheets_are_those_of_the_claims(claims, n - 1);
        let rest = sheets_of(claims, n - 1);
        let now = sheets_of(claims, n);
        let s = claims[n - 1].sheet;
        if !rest.contains(s) {
            lemma_rank(rest, s, rest.len() as int);
            let r = sheet_rank(rest, s, rest.len() as int);
            assert(now == rest.insert(r, s));
            assert(now[r] == s);
            assert forall|k: int| 0 <= k < n implies now.contains((#[trigger] claims[k]).sheet) by {
                if k < n - 1 {
                    let i = choose|i: int| 0 <= i < rest.len() && rest[i] == claims[k].sheet;
                    if i < r {
                        assert(now[i] == rest[i]);
                    } else {
                        assert(now[i + 1] == rest[i]);
                    }
                }
            }
            assert forall|i: int| 0 <= i < now.len() implies exists|k: int|
                0 <= k < n && (#[trigger] claims[k]).sheet == #[trigger] now[i] by {
                if i < r {
                    assert(now[i] == rest[i]);
                } else if i > r {
                    assert(now[i] == rest[i - 1]);
                } else {
                    assert(claims[n - 1].sheet == now[i]);
                }
            }
            assert forall|i: int, j: int| 0 <= i < j < now.len() implies comes_first(
                #[trigger] now[i],
                #[trigger] now[j],
            ) by {
                let p = if i < r {
                    i
                } else {
                    i - 1
                };
                let q = if j < r {
                    j
                } else {
                    j - 1
                };
                if i == r {
                    assert(now[j] == rest[q]);
                    assert(!comes_first(rest[q], s));
                    assert(rest[q] != s);
                } else if j == r {
                    assert(now[i] == rest[p]);
                    assert(comes_first(rest[p], s));
                } else {
                    assert(now[i] == rest[p] && now[j] == rest[q]);
                }
            }
        }
    }
}

proof fn lemma_rank(sheets: Seq<Option<i64>>, s: Option<i64>, n: int)
    requires
        0 <= n <= sheets.len(),
        forall|i: int, j: int|
            0 <= i < j < sheets.len() ==> comes_first(#[trigger] sheets[i], #[trigger] sheets[j]),
    ensures
        0 <= sheet_rank(sheets, s, n) <= n,
        forall|i: int| 0 <= i < sheet_rank(sheets, s, n) ==> comes_first(#[trigger] sheets[i], s),
        forall|i: int| sheet_rank(sheets, s, n) <= i < n ==> !comes_first(#[trigger] sheets[i], s),
    decreases n,
{
    if n > 0 {
        lemma_rank(sheets, s, n - 1);
        let r = sheet_rank(sheets, s, n - 1);
        assert(sheet_before(sheets[n - 1], s) == comes_first(sheets[n - 1], s));
        if comes_first(sheets[n - 1], s) && r < n - 1 {
            assert(comes_first(sheets[r], sheets[n - 1]));
            assert(!comes_first(sheets[r], s));
        }
    }
}

/// The claims on a sheet are all of that sheet, and every one of the spot's that
/// is.
pub proof fn the_claims_on_a_sheet_are_all_of_it(claims: Seq<Claim>, s: Option<i64>, n: int)
    requires
        0 <= n <= claims.len(),
    ensures
        forall|k: int|
            0 <= k < n && (#[trigger] claims[k]).sheet == s ==> on_sheet(claims, s, n).contains(claims[k]),
        forall|i: int|
            0 <= i < on_sheet(claims, s, n).len() ==> (#[trigger] on_sheet(claims, s, n)[i]).sheet == s && exists|k: int|
                0 <= k < n && #[trigger] claims[k] == on_sheet(claims, s, n)[i],
    decreases n,
{
    if n > 0 {
        the_claims_on_a_sheet_are_all_of_it(claims, s, n - 1);
        let rest = on_sheet(claims, s, n - 1);
        let now = on_sheet(claims, s, n);
        if claims[n - 1].sheet == s {
            assert(now[rest.len() as int] == claims[n - 1]);
            assert forall|k: int| 0 <= k < n && (#[trigger] claims[k]).sheet == s implies now.contains(claims[k]) by {
                if k < n - 1 {
                    let i = choose|i: int| 0 <= i < rest.len() && rest[i] == claims[k];
                    assert(now[i] == rest[i]);
                }
            }
            assert forall|i: int| 0 <= i < now.len() implies (#[trigger] now[i]).sheet == s && exists|k: int|
                0 <= k < n && #[trigger] claims[k] == now[i] by {
                if i < rest.len() {
                    assert(now[i] == rest[i]);
                } else {
                    assert(claims[n - 1] == now[i]);
                }
            }
        }
    }
}

/// Where every tile has one claim the claims are compared whatever their sheets;
/// where some tile has two, sheet by sheet.
pub proof fn surfaces_are_told_apart_only_where_a_tile_has_two(h: Held, spot: Spot, zoom: u8)
    ensures
        ({
            let two = exists|i: int, j: int|
                0 <= i < j < spot.claims.len() && (#[trigger] spot.claims[i]).tile == (#[trigger] spot.claims[j]).tile;
            let sheets = sheets_of(spot.claims, spot.claims.len() as int);
            &&& !two ==> spot_held(h, spot, zoom) == group_held(h, spot.x, spot.y, spot.claims, zoom)
            &&& two ==> spot_held(h, spot, zoom) == sheets_held(h, spot, sheets, zoom, sheets.len() as int)
        }),
{
}

} // verus!
