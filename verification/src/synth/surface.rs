//! Road-surface bands: the asphalt under the painted carriageway.
//!
//! Every drivable road at grade gains a draped band at detail zooms. The band
//! is cut back where a junction plate lies, so it ends under the plate's mouth
//! instead of running through the crossing.
use vstd::prelude::*;

use crate::arith::{lemma_part_way, max, min, part_way, quot_of};
use crate::project::Place;
use crate::synth::structure::Normal;
use crate::synth::walkway::claims::{
    by_start, holds, merge_spans, merged_stretches_hold_every_claim,
    ordering_keeps_every_claim, sort_parts, spans_of, Part,
};
use crate::terrain::TerrainMesh;
use crate::text::is_name;
use crate::tile_build::geometry::Corner;
use crate::value::{double_of, double_under, Datum, Value};

pub mod pieces;

verus! {

/// Shortest piece worth drawing once plates have cut a line, in micrometres.
pub const MIN_PIECE_UM: i64 = 1_000_000;

/// The greatest arclength a line is measured to, in micrometres.
pub const ARC_LIMIT_UM: i64 = 1_000_000_000_000_000;

/// The greatest longitude or latitude, in billionths of a degree, with a wide
/// margin.
pub const PLACE_LIMIT: i64 = 1_000_000_000_000;

/// What a feature stands for when surfaces are synthesised.
#[derive(Clone, Copy, Debug, PartialEq, Eq, Structural)]
pub enum Synth {
    Nothing,
    /// Paint of a road; `deck` when it runs on a structure.
    Road { deck: bool },
}

/// Whether a class property says the feature is a painted marking.
pub open spec fn is_marking(props: Seq<(String, Value)>) -> bool {
    exists|i: int|
        0 <= i < props.len() && (#[trigger] props[i]).0@ == "class"@ && props[i].1@ == Datum::Text(
            "marking"@,
        )
}

/// The bits of the width a feature's band is drawn to: nothing below the
/// surface zoom, without elevation, on a structure, for a marking, or without a
/// recorded width.
pub open spec fn band_due(
    z: u8,
    min_zoom: u8,
    has_elevation: bool,
    synth: Synth,
    props: Seq<(String, Value)>,
) -> Option<u64> {
    if z >= min_zoom && has_elevation && synth == (Synth::Road { deck: false }) && !is_marking(
        props,
    ) {
        double_under(props, "width_m"@, 0)
    } else {
        None
    }
}

fn has_marking_class(props: &[(String, Value)]) -> (yes: bool)
    ensures
        yes == is_marking(props@),
{
    let mut i: usize = 0;
    while i < props.len()
        invariant
            i <= props.len(),
            forall|k: int|
                0 <= k < i ==> !((#[trigger] props[k]).0@ == "class"@ && props[k].1@ == Datum::Text(
                    "marking"@,
                )),
        decreases props.len() - i,
    {
        if is_name(&props[i].0, "class") {
            if let Value::String(s) = &props[i].1 {
                if is_name(s, "marking") {
                    assert(props[i as int].1@ == Datum::Text("marking"@));
                    return true;
                }
            }
        }
        i = i + 1;
    }
    false
}

/// The width a feature's band is drawn to, or nothing when it carries none.
pub fn band_width(
    z: u8,
    min_zoom: u8,
    has_elevation: bool,
    synth: Synth,
    props: &[(String, Value)],
) -> (out: Option<u64>)
    ensures
        out == band_due(z, min_zoom, has_elevation, synth, props@),
{
    if z < min_zoom || !has_elevation || synth != (Synth::Road { deck: false }) {
        return None;
    }
    if has_marking_class(props) {
        return None;
    }
    double_of(props, "width_m")
}

/// What the class properties among the first `n` hold.
pub open spec fn class_data(props: Seq<(String, Value)>, n: int) -> Seq<Datum>
    decreases n,
{
    if n <= 0 {
        Seq::empty()
    } else if props[n - 1].0@ == "class"@ {
        class_data(props, n - 1).push(props[n - 1].1@)
    } else {
        class_data(props, n - 1)
    }
}

/// The properties a band keeps of its road: the class, and nothing else.
pub fn class_only(props: &[(String, Value)]) -> (out: Vec<(String, Value)>)
    ensures
        out@.map_values(|p: (String, Value)| p.1@) == class_data(props@, props.len() as int),
        forall|i: int| 0 <= i < out.len() ==> (#[trigger] out[i]).0@ == "class"@,
{
    let mut out: Vec<(String, Value)> = Vec::new();
    let mut i: usize = 0;
    assert(out@.map_values(|p: (String, Value)| p.1@) =~= Seq::<Datum>::empty());
    while i < props.len()
        invariant
            i <= props.len(),
            out@.map_values(|p: (String, Value)| p.1@) == class_data(props@, i as int),
            forall|k: int| 0 <= k < out.len() ==> (#[trigger] out[k]).0@ == "class"@,
        decreases props.len() - i,
    {
        if is_name(&props[i].0, "class") {
            let ghost before = out@;
            out.push((props[i].0.clone(), props[i].1.duplicate()));
            assert(out@.map_values(|p: (String, Value)| p.1@) =~= before.map_values(
                |p: (String, Value)| p.1@,
            ).push(props[i as int].1@));
        }
        i = i + 1;
    }
    out
}

/// The cuts in order of where they start, merged where they touch.
pub open spec fn merged(cuts: Seq<Part>) -> Seq<(i64, i64)> {
    let ordered = by_start(cuts, cuts.len() as int);
    spans_of(ordered, 0, ordered.len() as int)
}

/// How far along the first `n` merged cuts reach.
pub open spec fn cut_to(cuts: Seq<(i64, i64)>, n: int) -> int
    decreases n,
{
    if n <= 0 {
        0
    } else {
        max(cut_to(cuts, n - 1), cuts[n - 1].1 as int)
    }
}

/// The stretches left before each of the first `n` merged cuts, those long
/// enough to draw.
pub open spec fn left_before(cuts: Seq<(i64, i64)>, n: int) -> Seq<(i64, i64)>
    decreases n,
{
    if n <= 0 {
        Seq::empty()
    } else {
        let s = cut_to(cuts, n - 1);
        if cuts[n - 1].0 - s >= MIN_PIECE_UM {
            left_before(cuts, n - 1).push((s as i64, cuts[n - 1].0))
        } else {
            left_before(cuts, n - 1)
        }
    }
}

/// The stretches left of a line of some length.
pub open spec fn kept_spans(cuts: Seq<(i64, i64)>, total: int) -> Seq<(i64, i64)> {
    let n = cuts.len() as int;
    let s = cut_to(cuts, n);
    if total - s >= MIN_PIECE_UM {
        left_before(cuts, n).push((s as i64, total as i64))
    } else {
        left_before(cuts, n)
    }
}

pub open spec fn arc_fits(a: i64) -> bool {
    -ARC_LIMIT_UM <= a <= ARC_LIMIT_UM
}

fn keep(cuts: &Vec<(i64, i64)>, total: i64) -> (out: Vec<(i64, i64)>)
    requires
        arc_fits(total),
        forall|i: int|
            0 <= i < cuts.len() ==> arc_fits((#[trigger] cuts[i]).0) && arc_fits(cuts[i].1),
    ensures
        out@ == kept_spans(cuts@, total as int),
{
    let mut out: Vec<(i64, i64)> = Vec::new();
    let mut s: i64 = 0;
    let mut i: usize = 0;
    while i < cuts.len()
        invariant
            i <= cuts.len(),
            0 <= s <= ARC_LIMIT_UM,
            s == cut_to(cuts@, i as int),
            forall|k: int|
                0 <= k < cuts.len() ==> arc_fits((#[trigger] cuts[k]).0) && arc_fits(cuts[k].1),
            out@ == left_before(cuts@, i as int),
        decreases cuts.len() - i,
    {
        let (a, b): (i64, i64) = cuts[i];
        if a - s >= MIN_PIECE_UM {
            out.push((s, a));
        }
        if s < b {
            s = b;
        }
        i = i + 1;
    }
    if total - s >= MIN_PIECE_UM {
        out.push((s, total));
    }
    out
}

/// The stretch of a measured line an arclength falls in: the last vertex that
/// lies no further along.
pub open spec fn stretch_at(arc: Seq<i64>, s: int, n: int) -> int
    decreases n,
{
    if n <= 1 {
        0
    } else if arc[n - 1] <= s {
        n - 1
    } else {
        stretch_at(arc, s, n - 1)
    }
}

/// The place an arclength along a line, between the vertices on either side.
pub open spec fn place_at(pts: Seq<Place>, arc: Seq<i64>, s: int) -> Place {
    let i = stretch_at(arc, s, arc.len() as int);
    if i >= pts.len() - 1 {
        pts[pts.len() - 1]
    } else {
        let len = arc[i + 1] - arc[i];
        let t = if s < arc[i] {
            0
        } else {
            s - arc[i]
        };
        Place {
            lon: part_way(pts[i].lon as int, pts[i + 1].lon as int, t, len) as i64,
            lat: part_way(pts[i].lat as int, pts[i + 1].lat as int, t, len) as i64,
        }
    }
}

/// Those of the first `n` vertices that lie strictly between two arclengths.
pub open spec fn inner_vertices(pts: Seq<Place>, arc: Seq<i64>, a: int, b: int, n: int) -> Seq<Place>
    decreases n,
{
    if n <= 0 {
        Seq::empty()
    } else if a < arc[n - 1] < b {
        inner_vertices(pts, arc, a, b, n - 1).push(pts[n - 1])
    } else {
        inner_vertices(pts, arc, a, b, n - 1)
    }
}

/// Places without those that repeat the one kept before them.
pub open spec fn without_repeats(s: Seq<Place>, n: int) -> Seq<Place>
    decreases n,
{
    if n <= 0 {
        Seq::empty()
    } else {
        let before = without_repeats(s, n - 1);
        if before.len() > 0 && before.last() == s[n - 1] {
            before
        } else {
            before.push(s[n - 1])
        }
    }
}

/// The part of a line between two arclengths: its two cut ends, and the
/// vertices between them.
pub open spec fn slice(pts: Seq<Place>, arc: Seq<i64>, a: int, b: int) -> Seq<Place> {
    let all = (seq![place_at(pts, arc, a)] + inner_vertices(pts, arc, a, b, pts.len() as int)).push(
        place_at(pts, arc, b),
    );
    without_repeats(all, all.len() as int)
}

/// A line measured along its vertices.
pub open spec fn measured(pts: Seq<Place>, arc: Seq<i64>) -> bool {
    &&& pts.len() == arc.len()
    &&& pts.len() > 0 ==> arc[0] == 0
    &&& forall|i: int, j: int|
        0 <= i < j < arc.len() ==> (#[trigger] arc[i]) <= (#[trigger] arc[j])
    &&& forall|i: int| 0 <= i < arc.len() ==> 0 <= #[trigger] arc[i] <= ARC_LIMIT_UM
    &&& forall|i: int|
        0 <= i < pts.len() ==> -PLACE_LIMIT <= (#[trigger] pts[i]).lon <= PLACE_LIMIT
            && -PLACE_LIMIT <= pts[i].lat <= PLACE_LIMIT
}

fn way(a: i64, b: i64, t: i64, d: i64) -> (out: i64)
    requires
        -PLACE_LIMIT <= a <= PLACE_LIMIT,
        -PLACE_LIMIT <= b <= PLACE_LIMIT,
        0 <= t <= d,
        0 < d <= ARC_LIMIT_UM,
    ensures
        out == part_way(a as int, b as int, t as int, d as int),
        min(a as int, b as int) <= out <= max(a as int, b as int),
{
    let v: i128 = b as i128 - a as i128;
    proof {
        lemma_part_way(a as int, b as int, t as int, d as int);
        assert(-2_000_000_000_000 * 1_000_000_000_000_000 <= v * t <= 2_000_000_000_000
            * 1_000_000_000_000_000) by (nonlinear_arith)
            requires
                -2_000_000_000_000 <= v <= 2_000_000_000_000,
                0 <= t <= 1_000_000_000_000_000,
        ;
    }
    let part: i128 = quot_of(v * (t as i128), d as u128);
    (a as i128 + part) as i64
}

/// The place an arclength along a measured line.
pub fn point_at(pts: &[Place], arc: &[i64], s: i64) -> (out: Place)
    requires
        measured(pts@, arc@),
        pts.len() > 0,
        0 <= s,
    ensures
        out == place_at(pts@, arc@, s as int),
{
    let mut i: usize = arc.len();
    while i > 1 && arc[i - 1] > s
        invariant
            1 <= i <= arc.len(),
            stretch_at(arc@, s as int, arc.len() as int) == stretch_at(arc@, s as int, i as int),
            i < arc.len() ==> arc[i as int] > s,
        decreases i,
    {
        i = i - 1;
    }
    let at: usize = i - 1;
    if at >= pts.len() - 1 {
        return pts[pts.len() - 1];
    }
    let len: i64 = arc[at + 1] - arc[at];
    assert(arc[0] == 0);
    let t: i64 = s - arc[at];
    Place {
        lon: way(pts[at].lon, pts[at + 1].lon, t, len),
        lat: way(pts[at].lat, pts[at + 1].lat, t, len),
    }
}

/// The part of a line between two arclengths.
pub fn slice_arc(pts: &[Place], arc: &[i64], a: i64, b: i64) -> (out: Vec<Place>)
    requires
        measured(pts@, arc@),
        pts.len() > 0,
        0 <= a,
        0 <= b,
    ensures
        out@ == slice(pts@, arc@, a as int, b as int),
{
    let mut all: Vec<Place> = Vec::new();
    all.push(point_at(pts, arc, a));
    let ghost first = seq![place_at(pts@, arc@, a as int)];
    let mut i: usize = 0;
    assert(all@ =~= first + inner_vertices(pts@, arc@, a as int, b as int, 0));
    while i < pts.len()
        invariant
            i <= pts.len(),
            measured(pts@, arc@),
            all@ == first + inner_vertices(pts@, arc@, a as int, b as int, i as int),
        decreases pts.len() - i,
    {
        if a < arc[i] && arc[i] < b {
            all.push(pts[i]);
            assert(all@ =~= first + inner_vertices(pts@, arc@, a as int, b as int, i + 1));
        }
        i = i + 1;
    }
    all.push(point_at(pts, arc, b));
    let mut out: Vec<Place> = Vec::new();
    let mut k: usize = 0;
    while k < all.len()
        invariant
            k <= all.len(),
            out@ == without_repeats(all@, k as int),
        decreases all.len() - k,
    {
        let n: usize = out.len();
        if n == 0 || out[n - 1] != all[k] {
            out.push(all[k]);
        }
        k = k + 1;
    }
    out
}

/// The pieces of the first `n` stretches that have two places or more.
pub open spec fn pieces(pts: Seq<Place>, arc: Seq<i64>, spans: Seq<(i64, i64)>, n: int) -> Seq<
    Seq<Place>,
>
    decreases n,
{
    if n <= 0 {
        Seq::empty()
    } else {
        let piece = slice(pts, arc, spans[n - 1].0 as int, spans[n - 1].1 as int);
        if piece.len() >= 2 {
            pieces(pts, arc, spans, n - 1).push(piece)
        } else {
            pieces(pts, arc, spans, n - 1)
        }
    }
}

/// What is left of a line once some stretches are cut out of it.
pub open spec fn trimmed(pts: Seq<Place>, arc: Seq<i64>, cuts: Seq<Part>) -> Seq<Seq<Place>> {
    if pts.len() < 2 || arc[arc.len() - 1] <= 0 {
        Seq::empty()
    } else if cuts.len() == 0 {
        seq![pts]
    } else {
        let spans = kept_spans(merged(cuts), arc[arc.len() - 1] as int);
        pieces(pts, arc, spans, spans.len() as int)
    }
}

pub open spec fn cuts_fit(cuts: Seq<Part>) -> bool {
    forall|i: int|
        0 <= i < cuts.len() ==> 0 <= (#[trigger] cuts[i]).from <= cuts[i].to <= ARC_LIMIT_UM
}

proof fn lemma_ordered_fit(cuts: Seq<Part>, n: int)
    requires
        0 <= n <= cuts.len(),
        cuts_fit(cuts),
    ensures
        by_start(cuts, n).len() == n,
        cuts_fit(by_start(cuts, n)),
    decreases n,
{
    if n > 0 {
        lemma_ordered_fit(cuts, n - 1);
        ordering_keeps_every_claim(cuts, n);
        ordering_keeps_every_claim(cuts, n - 1);
        let rest = by_start(cuts, n - 1);
        let all = by_start(cuts, n);
        let r = crate::synth::walkway::claims::start_rank(rest, cuts[n - 1].from, rest.len() as int);
        crate::synth::walkway::claims::lemma_start_rank(rest, cuts[n - 1].from, rest.len() as int);
        assert forall|i: int| 0 <= i < all.len() implies 0 <= (#[trigger] all[i]).from <= all[i].to
            <= ARC_LIMIT_UM by {
            if i < r {
                assert(all[i] == rest[i]);
            } else if i > r {
                assert(all[i] == rest[i - 1]);
            }
        }
    }
}

proof fn lemma_spans_fit(parts: Seq<Part>, n: int)
    requires
        0 <= n <= parts.len(),
        cuts_fit(parts),
    ensures
        forall|i: int|
            0 <= i < spans_of(parts, 0, n).len() ==> 0 <= (#[trigger] spans_of(parts, 0, n)[i]).0
                <= ARC_LIMIT_UM && 0 <= spans_of(parts, 0, n)[i].1 <= ARC_LIMIT_UM,
    decreases n,
{
    if n > 0 {
        lemma_spans_fit(parts, n - 1);
        let rest = spans_of(parts, 0, n - 1);
        let all = spans_of(parts, 0, n);
        assert forall|i: int| 0 <= i < all.len() implies 0 <= (#[trigger] all[i]).0 <= ARC_LIMIT_UM
            && 0 <= all[i].1 <= ARC_LIMIT_UM by {
            if i < rest.len() {
                assert(0 <= rest[i].0 <= ARC_LIMIT_UM && 0 <= rest[i].1 <= ARC_LIMIT_UM);
            }
        }
    }
}

/// Cuts stretches out of a measured line, and gives the pieces that remain: the
/// whole line when nothing is cut.
pub fn trim_line(pts: &[Place], arc: &[i64], cuts: &Vec<Part>) -> (out: Vec<Vec<Place>>)
    requires
        measured(pts@, arc@),
        cuts_fit(cuts@),
    ensures
        out@.map_values(|l: Vec<Place>| l@) == trimmed(pts@, arc@, cuts@),
{
    let mut out: Vec<Vec<Place>> = Vec::new();
    assert(out@.map_values(|l: Vec<Place>| l@) =~= Seq::<Seq<Place>>::empty());
    if pts.len() < 2 {
        return out;
    }
    let total: i64 = arc[arc.len() - 1];
    if total <= 0 {
        return out;
    }
    if cuts.len() == 0 {
        let mut whole: Vec<Place> = Vec::new();
        let mut k: usize = 0;
        while k < pts.len()
            invariant
                k <= pts.len(),
                whole@ == pts@.take(k as int),
            decreases pts.len() - k,
        {
            whole.push(pts[k]);
            assert(whole@ =~= pts@.take(k + 1));
            k = k + 1;
        }
        assert(pts@.take(pts.len() as int) =~= pts@);
        out.push(whole);
        assert(out@.map_values(|l: Vec<Place>| l@) =~= seq![pts@]);
        return out;
    }
    let ordered: Vec<Part> = sort_parts(cuts);
    let joined: Vec<(i64, i64)> = merge_spans(&ordered, 0);
    proof {
        lemma_ordered_fit(cuts@, cuts@.len() as int);
        lemma_spans_fit(ordered@, ordered@.len() as int);
        assert(joined@ == merged(cuts@));
    }
    let spans: Vec<(i64, i64)> = keep(&joined, total);
    proof {
        lemma_kept_inside(joined@, total as int);
    }
    let mut i: usize = 0;
    assert(out@.map_values(|l: Vec<Place>| l@) =~= pieces(pts@, arc@, spans@, 0));
    while i < spans.len()
        invariant
            i <= spans.len(),
            measured(pts@, arc@),
            pts.len() > 0,
            forall|k: int|
                0 <= k < spans.len() ==> 0 <= (#[trigger] spans[k]).0 && spans[k].0 <= spans[k].1,
            out@.map_values(|l: Vec<Place>| l@) == pieces(pts@, arc@, spans@, i as int),
        decreases spans.len() - i,
    {
        let (a, b): (i64, i64) = spans[i];
        let piece: Vec<Place> = slice_arc(pts, arc, a, b);
        if piece.len() >= 2 {
            let ghost before = out@;
            let ghost view = piece@;
            out.push(piece);
            assert(out@.map_values(|l: Vec<Place>| l@) =~= before.map_values(
                |l: Vec<Place>| l@,
            ).push(view));
        }
        i = i + 1;
    }
    out
}

proof fn lemma_cut_to(cuts: Seq<(i64, i64)>, n: int)
    requires
        0 <= n <= cuts.len(),
    ensures
        0 <= cut_to(cuts, n) <= i64::MAX,
        forall|i: int| 0 <= i < n ==> (#[trigger] cuts[i]).1 <= cut_to(cuts, n),
    decreases n,
{
    if n > 0 {
        lemma_cut_to(cuts, n - 1);
    }
}

proof fn lemma_left_inside(cuts: Seq<(i64, i64)>, n: int)
    requires
        0 <= n <= cuts.len(),
    ensures
        forall|i: int|
            0 <= i < left_before(cuts, n).len() ==> 0 <= (#[trigger] left_before(cuts, n)[i]).0
                && left_before(cuts, n)[i].0 + MIN_PIECE_UM <= left_before(cuts, n)[i].1,
    decreases n,
{
    if n > 0 {
        lemma_left_inside(cuts, n - 1);
        lemma_cut_to(cuts, n - 1);
        let before = left_before(cuts, n - 1);
        let all = left_before(cuts, n);
        assert forall|i: int| 0 <= i < all.len() implies 0 <= (#[trigger] all[i]).0 && all[i].0
            + MIN_PIECE_UM <= all[i].1 by {
            if i < before.len() {
                assert(all[i] == before[i]);
            }
        }
    }
}

proof fn lemma_kept_inside(cuts: Seq<(i64, i64)>, total: int)
    requires
        total <= i64::MAX,
    ensures
        forall|i: int|
            0 <= i < kept_spans(cuts, total).len() ==> 0 <= (#[trigger] kept_spans(cuts, total)[i]).0
                && kept_spans(cuts, total)[i].0 + MIN_PIECE_UM <= kept_spans(cuts, total)[i].1,
{
    let n = cuts.len() as int;
    lemma_left_inside(cuts, n);
    lemma_cut_to(cuts, n);
    let before = left_before(cuts, n);
    let all = kept_spans(cuts, total);
    assert forall|i: int| 0 <= i < all.len() implies 0 <= (#[trigger] all[i]).0 && all[i].0
        + MIN_PIECE_UM <= all[i].1 by {
        if i < before.len() {
            assert(all[i] == before[i]);
        }
    }
}

/// Whether two stretches share no more than an end.
pub open spec fn apart(a: (i64, i64), b: (i64, i64)) -> bool {
    a.1 <= b.0 || b.1 <= a.0
}

proof fn lemma_left_apart(cuts: Seq<(i64, i64)>, n: int, i: int, j: int)
    requires
        0 <= n <= cuts.len(),
        forall|a: int| 0 <= a < cuts.len() ==> (#[trigger] cuts[a]).0 <= cuts[a].1,
        forall|a: int, b: int|
            0 <= a < b < cuts.len() ==> (#[trigger] cuts[a]).1 <= (#[trigger] cuts[b]).0,
        0 <= i < left_before(cuts, n).len(),
        0 <= j < cuts.len(),
    ensures
        apart(left_before(cuts, n)[i], cuts[j]),
    decreases n,
{
    if n > 0 {
        let before = left_before(cuts, n - 1);
        lemma_cut_to(cuts, n - 1);
        if i < before.len() {
            lemma_left_apart(cuts, n - 1, i, j);
            assert(left_before(cuts, n)[i] == before[i]);
        } else if j < n - 1 {
            assert(cuts[j].1 <= cut_to(cuts, n - 1));
        } else if j > n - 1 {
            assert(cuts[n - 1].1 <= cuts[j].0);
        }
    }
}

/// What is kept of a line stays out of every cut, and is long enough to draw.
pub proof fn kept_pieces_stay_out_of_the_cuts(cuts: Seq<Part>, total: int, i: int, j: int)
    requires
        cuts_fit(cuts),
        total <= i64::MAX,
        0 <= i < kept_spans(merged(cuts), total).len(),
        0 <= j < cuts.len(),
    ensures
        apart(kept_spans(merged(cuts), total)[i], (cuts[j].from, cuts[j].to)),
        kept_spans(merged(cuts), total)[i].0 + MIN_PIECE_UM <= kept_spans(merged(cuts), total)[i].1,
{
    broadcast use vstd::seq_lib::group_to_multiset_ensures;

    let n = cuts.len() as int;
    let ordered = by_start(cuts, n);
    ordering_keeps_every_claim(cuts, n);
    lemma_ordered_fit(cuts, n);
    merged_stretches_hold_every_claim(ordered, 0, n);
    let spans = merged(cuts);
    lemma_kept_inside(spans, total);
    lemma_cut_to(spans, spans.len() as int);
    assert(cuts.take(n) =~= cuts);
    assert(cuts.to_multiset().count(cuts[j]) > 0) by {
        assert(cuts.contains(cuts[j]));
    }
    assert(ordered.contains(cuts[j]));
    let k = choose|k: int| 0 <= k < ordered.len() && ordered[k] == cuts[j];
    let s = choose|s: int| 0 <= s < spans.len() && holds(#[trigger] spans[s], ordered[k]);
    let kept = kept_spans(spans, total)[i];
    if i < left_before(spans, spans.len() as int).len() {
        lemma_left_apart(spans, spans.len() as int, i, s);
    } else {
        assert(spans[s].1 <= cut_to(spans, spans.len() as int));
    }
}

/// One pair of band vertices, left and right of the centerline.
#[derive(Clone, Copy, Debug, PartialEq, Eq, Structural)]
pub struct BandSection {
    pub left: Corner,
    pub right: Corner,
    /// Heights in millimetres.
    pub left_z: i32,
    pub right_z: i32,
}

/// The X coordinates of the first `n` pairs.
pub open spec fn band_xs(s: Seq<BandSection>, n: int) -> Seq<u16>
    decreases n,
{
    if n <= 0 {
        Seq::empty()
    } else {
        band_xs(s, n - 1).push(s[n - 1].left.x).push(s[n - 1].right.x)
    }
}

pub open spec fn band_ys(s: Seq<BandSection>, n: int) -> Seq<u16>
    decreases n,
{
    if n <= 0 {
        Seq::empty()
    } else {
        band_ys(s, n - 1).push(s[n - 1].left.y).push(s[n - 1].right.y)
    }
}

pub open spec fn band_zs(s: Seq<BandSection>, n: int) -> Seq<i32>
    decreases n,
{
    if n <= 0 {
        Seq::empty()
    } else {
        band_zs(s, n - 1).push(s[n - 1].left_z).push(s[n - 1].right_z)
    }
}

/// One normal for both vertices of each of `n` pairs.
pub open spec fn band_normals(up: Normal, n: int) -> Seq<i8>
    decreases n,
{
    if n <= 0 {
        Seq::empty()
    } else {
        band_normals(up, n - 1).push(up.u).push(up.v).push(up.u).push(up.v)
    }
}

/// The triangles between the first `n` pairs, whose vertices start at `base`:
/// two up-facing ones between each pair and the one before it.
pub open spec fn band_triangles(base: int, n: int) -> Seq<u32>
    decreases n,
{
    if n <= 1 {
        Seq::empty()
    } else {
        let l0 = (base + (n - 2) * 2) as u32;
        let r0 = (base + (n - 2) * 2 + 1) as u32;
        let l1 = (base + (n - 1) * 2) as u32;
        let r1 = (base + (n - 1) * 2 + 1) as u32;
        band_triangles(base, n - 1).push(l0).push(r0).push(r1).push(l0).push(r1).push(l1)
    }
}

/// An empty mesh.
pub fn empty_mesh() -> (m: TerrainMesh)
    ensures
        m.well_formed(),
        m.x@.len() == 0,
        m.indices@.len() == 0,
        m.edge_across@.len() == 0,
{
    TerrainMesh {
        x: Vec::new(),
        y: Vec::new(),
        z: Vec::new(),
        indices: Vec::new(),
        normals: Vec::new(),
        edge_across: Vec::new(),
    }
}

/// Appends one line's band to a mesh: a pair of vertices per section, and two
/// triangles between neighbouring pairs.
pub fn band(mesh: &mut TerrainMesh, sections: &[BandSection], up: Normal)
    requires
        old(mesh).well_formed(),
        old(mesh).edge_across@.len() == 0,
        old(mesh).x@.len() + 2 * sections.len() <= u32::MAX,
    ensures
        final(mesh).well_formed(),
        final(mesh).edge_across@.len() == 0,
        final(mesh).x@ == old(mesh).x@ + band_xs(sections@, sections.len() as int),
        final(mesh).y@ == old(mesh).y@ + band_ys(sections@, sections.len() as int),
        final(mesh).z@ == old(mesh).z@ + band_zs(sections@, sections.len() as int),
        final(mesh).normals@ == old(mesh).normals@ + band_normals(up, sections.len() as int),
        final(mesh).indices@ == old(mesh).indices@ + band_triangles(
            old(mesh).x@.len() as int,
            sections.len() as int,
        ),
{
    let base: u32 = mesh.x.len() as u32;
    let ghost m0 = *mesh;
    let mut i: usize = 0;
    proof {
        assert(m0.x@ + band_xs(sections@, 0) =~= m0.x@);
        assert(m0.y@ + band_ys(sections@, 0) =~= m0.y@);
        assert(m0.z@ + band_zs(sections@, 0) =~= m0.z@);
        assert(m0.normals@ + band_normals(up, 0) =~= m0.normals@);
        assert(m0.indices@ + band_triangles(base as int, 0) =~= m0.indices@);
    }
    while i < sections.len()
        invariant
            i <= sections.len(),
            base == m0.x@.len(),
            m0.x@.len() + 2 * sections.len() <= u32::MAX,
            m0.well_formed(),
            mesh.edge_across@.len() == 0,
            mesh.x@.len() == base + 2 * i,
            mesh.y@.len() == base + 2 * i,
            mesh.z@.len() == base + 2 * i,
            mesh.normals@.len() == 2 * (base + 2 * i),
            mesh.indices@.len() % 3 == 0,
            forall|k: int|
                0 <= k < mesh.indices@.len() ==> (#[trigger] mesh.indices@[k]) < base + 2 * i,
            mesh.x@ == m0.x@ + band_xs(sections@, i as int),
            mesh.y@ == m0.y@ + band_ys(sections@, i as int),
            mesh.z@ == m0.z@ + band_zs(sections@, i as int),
            mesh.normals@ == m0.normals@ + band_normals(up, i as int),
            mesh.indices@ == m0.indices@ + band_triangles(base as int, i as int),
        decreases sections.len() - i,
    {
        let s: BandSection = sections[i];
        mesh.x.push(s.left.x);
        mesh.x.push(s.right.x);
        mesh.y.push(s.left.y);
        mesh.y.push(s.right.y);
        mesh.z.push(s.left_z);
        mesh.z.push(s.right_z);
        mesh.normals.push(up.u);
        mesh.normals.push(up.v);
        mesh.normals.push(up.u);
        mesh.normals.push(up.v);
        if i > 0 {
            let l1: u32 = base + (i as u32) * 2;
            let r1: u32 = l1 + 1;
            let l0: u32 = l1 - 2;
            let r0: u32 = l1 - 1;
            mesh.indices.push(l0);
            mesh.indices.push(r0);
            mesh.indices.push(r1);
            mesh.indices.push(l0);
            mesh.indices.push(r1);
            mesh.indices.push(l1);
        }
        proof {
            assert(mesh.x@ =~= m0.x@ + band_xs(sections@, i + 1));
            assert(mesh.y@ =~= m0.y@ + band_ys(sections@, i + 1));
            assert(mesh.z@ =~= m0.z@ + band_zs(sections@, i + 1));
            assert(mesh.normals@ =~= m0.normals@ + band_normals(up, i + 1));
            assert(mesh.indices@ =~= m0.indices@ + band_triangles(base as int, i + 1));
        }
        i = i + 1;
    }
}

/// The place a band's feature is anchored at: the first vertex of the first
/// line that has one.
pub open spec fn anchor_of(lines: Seq<Vec<Place>>, n: int) -> Option<Place>
    decreases n,
{
    if n <= 0 {
        None
    } else {
        match anchor_of(lines, n - 1) {
            Some(p) => Some(p),
            None => if lines[n - 1]@.len() > 0 {
                Some(lines[n - 1]@[0])
            } else {
                None
            },
        }
    }
}

/// Finishes a band: nothing when its mesh has no triangle, or no line has a
/// vertex to anchor it at.
pub fn ribbon(lines: &[Vec<Place>], mesh: TerrainMesh) -> (out: Option<(Place, TerrainMesh)>)
    ensures
        out is Some <==> mesh.indices@.len() > 0 && anchor_of(
            lines@,
            lines.len() as int,
        ) is Some,
        out matches Some(r) ==> anchor_of(lines@, lines.len() as int) == Some(r.0) && r.1 == mesh,
{
    let mut anchor: Option<Place> = None;
    let mut i: usize = 0;
    while i < lines.len()
        invariant
            i <= lines.len(),
            anchor == anchor_of(lines@, i as int),
        decreases lines.len() - i,
    {
        if anchor.is_none() && lines[i].len() > 0 {
            anchor = Some(lines[i][0]);
        }
        i = i + 1;
    }
    if mesh.indices.len() == 0 {
        return None;
    }
    match anchor {
        Some(p) => Some((p, mesh)),
        None => None,
    }
}

/// A band of `n` pairs has two triangles between neighbours, and one pair alone
/// has none.
pub proof fn a_band_has_two_triangles_a_section(base: int, n: int)
    requires
        1 <= n,
    ensures
        band_triangles(base, n).len() == 6 * (n - 1),
    decreases n,
{
    if n > 1 {
        a_band_has_two_triangles_a_section(base, n - 1);
    }
}

} // verus!
