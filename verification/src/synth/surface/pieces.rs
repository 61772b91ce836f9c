//! What the cuts leave of a line, and what a band is drawn with.
use vstd::prelude::*;

use crate::arith::a_part_of_the_way_is_in_proportion;
use crate::project::Place;
use crate::synth::structure::Normal;
use crate::synth::surface::{
    anchor_of, band_due, band_normals, band_triangles, band_xs, band_ys, band_zs, class_data, cut_to, cuts_fit,
    inner_vertices, kept_spans, left_before, lemma_cut_to, lemma_ordered_fit, measured, merged, pieces, place_at, slice,
    stretch_at, trimmed, without_repeats, BandSection, Synth,
};
use crate::synth::walkway::claims::{by_start, ordering_keeps_every_claim, Part};
use crate::synth::walkway::free::drawn::a_merged_stretch_is_claimed_throughout;
use crate::value::{double_under, Datum, Value};

verus! {

// ---------------------------------------------------------------------------
// What the cuts leave.
// ---------------------------------------------------------------------------

/// Whether an arc lies in one of the stretches.
pub open spec fn lies_in(spans: Seq<(i64, i64)>, x: int) -> bool {
    exists|k: int| 0 <= k < spans.len() && (#[trigger] spans[k]).0 <= x <= spans[k].1
}

/// Whether an arc lies in one of the cuts.
pub open spec fn is_cut(cuts: Seq<Part>, x: int) -> bool {
    exists|k: int| 0 <= k < cuts.len() && (#[trigger] cuts[k]).from <= x <= cuts[k].to
}

/// A gap too short to draw.
pub open spec fn too_short(lo: int, hi: int, x: int) -> bool {
    lo <= x <= hi < lo + 1_000_000
}

proof fn lemma_merged_is_cut(cuts: Seq<Part>, t: int, x: int)
    requires
        cuts_fit(cuts),
        0 <= t < merged(cuts).len(),
        merged(cuts)[t].0 <= x <= merged(cuts)[t].1,
    ensures
        is_cut(cuts, x),
{
    broadcast use vstd::seq_lib::group_to_multiset_ensures;

    let n = cuts.len() as int;
    let ordered = by_start(cuts, n);
    ordering_keeps_every_claim(cuts, n);
    lemma_ordered_fit(cuts, n);
    assert(cuts.take(n) =~= cuts);
    assert forall|i: int| 0 <= i < ordered.len() implies (#[trigger] ordered[i]).from <= ordered[i].to
        && cuts.contains(ordered[i]) by {
        assert(ordered.contains(ordered[i]));
        assert(ordered.to_multiset().count(ordered[i]) > 0);
        assert(cuts.contains(ordered[i]));
    }
    a_merged_stretch_is_claimed_throughout(ordered, 0, n, t, x);
    if exists|i: int| 0 <= i < n && (#[trigger] ordered[i]).from <= x <= ordered[i].to {
        let i = choose|i: int| 0 <= i < n && (#[trigger] ordered[i]).from <= x <= ordered[i].to;
        assert(cuts.contains(ordered[i]));
        let k = choose|k: int| 0 <= k < cuts.len() && cuts[k] == ordered[i];
        assert(cuts[k].from <= x <= cuts[k].to);
    } else {
        let (i, j) = choose|i: int, j: int|
            0 <= i < n && 0 <= j < n && (#[trigger] ordered[i]).to <= x <= (#[trigger] ordered[j]).from
                <= ordered[i].to + 0;
        assert(ordered[i].from <= ordered[i].to);
        assert(false);
    }
}

proof fn lemma_left_covers(cuts: Seq<(i64, i64)>, n: int, x: int)
    requires
        0 <= n <= cuts.len(),
        0 <= x < cut_to(cuts, n),
    ensures
        lies_in(cuts, x) || lies_in(left_before(cuts, n), x) || exists|lo: int, hi: int| #[trigger] too_short(lo, hi, x),
    decreases n,
{
    if n > 0 {
        let rest = left_before(cuts, n - 1);
        let all = left_before(cuts, n);
        let s = cut_to(cuts, n - 1);
        lemma_cut_to(cuts, n - 1);
        if x < s {
            lemma_left_covers(cuts, n - 1, x);
            if lies_in(rest, x) {
                let k = choose|k: int| 0 <= k < rest.len() && (#[trigger] rest[k]).0 <= x <= rest[k].1;
                assert(all[k] == rest[k]);
            }
        } else {
            let c = cuts[n - 1];
            assert(x < c.1);
            if c.0 <= x {
                assert(lies_in(cuts, x));
            } else if c.0 - s < 1_000_000 {
                assert(too_short(s, c.0 as int, x));
            } else {
                assert(all[rest.len() as int] == (s as i64, c.0));
                assert(lies_in(all, x));
            }
        }
    }
}

/// Nothing of a line is lost: every arc of it is cut out, kept, or in a gap too
/// short to draw.
pub proof fn every_arc_is_cut_or_kept(cuts: Seq<Part>, total: int, x: int)
    requires
        cuts_fit(cuts),
        0 < total <= i64::MAX,
        0 <= x <= total,
    ensures
        is_cut(cuts, x) || lies_in(kept_spans(merged(cuts), total), x) || exists|lo: int, hi: int|
            #[trigger] too_short(lo, hi, x),
{
    let spans = merged(cuts);
    let n = spans.len() as int;
    let rest = left_before(spans, n);
    let all = kept_spans(spans, total);
    let s = cut_to(spans, n);
    lemma_cut_to(spans, n);
    if x < s {
        lemma_left_covers(spans, n, x);
        if lies_in(rest, x) {
            let k = choose|k: int| 0 <= k < rest.len() && (#[trigger] rest[k]).0 <= x <= rest[k].1;
            assert(all[k] == rest[k]);
        }
    } else if total - s < 1_000_000 {
        assert(too_short(s, total, x));
    } else {
        assert(all[rest.len() as int] == (s as i64, total as i64));
        assert(lies_in(all, x));
    }
    if lies_in(spans, x) {
        let t = choose|t: int| 0 <= t < spans.len() && (#[trigger] spans[t]).0 <= x <= spans[t].1;
        lemma_merged_is_cut(cuts, t, x);
    }
}

/// Every stretch kept that has two places is a piece of the line, and a line
/// nothing is cut out of is left whole.
pub proof fn every_stretch_kept_is_a_piece(pts: Seq<Place>, arc: Seq<i64>, cuts: Seq<Part>, k: int)
    requires
        measured(pts, arc),
        pts.len() >= 2,
        arc[arc.len() - 1] > 0,
    ensures
        cuts.len() == 0 ==> trimmed(pts, arc, cuts) == seq![pts],
        ({
            let spans = kept_spans(merged(cuts), arc[arc.len() - 1] as int);
            let piece = slice(pts, arc, spans[k].0 as int, spans[k].1 as int);
            &&& cuts.len() > 0 && 0 <= k < spans.len() && piece.len() >= 2 ==> trimmed(pts, arc, cuts).contains(piece)
        }),
        ({
            let spans = kept_spans(merged(cuts), arc[arc.len() - 1] as int);
            cuts.len() > 0 && 0 <= k < trimmed(pts, arc, cuts).len() ==> exists|j: int|
                {
                    &&& 0 <= j < spans.len()
                    &&& trimmed(pts, arc, cuts)[k] == slice(pts, arc, (#[trigger] spans[j]).0 as int, spans[j].1 as int)
                    &&& trimmed(pts, arc, cuts)[k].len() >= 2
                }
        }),
{
    let spans = kept_spans(merged(cuts), arc[arc.len() - 1] as int);
    lemma_pieces(pts, arc, spans, spans.len() as int, k);
}

proof fn lemma_pieces(pts: Seq<Place>, arc: Seq<i64>, spans: Seq<(i64, i64)>, n: int, k: int)
    requires
        0 <= n <= spans.len(),
    ensures
        ({
            let piece = slice(pts, arc, spans[k].0 as int, spans[k].1 as int);
            0 <= k < n && piece.len() >= 2 ==> pieces(pts, arc, spans, n).contains(piece)
        }),
        0 <= k < pieces(pts, arc, spans, n).len() ==> exists|j: int|
            0 <= j < n && pieces(pts, arc, spans, n)[k] == slice(
                pts,
                arc,
                (#[trigger] spans[j]).0 as int,
                spans[j].1 as int,
            ) && pieces(pts, arc, spans, n)[k].len() >= 2,
    decreases n,
{
    if n > 0 {
        lemma_pieces(pts, arc, spans, n - 1, k);
        let rest = pieces(pts, arc, spans, n - 1);
        let all = pieces(pts, arc, spans, n);
        let last = slice(pts, arc, spans[n - 1].0 as int, spans[n - 1].1 as int);
        if last.len() >= 2 {
            assert(all[rest.len() as int] == last);
        }
        let piece = slice(pts, arc, spans[k].0 as int, spans[k].1 as int);
        if 0 <= k < n - 1 && piece.len() >= 2 {
            let at = choose|at: int| 0 <= at < rest.len() && rest[at] == piece;
            assert(all[at] == piece);
        }
        if 0 <= k < all.len() {
            if k < rest.len() {
                assert(all[k] == rest[k]);
            } else {
                assert(all[k] == slice(pts, arc, spans[n - 1].0 as int, spans[n - 1].1 as int));
            }
        }
    }
}

// ---------------------------------------------------------------------------
// Places along a line.
// ---------------------------------------------------------------------------

proof fn lemma_stretch_at(arc: Seq<i64>, s: int, n: int, i: int)
    requires
        0 <= i < n <= arc.len(),
        arc[i] <= s,
        forall|j: int| i < j < n ==> s < #[trigger] arc[j],
    ensures
        stretch_at(arc, s, n) == i,
    decreases n,
{
    if n > 1 && i < n - 1 {
        assert(s < arc[n - 1]);
        lemma_stretch_at(arc, s, n - 1, i);
    }
}

/// Between two vertices a place stands in proportion to the arc from the one to
/// the other; at a vertex it is the vertex; past the last it is the last.
pub proof fn a_place_stands_in_proportion(pts: Seq<Place>, arc: Seq<i64>, s: int, i: int)
    requires
        measured(pts, arc),
        0 <= i < pts.len(),
        arc[i] <= s,
        i + 1 < pts.len() ==> s < arc[i + 1],
    ensures
        ({
            let p = place_at(pts, arc, s);
            &&& i + 1 == pts.len() ==> p == pts[i]
            &&& s == arc[i] ==> p == pts[i]
            &&& i + 1 < pts.len() ==> {
                let len = arc[i + 1] - arc[i];
                &&& -len < (p.lon - pts[i].lon) * len - (pts[i + 1].lon - pts[i].lon) * (s - arc[i]) < len
                &&& -len < (p.lat - pts[i].lat) * len - (pts[i + 1].lat - pts[i].lat) * (s - arc[i]) < len
            }
        }),
{
    let n = arc.len() as int;
    assert forall|j: int| i < j < n implies s < #[trigger] arc[j] by {
        if j > i + 1 {
            assert(arc[i + 1] <= arc[j]);
        }
    }
    lemma_stretch_at(arc, s, n, i);
    if i + 1 < pts.len() {
        let len = arc[i + 1] - arc[i];
        let t = s - arc[i];
        let (a, b) = (pts[i], pts[i + 1]);
        a_part_of_the_way_is_in_proportion(a.lon as int, b.lon as int, t, len);
        a_part_of_the_way_is_in_proportion(a.lat as int, b.lat as int, t, len);
        crate::arith::lemma_part_way(a.lon as int, b.lon as int, t, len);
        crate::arith::lemma_part_way(a.lat as int, b.lat as int, t, len);
    }
}

proof fn lemma_without_repeats(s: Seq<Place>, n: int)
    requires
        0 <= n <= s.len(),
    ensures
        n > 0 ==> without_repeats(s, n).len() > 0 && without_repeats(s, n)[0] == s[0] && without_repeats(s, n).last()
            == s[n - 1],
        forall|i: int| 0 <= i < n ==> without_repeats(s, n).contains(#[trigger] s[i]),
        forall|k: int| 0 <= k < without_repeats(s, n).len() ==> s.contains(#[trigger] without_repeats(s, n)[k]),
        forall|k: int|
            0 <= k < without_repeats(s, n).len() - 1 ==> (#[trigger] without_repeats(s, n)[k]) != without_repeats(s, n)[k + 1],
    decreases n,
{
    if n > 0 {
        lemma_without_repeats(s, n - 1);
        let rest = without_repeats(s, n - 1);
        let all = without_repeats(s, n);
        if rest.len() > 0 && rest.last() == s[n - 1] {
            assert(rest[rest.len() - 1] == s[n - 1]);
        } else {
            assert(all[rest.len() as int] == s[n - 1]);
        }
        assert forall|i: int| 0 <= i < n implies all.contains(#[trigger] s[i]) by {
            if i < n - 1 {
                assert(rest.contains(s[i]));
                let k = choose|k: int| 0 <= k < rest.len() && rest[k] == s[i];
                assert(all[k] == s[i]);
            }
        }
        assert forall|k: int| 0 <= k < all.len() implies s.contains(#[trigger] all[k]) by {
            if k < rest.len() {
                assert(all[k] == rest[k]);
            } else {
                assert(s[n - 1] == all[k]);
            }
        }
        assert forall|k: int| 0 <= k < all.len() - 1 implies (#[trigger] all[k]) != all[k + 1] by {
            if k + 1 < rest.len() {
                assert(rest[k] != rest[k + 1]);
            }
        }
    }
}

proof fn lemma_inner(pts: Seq<Place>, arc: Seq<i64>, a: int, b: int, n: int)
    requires
        0 <= n <= pts.len() == arc.len(),
    ensures
        forall|i: int| 0 <= i < n && a < #[trigger] arc[i] < b ==> inner_vertices(pts, arc, a, b, n).contains(pts[i]),
        forall|k: int|
            0 <= k < inner_vertices(pts, arc, a, b, n).len() ==> exists|i: int|
                0 <= i < n && a < #[trigger] arc[i] < b && pts[i] == #[trigger] inner_vertices(pts, arc, a, b, n)[k],
    decreases n,
{
    if n > 0 {
        lemma_inner(pts, arc, a, b, n - 1);
        let rest = inner_vertices(pts, arc, a, b, n - 1);
        let all = inner_vertices(pts, arc, a, b, n);
        if a < arc[n - 1] < b {
            assert(all[rest.len() as int] == pts[n - 1]);
        }
        assert forall|i: int| 0 <= i < n && a < #[trigger] arc[i] < b implies all.contains(pts[i]) by {
            if i < n - 1 {
                assert(rest.contains(pts[i]));
                let k = choose|k: int| 0 <= k < rest.len() && rest[k] == pts[i];
                assert(all[k] == pts[i]);
            }
        }
        assert forall|k: int| 0 <= k < all.len() implies exists|i: int|
            0 <= i < n && a < #[trigger] arc[i] < b && pts[i] == #[trigger] all[k] by {
            if k < rest.len() {
                assert(all[k] == rest[k]);
            } else {
                assert(a < arc[n - 1] < b);
            }
        }
    }
}

/// A piece of a line runs from the place its stretch begins at to the place it
/// ends at, by way of every vertex between them and nothing else, without
/// repeating itself.
pub proof fn a_piece_runs_by_way_of_its_vertices(pts: Seq<Place>, arc: Seq<i64>, a: int, b: int, i: int, k: int)
    requires
        pts.len() == arc.len(),
    ensures
        ({
            let s = slice(pts, arc, a, b);
            &&& s.len() > 0
            &&& s[0] == place_at(pts, arc, a)
            &&& s.last() == place_at(pts, arc, b)
            &&& 0 <= i < pts.len() && a < arc[i] < b ==> s.contains(pts[i])
            &&& 0 <= k < s.len() ==> s[k] == place_at(pts, arc, a) || s[k] == place_at(pts, arc, b) || exists|j: int|
                0 <= j < pts.len() && a < #[trigger] arc[j] < b && pts[j] == s[k]
            &&& 0 <= k < s.len() - 1 ==> s[k] != s[k + 1]
        }),
{
    let inner = inner_vertices(pts, arc, a, b, pts.len() as int);
    let all = (seq![place_at(pts, arc, a)] + inner).push(place_at(pts, arc, b));
    lemma_without_repeats(all, all.len() as int);
    lemma_inner(pts, arc, a, b, pts.len() as int);
    let s = slice(pts, arc, a, b);
    assert(all[0] == place_at(pts, arc, a));
    assert(all[all.len() - 1] == place_at(pts, arc, b));
    if 0 <= i < pts.len() && a < arc[i] < b {
        let at = choose|at: int| 0 <= at < inner.len() && inner[at] == pts[i];
        assert(all[at + 1] == pts[i]);
        assert(s.contains(all[at + 1]));
    }
    if 0 <= k < s.len() {
        assert(all.contains(s[k]));
        let at = choose|at: int| 0 <= at < all.len() && all[at] == s[k];
        if 0 < at < all.len() - 1 {
            assert(inner[at - 1] == s[k]);
        }
    }
}

// ---------------------------------------------------------------------------
// Bands.
// ---------------------------------------------------------------------------

/// Every pair of a band is two vertices, the left one first, each with its own
/// place and height and the one normal.
pub proof fn every_pair_is_two_vertices(s: Seq<BandSection>, up: Normal, n: int, k: int)
    requires
        0 <= k < n <= s.len(),
    ensures
        band_xs(s, n).len() == 2 * n,
        band_ys(s, n).len() == 2 * n,
        band_zs(s, n).len() == 2 * n,
        band_normals(up, n).len() == 4 * n,
        band_xs(s, n)[2 * k] == s[k].left.x,
        band_ys(s, n)[2 * k] == s[k].left.y,
        band_zs(s, n)[2 * k] == s[k].left_z,
        band_xs(s, n)[2 * k + 1] == s[k].right.x,
        band_ys(s, n)[2 * k + 1] == s[k].right.y,
        band_zs(s, n)[2 * k + 1] == s[k].right_z,
        band_normals(up, n)[4 * k] == up.u,
        band_normals(up, n)[4 * k + 1] == up.v,
        band_normals(up, n)[4 * k + 2] == up.u,
        band_normals(up, n)[4 * k + 3] == up.v,
    decreases n,
{
    lemma_pairs(s, up, n - 1);
    if k < n - 1 {
        every_pair_is_two_vertices(s, up, n - 1, k);
    }
}

proof fn lemma_pairs(s: Seq<BandSection>, up: Normal, n: int)
    requires
        0 <= n <= s.len(),
    ensures
        band_xs(s, n).len() == 2 * n,
        band_ys(s, n).len() == 2 * n,
        band_zs(s, n).len() == 2 * n,
        band_normals(up, n).len() == 4 * n,
    decreases n,
{
    if n > 0 {
        lemma_pairs(s, up, n - 1);
    }
}

/// Between each pair and the next the band is closed by two triangles, that over
/// the two pairs' four vertices share the diagonal and turn the same way.
pub proof fn a_band_is_closed_between_its_pairs(base: int, n: int, k: int)
    requires
        0 <= base,
        0 <= k,
        k + 1 < n,
        base + 2 * n <= u32::MAX,
    ensures
        ({
            let t = band_triangles(base, n);
            let (l0, r0) = (base + 2 * k, base + 2 * k + 1);
            let (l1, r1) = (base + 2 * k + 2, base + 2 * k + 3);
            &&& t.len() == 6 * (n - 1)
            &&& t[6 * k] == l0 && t[6 * k + 1] == r0 && t[6 * k + 2] == r1
            &&& t[6 * k + 3] == l0 && t[6 * k + 4] == r1 && t[6 * k + 5] == l1
        }),
    decreases n,
{
    crate::synth::surface::a_band_has_two_triangles_a_section(base, n);
    crate::synth::surface::a_band_has_two_triangles_a_section(base, n - 1);
    if k + 1 < n - 1 {
        a_band_is_closed_between_its_pairs(base, n - 1, k);
    }
}

/// A band is anchored at the first vertex of the first line that has one.
pub proof fn a_band_is_anchored_at_its_first_vertex(lines: Seq<Vec<Place>>, n: int, k: int)
    requires
        0 <= n <= lines.len(),
        0 <= k,
        forall|j: int| 0 <= j < k && j < n ==> (#[trigger] lines[j])@.len() == 0,
        k < n ==> lines[k]@.len() > 0,
    ensures
        anchor_of(lines, n) == if k < n {
            Some(lines[k]@[0])
        } else {
            None
        },
    decreases n,
{
    if n > 0 {
        a_band_is_anchored_at_its_first_vertex(lines, n - 1, k);
        if n - 1 < k {
            assert(lines[n - 1]@.len() == 0);
        }
    }
}

/// A band keeps every class of its road, in order, and nothing else.
pub proof fn a_band_keeps_its_roads_classes(props: Seq<(String, Value)>, n: int, i: int)
    requires
        0 <= n <= props.len(),
    ensures
        0 <= i < n && props[i].0@ == "class"@ ==> {
            let k = class_data(props, i).len() as int;
            &&& k < class_data(props, n).len()
            &&& class_data(props, n)[k] == props[i].1@
        },
        (forall|j: int| 0 <= j < n ==> (#[trigger] props[j]).0@ != "class"@) ==> class_data(props, n).len() == 0,
        class_data(props, n).len() <= n,
    decreases n,
{
    if n > 0 {
        a_band_keeps_its_roads_classes(props, n - 1, i);
        assert((forall|j: int| 0 <= j < n ==> (#[trigger] props[j]).0@ != "class"@) ==> props[n - 1].0@ != "class"@);
    }
}

/// A band is drawn at the surface zoom and finer, over ground that has heights,
/// for a road that is neither a marking nor on a structure, as wide as its first
/// recorded width; and not otherwise.
pub proof fn a_band_is_drawn_for_roads_on_the_ground(z: u8, min_zoom: u8, has_elevation: bool, synth: Synth, props: Seq<(String, Value)>, i: int)
    ensures
        z < min_zoom || !has_elevation || synth is Nothing || (synth matches Synth::Road { deck } && deck) ==> band_due(
            z,
            min_zoom,
            has_elevation,
            synth,
            props,
        ) is None,
        0 <= i < props.len() && props[i].0@ == "class"@ && props[i].1@ == Datum::Text("marking"@) ==> band_due(
            z,
            min_zoom,
            has_elevation,
            synth,
            props,
        ) is None,
        z >= min_zoom && has_elevation && synth == (Synth::Road { deck: false }) && (forall|j: int|
            0 <= j < props.len() && (#[trigger] props[j]).0@ == "class"@ ==> props[j].1@ != Datum::Text("marking"@))
            ==> band_due(z, min_zoom, has_elevation, synth, props) == double_under(props, "width_m"@, 0),
{
    if 0 <= i < props.len() && props[i].0@ == "class"@ && props[i].1@ == Datum::Text("marking"@) {
        assert(crate::synth::surface::is_marking(props));
    }
}

} // verus!
