//! What the census says of the bands, place by place.
use vstd::prelude::*;
use crate::arith::total;
use crate::synth::walkway::claims::{covered, Sides};
use crate::synth::walkway::strips::{reading_stops, side_spans, strip_at, StreetReading, StripPriors};
use crate::synth::walkway::{Surface, WalkSeg};
use crate::synth::walkway::census::{
    along_widths, claimed_extent, group_widths, kinds_of, ordered, ordering_keeps_every_value, overlaid, quantile,
    segment_counted, spread_of, street_counted, thousandths, varying_count, way_tally, AttachCensus, Group, WayTally,
};

verus! {

/// How far each stretch reaches into another is added up.
pub proof fn every_stretch_counts_as_far_as_it_reaches_in(
    start: u128,
    spans: Seq<(i64, i64)>,
    from: i64,
    to: i64,
    n: int,
    reach: Seq<int>,
)
    requires
        0 <= n <= spans.len() == reach.len(),
        start + spans.len() * 0x1_0000_0000_0000_0000 <= u128::MAX,
        forall|i: int|
            0 <= i < spans.len() ==> #[trigger] reach[i] == ({
                let lo = if spans[i].0 > from {
                    spans[i].0
                } else {
                    from
                };
                let hi = if spans[i].1 < to {
                    spans[i].1
                } else {
                    to
                };
                if lo < hi {
                    hi - lo
                } else {
                    0
                }
            }),
    ensures
        overlaid(start, spans, from, to, n) == start + total(reach.take(n)),
        0 <= total(reach.take(n)) <= n * 0x1_0000_0000_0000_0000,
    decreases n,
{
    if n > 0 {
        every_stretch_counts_as_far_as_it_reaches_in(start, spans, from, to, n - 1, reach);
        assert(reach.take(n).drop_last() =~= reach.take(n - 1));
        assert(reach.take(n).last() == reach[n - 1]);
    }
}

/// The arc between two stops of a side is built where a strip is drawn along it,
/// narrow where none is though the street or a claim owes one, and nothing
/// elsewhere.
pub proof fn an_arc_is_built_or_narrow_where_it_is_owed(
    c: AttachCensus,
    sides: Sides,
    s: StreetReading,
    run: int,
    side: int,
    i: int,
    p: StripPriors,
)
    requires
        ({
            let stops = reading_stops(sides, s, s.runs@[run], p);
            0 <= i < stops.len() - 1 && stops[i] <= stops[i + 1]
        }),
        c.built <= u128::MAX - 0x1_0000_0000_0000_0000,
        c.narrow <= u128::MAX - 0x1_0000_0000_0000_0000,
    ensures
        ({
            let stops = reading_stops(sides, s, s.runs@[run], p);
            let now = segment_counted(c, sides, s, run, side, i, p);
            let drawn = strip_at(sides, s, run, side, i, p) is Some;
            let owed = s.synth || covered(side_spans(sides, s.id, side as u8, p.corner as int), stops[i] + stops[i + 1]);
            &&& now.built - c.built == if drawn {
                stops[i + 1] - stops[i]
            } else {
                0
            }
            &&& now.narrow - c.narrow == if owed && !drawn {
                stops[i + 1] - stops[i]
            } else {
                0
            }
            &&& now.claimed == c.claimed && now.no_width == c.no_width && now.non_grade == c.non_grade
        }),
{
}

/// What is claimed along a street that draws no width is lost for that.
pub proof fn a_street_without_a_width_loses_its_claims(c: AttachCensus, sides: Sides, s: StreetReading, p: StripPriors)
    requires
        s.half is None,
        c.claimed + claimed_extent(sides, s, p) <= u128::MAX,
        c.no_width + claimed_extent(sides, s, p) <= u128::MAX,
    ensures
        ({
            let now = street_counted(c, sides, s, p);
            &&& now.claimed == c.claimed + claimed_extent(sides, s, p)
            &&& now.no_width == c.no_width + claimed_extent(sides, s, p)
            &&& now.built == c.built && now.narrow == c.narrow && now.non_grade == c.non_grade
        }),
{
}

/// A share in thousandths is the part of the whole, short of one thousandth.
pub proof fn a_share_is_the_part_of_the_whole(part: u128, whole: u128)
    requires
        0 < whole,
        part * 1000 <= u128::MAX,
        part <= whole,
    ensures
        thousandths(part, whole) * whole <= part * 1000,
        part * 1000 < (thousandths(part, whole) + 1) * whole,
        thousandths(part, whole) <= 1000,
{
    let t = (part * 1000) / (whole as int);
    let (p, w) = (part as int, whole as int);
    assert(t * w <= p * 1000 < (t + 1) * w && 0 <= t <= 1000) by (nonlinear_arith)
        requires
            t == (p * 1000) / w,
            0 < w,
            0 <= p <= w,
    ;
    assert(thousandths(part, whole) == t);
}

/// A quantile stands that many tenths of the way up the ordered values, and so
/// the spread of a population is its tenth, fifth and ninth, its least and its
/// most.
pub proof fn a_quantile_stands_so_many_tenths_up(v: Seq<u128>, tenths: int, i: int)
    requires
        0 < v.len() <= usize::MAX,
        0 <= tenths <= 10,
        10 * i <= (v.len() - 1) * tenths < 10 * (i + 1),
    ensures
        quantile(v, tenths) == ordered(v, v.len() as int)[i],
        ({
            let s = spread_of(v)->0;
            &&& spread_of(v) is Some && s.n == v.len()
            &&& tenths == 1 ==> s.p10 == ordered(v, v.len() as int)[i]
            &&& tenths == 5 ==> s.p50 == ordered(v, v.len() as int)[i]
            &&& tenths == 9 ==> s.p90 == ordered(v, v.len() as int)[i]
            &&& s.least == ordered(v, v.len() as int)[0]
            &&& s.most == ordered(v, v.len() as int)[v.len() - 1]
        }),
{
    let k = (v.len() - 1) * tenths;
    assert(k / 10 == i);
    assert((v.len() - 1) * 10 / 10 == v.len() - 1);
    assert((v.len() - 1) * 0 == 0);
}

/// The least of a spread is no larger than any value, and the most no smaller.
pub proof fn a_spread_bounds_every_value(v: Seq<u128>, i: int)
    requires
        0 <= i < v.len(),
    ensures
        spread_of(v) is Some,
        spread_of(v)->0.least <= v[i] <= spread_of(v)->0.most,
{
    ordering_keeps_every_value(v);
    let all = ordered(v, v.len() as int);
    v.to_multiset_ensures();
    all.to_multiset_ensures();
    assert(v.contains(v[i]));
    assert(v.to_multiset().count(v[i]) > 0);
    assert(all.contains(v[i]));
    let k = choose|k: int| 0 <= k < all.len() && all[k] == v[i];
    assert(all.len() == v.len());
    crate::synth::walkway::census::quantiles_climb(v, 0, 10, k);
}

/// Whether a band belongs to a group: a walkway along a street, a walkway no
/// street hosts, or a path.
pub open spec fn belongs(s: WalkSeg, g: Group) -> bool {
    match g {
        Group::Sidewalk => s.surface == Surface::Walkway && s.corridor != 0xffff_ffff,
        Group::Hostless => s.surface == Surface::Walkway && s.corridor == 0xffff_ffff,
        Group::Path => s.surface != Surface::Walkway,
    }
}

/// Twice the wider of a band's ends.
pub open spec fn full_width(s: WalkSeg) -> int {
    if s.reach_a < s.reach_b {
        2 * s.reach_b
    } else {
        2 * s.reach_a
    }
}

/// The widths of a group are those of its bands, each twice its wider end, in the
/// bands' order.
pub proof fn a_groups_widths_are_its_bands(bands: Seq<WalkSeg>, g: Group, n: int, i: int)
    requires
        0 <= n <= bands.len(),
    ensures
        0 <= i < n && belongs(bands[i], g) ==> group_widths(bands, g, n).contains(full_width(bands[i]) as u128),
        0 <= i < group_widths(bands, g, n).len() ==> exists|k: int|
            0 <= k < n && belongs(#[trigger] bands[k], g) && group_widths(bands, g, n)[i] == full_width(bands[k]),
    decreases n,
{
    if n > 0 {
        let rest = group_widths(bands, g, n - 1);
        let all = group_widths(bands, g, n);
        a_groups_widths_are_its_bands(bands, g, n - 1, i);
        let last = bands[n - 1];
        if belongs(last, g) {
            assert(all[rest.len() as int] == full_width(last));
        }
        if 0 <= i < n - 1 && belongs(bands[i], g) {
            let w = full_width(bands[i]) as u128;
            let k = choose|k: int| 0 <= k < rest.len() && rest[k] == w;
            assert(all[k] == w);
        }
        if 0 <= i < all.len() {
            if i < rest.len() {
                assert(all[i] == rest[i]);
            } else {
                assert(belongs(bands[n - 1], g));
            }
        }
    }
}

/// A way's lengths are the sums over its bands, paths apart from the rest, and its
/// bands are counted.
pub proof fn a_ways_lengths_are_those_of_its_bands(
    bands: Seq<WalkSeg>,
    sources: Seq<u64>,
    way: u64,
    n: int,
    walks: Seq<int>,
    paths: Seq<int>,
    ones: Seq<int>,
)
    requires
        0 <= n <= bands.len() == sources.len(),
        walks.len() == bands.len() && paths.len() == bands.len() && ones.len() == bands.len(),
        bands.len() <= u32::MAX,
        forall|i: int|
            0 <= i < bands.len() ==> #[trigger] walks[i] == if sources[i] == way && bands[i].surface != Surface::Path {
                bands[i].length as int
            } else {
                0
            },
        forall|i: int|
            0 <= i < bands.len() ==> #[trigger] paths[i] == if sources[i] == way && bands[i].surface == Surface::Path {
                bands[i].length as int
            } else {
                0
            },
        forall|i: int|
            0 <= i < bands.len() ==> #[trigger] ones[i] == if sources[i] == way {
                1int
            } else {
                0
            },
        forall|i: int| 0 <= i < bands.len() ==> 0 <= (#[trigger] bands[i]).length,
    ensures
        way_tally(bands, sources, way, n).walkway == total(walks.take(n)),
        way_tally(bands, sources, way, n).path == total(paths.take(n)),
        way_tally(bands, sources, way, n).bands == total(ones.take(n)),
        0 <= total(walks.take(n)) <= n * 0x1_0000_0000_0000_0000,
        0 <= total(paths.take(n)) <= n * 0x1_0000_0000_0000_0000,
        0 <= total(ones.take(n)) <= n,
    decreases n,
{
    if n > 0 {
        a_ways_lengths_are_those_of_its_bands(bands, sources, way, n - 1, walks, paths, ones);
        assert(walks.take(n).drop_last() =~= walks.take(n - 1));
        assert(paths.take(n).drop_last() =~= paths.take(n - 1));
        assert(ones.take(n).drop_last() =~= ones.take(n - 1));
        assert(walks.take(n).last() == walks[n - 1]);
        assert(paths.take(n).last() == paths[n - 1]);
        assert(ones.take(n).last() == ones[n - 1]);
        assert(0 <= bands[n - 1].length);
    } else {
        assert(walks.take(n).len() == 0 && paths.take(n).len() == 0 && ones.take(n).len() == 0);
    }
}

/// A way's widest is the widest of its bands' wider ends, and its narrowest the
/// narrowest of their narrower ones.
pub proof fn a_ways_widths_are_its_extremes(bands: Seq<WalkSeg>, sources: Seq<u64>, way: u64, n: int, i: int)
    requires
        0 <= i < n <= bands.len() == sources.len(),
        sources[i] == way,
    ensures
        way_tally(bands, sources, way, n).widest >= 2 * bands[i].reach_a,
        way_tally(bands, sources, way, n).widest >= 2 * bands[i].reach_b,
        way_tally(bands, sources, way, n).narrowest <= 2 * bands[i].reach_a,
        way_tally(bands, sources, way, n).narrowest <= 2 * bands[i].reach_b,
        exists|k: int|
            0 <= k < n && sources[k] == way && (way_tally(bands, sources, way, n).widest == 2 * (
            #[trigger] bands[k]).reach_a || way_tally(bands, sources, way, n).widest == 2 * bands[k].reach_b),
        exists|k: int|
            0 <= k < n && sources[k] == way && (way_tally(bands, sources, way, n).narrowest == 2 * (
            #[trigger] bands[k]).reach_a || way_tally(bands, sources, way, n).narrowest == 2 * bands[k].reach_b),
    decreases n,
{
    let now = way_tally(bands, sources, way, n);
    let was = way_tally(bands, sources, way, n - 1);
    if exists|j: int| 0 <= j < n - 1 && #[trigger] sources[j] == way {
        let j = choose|j: int| 0 <= j < n - 1 && #[trigger] sources[j] == way;
        a_ways_widths_are_its_extremes(
            bands,
            sources,
            way,
            n - 1,
            if i < n - 1 {
                i
            } else {
                j
            },
        );
    } else {
        lemma_no_band_no_tally(bands, sources, way, n - 1);
        assert(i == n - 1);
    }
    let last = bands[n - 1];
    if now.widest != was.widest {
        assert(now.widest == 2 * bands[n - 1].reach_a || now.widest == 2 * bands[n - 1].reach_b);
    }
    if now.narrowest != was.narrowest {
        assert(now.narrowest == 2 * bands[n - 1].reach_a || now.narrowest == 2 * bands[n - 1].reach_b);
    }
}

proof fn lemma_no_band_no_tally(bands: Seq<WalkSeg>, sources: Seq<u64>, way: u64, n: int)
    requires
        0 <= n <= bands.len() == sources.len(),
        forall|j: int| 0 <= j < n ==> #[trigger] sources[j] != way,
    ensures
        way_tally(bands, sources, way, n).widest == 0,
        way_tally(bands, sources, way, n).narrowest == u128::MAX,
    decreases n,
{
    if n > 0 {
        let w = sources[n - 1];
        lemma_no_band_no_tally(bands, sources, way, n - 1);
    }
}

/// How far a way's width varies is read over every way of three bands or more.
pub proof fn every_long_way_is_read_along(t: Seq<WayTally>, n: int, i: int)
    requires
        0 <= n <= t.len(),
    ensures
        0 <= i < n && t[i].bands >= 3 && t[i].narrowest <= t[i].widest ==> along_widths(t, n).contains(
            (t[i].widest - t[i].narrowest) as u128,
        ),
        0 <= i < along_widths(t, n).len() ==> exists|k: int|
            0 <= k < n && (#[trigger] t[k]).bands >= 3 && along_widths(t, n)[i] == if t[k].narrowest <= t[k].widest {
                t[k].widest - t[k].narrowest
            } else {
                0
            },
    decreases n,
{
    if n > 0 {
        let rest = along_widths(t, n - 1);
        let all = along_widths(t, n);
        every_long_way_is_read_along(t, n - 1, i);
        if t[n - 1].bands >= 3 && t[n - 1].narrowest <= t[n - 1].widest {
            assert(all[rest.len() as int] == t[n - 1].widest - t[n - 1].narrowest);
        }
        if 0 <= i < n - 1 && t[i].bands >= 3 && t[i].narrowest <= t[i].widest {
            let w = (t[i].widest - t[i].narrowest) as u128;
            let k = choose|k: int| 0 <= k < rest.len() && rest[k] == w;
            assert(all[k] == w);
        }
        if 0 <= i < all.len() {
            if i < rest.len() {
                assert(all[i] == rest[i]);
            } else {
                assert(t[n - 1].bands >= 3);
            }
        }
    }
}

/// A way varies where its width varies by more than five centimetres.
pub proof fn every_way_past_five_centimetres_varies(v: Seq<u128>, n: int, ones: Seq<int>)
    requires
        0 <= n <= v.len() == ones.len(),
        forall|i: int|
            0 <= i < v.len() ==> #[trigger] ones[i] == if v[i] > 50_000 {
                1int
            } else {
                0
            },
    ensures
        varying_count(v, n) == total(ones.take(n)),
    decreases n,
{
    if n > 0 {
        every_way_past_five_centimetres_varies(v, n - 1, ones);
        assert(ones.take(n).drop_last() =~= ones.take(n - 1));
        assert(ones.take(n).last() == ones[n - 1]);
    } else {
        assert(ones.take(n).len() == 0);
    }
}

/// The kinds add up every way's lengths, and those ways are mixed that are drawn
/// as both kinds for more than a metre each.
pub proof fn the_kinds_add_up_the_ways(
    t: Seq<WayTally>,
    n: int,
    walks: Seq<int>,
    paths: Seq<int>,
    ones: Seq<int>,
    both: Seq<int>,
)
    requires
        0 <= n <= t.len() <= u32::MAX,
        walks.len() == t.len() && paths.len() == t.len() && ones.len() == t.len() && both.len() == t.len(),
        forall|i: int| 0 <= i < t.len() ==> #[trigger] walks[i] == t[i].walkway <= 0x1_0000_0000_0000_0000_0000,
        forall|i: int| 0 <= i < t.len() ==> #[trigger] paths[i] == t[i].path <= 0x1_0000_0000_0000_0000_0000,
        forall|i: int|
            0 <= i < t.len() ==> #[trigger] ones[i] == if t[i].walkway > 1_000_000 && t[i].path > 1_000_000 {
                1int
            } else {
                0
            },
        forall|i: int|
            0 <= i < t.len() ==> #[trigger] both[i] == if t[i].walkway > 1_000_000 && t[i].path > 1_000_000 {
                t[i].walkway + t[i].path
            } else {
                0
            },
    ensures
        kinds_of(t, n).walkway == total(walks.take(n)),
        kinds_of(t, n).path == total(paths.take(n)),
        kinds_of(t, n).mixed == total(ones.take(n)),
        kinds_of(t, n).mixed_length == total(both.take(n)),
        0 <= total(walks.take(n)) <= n * 0x1_0000_0000_0000_0000_0000,
        0 <= total(paths.take(n)) <= n * 0x1_0000_0000_0000_0000_0000,
        0 <= total(ones.take(n)) <= n,
        0 <= total(both.take(n)) <= n * 0x2_0000_0000_0000_0000_0000,
    decreases n,
{
    if n > 0 {
        the_kinds_add_up_the_ways(t, n - 1, walks, paths, ones, both);
        assert(walks.take(n).drop_last() =~= walks.take(n - 1));
        assert(paths.take(n).drop_last() =~= paths.take(n - 1));
        assert(ones.take(n).drop_last() =~= ones.take(n - 1));
        assert(both.take(n).drop_last() =~= both.take(n - 1));
        assert(walks.take(n).last() == walks[n - 1]);
        assert(paths.take(n).last() == paths[n - 1]);
        assert(ones.take(n).last() == ones[n - 1]);
        assert(both.take(n).last() == both[n - 1]);
    } else {
        assert(walks.take(n).len() == 0 && paths.take(n).len() == 0 && ones.take(n).len() == 0 && both.take(n).len()
            == 0);
    }
}

} // verus!
