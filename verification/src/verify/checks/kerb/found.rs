//! What a chain of kerb stations is found to hold, station by station.
use vstd::prelude::*;
use crate::arith::total;
use crate::verify::{Note, Offender, Scores};
use crate::verify::checks::kerb::{
    chain_counted, chain_gaps_scored, chains_counted, chains_gaps_scored, chains_wander_scored, first_served,
    gaps_scored, repeated, rotated, run_end, run_scored, runs_counted, state_end, station_of, stations_of, variation,
    wander_scored, Census, State, Station, StationChain, StationReading,
};
use crate::verify::findings::{above, gathered, Finding};
use crate::verify::scene::RoadMesh;

verus! {

/// A reading is a kerb station where its tile owns it, it is off the tile's edge,
/// a road rim is near it and no building stands in the way; it is served where a
/// walk or a path, or the rim of one, is near its probe. Only a served station
/// has a width.
pub proof fn a_reading_is_the_station_it_sees(roads: Seq<RoadMesh>, r: StationReading)
    ensures
        ({
            let s = station_of(roads, r);
            let kerb = r.owned && !r.on_tile_edge && !r.built && exists|k: int|
                0 <= k < roads.len() && (#[trigger] roads[k]).level == 0 && roads[k].class@ == "road_rim"@
                    && r.near_kerb@[k];
            let served = exists|k: int|
                0 <= k < roads.len() && (#[trigger] roads[k]).level == 0 && r.near_probe@[k] && (roads[k].class@
                    == "walk_surface"@ || roads[k].class@ == "walk_rim"@ || roads[k].class@ == "path_surface"@
                    || roads[k].class@ == "path_rim"@);
            &&& s.place == r.place
            &&& !kerb ==> s.state == State::Unknown && s.width is None
            &&& kerb && served ==> s.state == State::Served && s.width == r.width
            &&& kerb && !served ==> s.state == State::Bare && s.width is None
        }),
{
}

/// Whether a station's run of one state is from `a` up to `b`.
pub open spec fn is_run(t: Seq<Station>, a: int, b: int, i: int) -> bool {
    &&& 0 <= a <= i < b <= t.len()
    &&& forall|j: int| a <= j < b ==> (#[trigger] t[j]).state == t[i].state
    &&& a > 0 ==> t[a - 1].state != t[i].state
    &&& b < t.len() ==> t[b].state != t[i].state
}

/// Where each station's run of one state begins and ends, as far as it goes.
pub open spec fn runs_of_state(t: Seq<Station>, from: Seq<int>, to: Seq<int>) -> bool {
    &&& from.len() == t.len()
    &&& to.len() == t.len()
    &&& forall|i: int| 0 <= i < t.len() ==> #[trigger] is_run(t, from[i], to[i], i)
}

/// Whether a stretch of a chain has a served station on either side; a closed
/// chain goes on round its seam.
pub open spec fn between_pavements(t: Seq<Station>, closed: bool, a: int, b: int) -> bool {
    &&& if a > 0 {
        t[a - 1].state == State::Served
    } else {
        closed && t[t.len() - 1].state == State::Served
    }
    &&& if b < t.len() {
        t[b].state == State::Served
    } else {
        closed && t[0].state == State::Served
    }
}

/// What is found at a station whose run is from `a` to `b`: nothing short where it
/// is served; where it is bare between two pavements the length of its run, a
/// metre a station, if that is at most twenty-five metres, and else nothing
/// short; and nothing at any other. A run past two metres offends once, at its
/// middle.
pub open spec fn gap_found(t: Seq<Station>, closed: bool, zoom: u8, a: int, b: int, i: int) -> Option<Finding> {
    match t[i].state {
        State::Unknown => None,
        State::Served => Some(Finding { sample: 0, offender: None }),
        State::Bare => if !between_pavements(t, closed, a, b) {
            None
        } else if b - a > 25 {
            Some(Finding { sample: 0, offender: None })
        } else {
            Some(
                Finding {
                    sample: 1_000_000 * (b - a),
                    offender: if i == b - 1 && b - a > 2 {
                        Some(
                            Offender {
                                place: t[(a + b) / 2].place,
                                zoom,
                                value: (1_000_000 * (b - a)) as i128,
                                note: Note::KerbGap { stations: (b - a) as u64 },
                            },
                        )
                    } else {
                        None
                    },
                },
            )
        },
    }
}

pub open spec fn gaps_found(
    t: Seq<Station>,
    closed: bool,
    zoom: u8,
    from: Seq<int>,
    to: Seq<int>,
    found: Seq<Option<Finding>>,
) -> bool {
    &&& runs_of_state(t, from, to)
    &&& found.len() == t.len()
    &&& forall|i: int| 0 <= i < t.len() ==> #[trigger] found[i] == gap_found(t, closed, zoom, from[i], to[i], i)
}

/// Every station of a chain is asked how long the gap it stands in is.
pub proof fn every_station_is_asked_for_its_gap(
    s: Scores,
    t: Seq<Station>,
    closed: bool,
    zoom: u8,
    from: Seq<int>,
    to: Seq<int>,
    found: Seq<Option<Finding>>,
)
    requires
        gaps_found(t, closed, zoom, from, to, found),
    ensures
        gaps_scored(s, t, closed, zoom, 0) == gathered(s, found, t.len() as int),
{
    if t.len() > 0 {
        assert(is_run(t, from[0], to[0], 0));
    }
    lemma_gaps_found(s, t, closed, zoom, from, to, found, 0);
}

proof fn lemma_gaps_found(
    s: Scores,
    t: Seq<Station>,
    closed: bool,
    zoom: u8,
    from: Seq<int>,
    to: Seq<int>,
    found: Seq<Option<Finding>>,
    k: int,
)
    requires
        0 <= k <= t.len(),
        gaps_found(t, closed, zoom, from, to, found),
        k < t.len() ==> from[k] == k,
    ensures
        gaps_scored(gathered(s, found, k), t, closed, zoom, k) == gathered(s, found, t.len() as int),
    decreases t.len() - k,
{
    if k < t.len() {
        let e = to[k];
        assert(is_run(t, from[k], to[k], k));
        lemma_ends_where_its_run_does(t, from, to, k, k);
        if e < t.len() {
            lemma_next_run_begins(t, from, to, k);
        }
        let st = t[k].state;
        let was = gathered(s, found, k);
        if st == State::Unknown {
            lemma_unknown_run(s, t, closed, zoom, from, to, found, k, e);
        } else if st == State::Served {
            lemma_level_run(s, t, closed, zoom, from, to, found, k, e, 0);
        } else if !between_pavements(t, closed, k, e) {
            lemma_unknown_run(s, t, closed, zoom, from, to, found, k, e);
        } else if e - k > 25 {
            lemma_level_run(s, t, closed, zoom, from, to, found, k, e, 0);
        } else {
            lemma_level_run(s, t, closed, zoom, from, to, found, k, e - 1, 1_000_000 * (e - k));
            lemma_same_run(t, from, to, k, e - 1);
            let last = found[e - 1];
        }
        lemma_gaps_found(s, t, closed, zoom, from, to, found, e);
    }
}

proof fn lemma_same_run(t: Seq<Station>, from: Seq<int>, to: Seq<int>, k: int, i: int)
    requires
        runs_of_state(t, from, to),
        0 <= k < t.len(),
        from[k] <= i < to[k],
    ensures
        from[i] == from[k],
        to[i] == to[k],
        t[i].state == t[k].state,
{
    assert(is_run(t, from[k], to[k], k));
    assert(is_run(t, from[i], to[i], i));
    assert(t[i].state == t[k].state);
    let (a, b, c, d) = (from[i], to[i], from[k], to[k]);
    if a < c {
        assert(t[c - 1].state == t[i].state);
    }
    if c < a {
        assert(t[a - 1].state == t[k].state);
    }
    if b < d {
        assert(t[b].state == t[k].state);
    }
    if d < b {
        assert(t[d].state == t[i].state);
    }
}

proof fn lemma_next_run_begins(t: Seq<Station>, from: Seq<int>, to: Seq<int>, k: int)
    requires
        runs_of_state(t, from, to),
        0 <= k < t.len(),
        to[k] < t.len(),
    ensures
        from[to[k]] == to[k],
{
    let e = to[k];
    let a = from[e];
    assert(is_run(t, from[k], to[k], k));
    assert(is_run(t, from[e], to[e], e));
    if a < e {
        assert(t[e - 1].state == t[e].state);
        lemma_same_run(t, from, to, k, e - 1);
    }
}

proof fn lemma_ends_where_its_run_does(t: Seq<Station>, from: Seq<int>, to: Seq<int>, k: int, i: int)
    requires
        runs_of_state(t, from, to),
        0 <= k < t.len(),
        from[k] <= i <= to[k],
    ensures
        state_end(t, i, t[k].state) == to[k],
    decreases to[k] - i,
{
    assert(is_run(t, from[k], to[k], k));
    if i < to[k] {
        assert(t[i].state == t[k].state);
        lemma_ends_where_its_run_does(t, from, to, k, i + 1);
    }
}

proof fn lemma_unknown_run(
    s: Scores,
    t: Seq<Station>,
    closed: bool,
    zoom: u8,
    from: Seq<int>,
    to: Seq<int>,
    found: Seq<Option<Finding>>,
    k: int,
    j: int,
)
    requires
        gaps_found(t, closed, zoom, from, to, found),
        0 <= k < t.len(),
        from[k] == k,
        k <= j <= to[k],
        t[k].state == State::Unknown || (t[k].state == State::Bare && !between_pavements(t, closed, k, to[k])),
    ensures
        gathered(s, found, j) == gathered(s, found, k),
    decreases j - k,
{
    assert(is_run(t, from[k], to[k], k));
    if j > k {
        lemma_unknown_run(s, t, closed, zoom, from, to, found, k, j - 1);
        lemma_same_run(t, from, to, k, j - 1);
        let f = found[j - 1];
    }
}

proof fn lemma_level_run(
    s: Scores,
    t: Seq<Station>,
    closed: bool,
    zoom: u8,
    from: Seq<int>,
    to: Seq<int>,
    found: Seq<Option<Finding>>,
    k: int,
    j: int,
    v: int,
)
    requires
        gaps_found(t, closed, zoom, from, to, found),
        0 <= k < t.len(),
        from[k] == k,
        k <= j <= to[k],
        t[k].state == State::Served && v == 0 || t[k].state == State::Bare && between_pavements(t, closed, k, to[k])
            && (to[k] - k > 25 && v == 0 || to[k] - k <= 25 && v == 1_000_000 * (to[k] - k) && j < to[k]),
    ensures
        gathered(s, found, j) == repeated(gathered(s, found, k), v, j - k),
    decreases j - k,
{
    assert(is_run(t, from[k], to[k], k));
    if j > k {
        lemma_level_run(s, t, closed, zoom, from, to, found, k, j - 1, v);
        lemma_same_run(t, from, to, k, j - 1);
        let f = found[j - 1];
    }
}

/// A chain that is open is read as it is. One that is closed is read from its
/// first served station on and round; with none served there is nothing to be
/// short of, and the whole chain is left out.
pub proof fn a_closed_chain_is_read_from_its_first_pavement(
    s: Scores,
    c: Census,
    st: Seq<Station>,
    zoom: u8,
    start: int,
    t: Seq<Station>,
)
    requires
        0 <= start <= st.len(),
        forall|i: int| 0 <= i < start ==> (#[trigger] st[i]).state != State::Served,
        start < st.len() ==> st[start].state == State::Served,
        t.len() == st.len(),
        forall|i: int|
            0 <= i < st.len() ==> #[trigger] t[i] == if start + i < st.len() {
                st[start + i]
            } else {
                st[start + i - st.len()]
            },
        c.excluded + st.len() <= u64::MAX,
    ensures
        chain_gaps_scored(s, st, false, zoom) == gaps_scored(s, st, false, zoom, 0),
        chain_counted(c, st, false) == runs_counted(c, st, false, 0),
        start < st.len() ==> chain_gaps_scored(s, st, true, zoom) == gaps_scored(s, t, true, zoom, 0),
        start < st.len() ==> chain_counted(c, st, true) == runs_counted(c, t, true, 0),
        start == st.len() ==> chain_gaps_scored(s, st, true, zoom) == s,
        start == st.len() ==> chain_counted(c, st, true) == (Census {
            excluded: (c.excluded + st.len()) as u64,
            ..c
        }),
{
    lemma_first_pavement(st, 0, start);
    if start < st.len() {
        assert(rotated(st, start) =~= t);
    }
}

proof fn lemma_first_pavement(st: Seq<Station>, k: int, start: int)
    requires
        0 <= k <= start <= st.len(),
        forall|i: int| 0 <= i < start ==> (#[trigger] st[i]).state != State::Served,
        start < st.len() ==> st[start].state == State::Served,
    ensures
        first_served(st, k) == if start < st.len() {
            Some(start)
        } else {
            None
        },
    decreases start - k,
{
    if k < start {
        assert(st[k].state != State::Served);
        lemma_first_pavement(st, k + 1, start);
    }
}

/// Every bare run of three to twenty-five metres between two pavements is one
/// gap.
pub proof fn every_gap_is_counted_once(
    c: Census,
    t: Seq<Station>,
    closed: bool,
    from: Seq<int>,
    to: Seq<int>,
    ones: Seq<int>,
)
    requires
        runs_of_state(t, from, to),
        ones.len() == t.len(),
        forall|i: int|
            0 <= i < t.len() ==> #[trigger] ones[i] == if t[i].state == State::Bare && i == to[i] - 1 && 3 <= to[i]
                - from[i] <= 25 && between_pavements(t, closed, from[i], to[i]) {
                1int
            } else {
                0
            },
        c.gaps + t.len() <= u64::MAX,
    ensures
        runs_counted(c, t, closed, 0).gaps == c.gaps + total(ones),
{
    assert(ones.take(0) =~= Seq::<int>::empty());
    assert(total(ones.take(0)) == 0);
    if t.len() > 0 {
        assert(is_run(t, from[0], to[0], 0));
    }
    lemma_gaps_counted(c, c, t, closed, from, to, ones, 0);
    assert(ones.take(t.len() as int) =~= ones);
}

proof fn lemma_gaps_counted(
    c: Census,
    d: Census,
    t: Seq<Station>,
    closed: bool,
    from: Seq<int>,
    to: Seq<int>,
    ones: Seq<int>,
    k: int,
)
    requires
        runs_of_state(t, from, to),
        ones.len() == t.len(),
        forall|i: int|
            0 <= i < t.len() ==> #[trigger] ones[i] == if t[i].state == State::Bare && i == to[i] - 1 && 3 <= to[i]
                - from[i] <= 25 && between_pavements(t, closed, from[i], to[i]) {
                1int
            } else {
                0
            },
        c.gaps + t.len() <= u64::MAX,
        0 <= k <= t.len(),
        k < t.len() ==> from[k] == k,
        d.gaps == c.gaps + total(ones.take(k)),
        0 <= total(ones.take(k)) <= k,
    ensures
        runs_counted(d, t, closed, k).gaps == c.gaps + total(ones.take(t.len() as int)),
    decreases t.len() - k,
{
    if k < t.len() {
        let e = to[k];
        assert(is_run(t, from[k], to[k], k));
        lemma_ends_where_its_run_does(t, from, to, k, k);
        if e < t.len() {
            lemma_next_run_begins(t, from, to, k);
        }
        lemma_gaps_of_run(t, closed, from, to, ones, k, e - 1);
        lemma_same_run(t, from, to, k, e - 1);
        let one = ones[e - 1];
        assert(ones.take(e).drop_last() =~= ones.take(e - 1));
        assert(ones.take(e).last() == one);
        let next = crate::verify::checks::kerb::run_counted(d, t, closed, k, e);
        assert(next.gaps == c.gaps + total(ones.take(e)));
        lemma_gaps_counted(c, next, t, closed, from, to, ones, e);
    }
}

proof fn lemma_gaps_of_run(
    t: Seq<Station>,
    closed: bool,
    from: Seq<int>,
    to: Seq<int>,
    ones: Seq<int>,
    k: int,
    j: int,
)
    requires
        runs_of_state(t, from, to),
        ones.len() == t.len(),
        forall|i: int|
            0 <= i < t.len() ==> #[trigger] ones[i] == if t[i].state == State::Bare && i == to[i] - 1 && 3 <= to[i]
                - from[i] <= 25 && between_pavements(t, closed, from[i], to[i]) {
                1int
            } else {
                0
            },
        0 <= k < t.len(),
        from[k] == k,
        k <= j < to[k],
    ensures
        total(ones.take(j)) == total(ones.take(k)),
    decreases j - k,
{
    assert(is_run(t, from[k], to[k], k));
    if j > k {
        lemma_gaps_of_run(t, closed, from, to, ones, k, j - 1);
        lemma_same_run(t, from, to, k, j - 1);
        let one = ones[j - 1];
        assert(ones.take(j).drop_last() =~= ones.take(j - 1));
        assert(ones.take(j).last() == one);
    }
}

/// How much the width changes from each station to the next, past two centimetres.
pub open spec fn changes_of(st: Seq<Station>, changes: Seq<int>) -> bool {
    &&& changes.len() == st.len()
    &&& forall|j: int|
        1 <= j < st.len() ==> #[trigger] changes[j] == {
            let d = st[j].width->0 - st[j - 1].width->0;
            let size = if d < 0 {
                -d
            } else {
                d
            };
            if size > 20_000 {
                size - 20_000
            } else {
                0
            }
        }
}

/// The variation between two stations is the sum of the changes between them.
pub proof fn the_variation_is_the_sum_of_the_changes(st: Seq<Station>, changes: Seq<int>, i: int, j: int)
    requires
        0 <= i <= j < st.len(),
        changes_of(st, changes),
    ensures
        variation(st, i, j) == total(changes.subrange(i + 1, j + 1)),
    decreases j - i,
{
    let part = changes.subrange(i + 1, j + 1);
    if j > i {
        the_variation_is_the_sum_of_the_changes(st, changes, i, j - 1);
        assert(part.drop_last() =~= changes.subrange(i + 1, j));
        assert(part.last() == changes[j]);
    } else {
        assert(part.len() == 0);
        assert(total(part) == 0);
    }
}

/// Whether a measured station's run of measured ones is from `a` up to `b`.
pub open spec fn is_width_run(st: Seq<Station>, a: int, b: int, i: int) -> bool {
    &&& 0 <= a <= i < b <= st.len()
    &&& forall|j: int| a <= j < b ==> (#[trigger] st[j]).width is Some
    &&& a > 0 ==> st[a - 1].width is None
    &&& b < st.len() ==> st[b].width is None
}

/// Where each measured station's run of measured stations begins and ends.
pub open spec fn runs_of_widths(st: Seq<Station>, from: Seq<int>, to: Seq<int>) -> bool {
    &&& from.len() == st.len()
    &&& to.len() == st.len()
    &&& forall|i: int|
        0 <= i < st.len() && st[i].width is Some ==> #[trigger] is_width_run(st, from[i], to[i], i)
}

/// What is found at a station of a run of three measured ones or more: how much
/// more the width changes over the next ten metres, as far as the run goes, than
/// it has changed at their end; past the limit above a quarter of a metre.
pub open spec fn wander_found(st: Seq<Station>, changes: Seq<int>, zoom: u8, a: int, b: int, i: int) -> Option<Finding> {
    if st[i].width is None || b - a < 3 {
        None
    } else {
        let j = if i + 10 < b - 1 {
            i + 10
        } else {
            b - 1
        };
        let net = st[j].width->0 - st[i].width->0;
        let all = total(changes.subrange(i + 1, j + 1));
        let over = all - if net < 0 {
            -net
        } else {
            net
        };
        let w = if over > 0 {
            over
        } else {
            0
        };
        above(
            w,
            250_000,
            Offender {
                place: st[i].place,
                zoom,
                value: w as i128,
                note: Note::WidthWander { stations: (j - i) as u64, here: st[i].width->0, there: st[j].width->0 },
            },
        )
    }
}

pub open spec fn wanders_found(
    st: Seq<Station>,
    changes: Seq<int>,
    zoom: u8,
    from: Seq<int>,
    to: Seq<int>,
    found: Seq<Option<Finding>>,
) -> bool {
    &&& changes_of(st, changes)
    &&& runs_of_widths(st, from, to)
    &&& found.len() == st.len()
    &&& forall|i: int| 0 <= i < st.len() ==> #[trigger] found[i] == wander_found(st, changes, zoom, from[i], to[i], i)
}

/// Every measured station is asked how far the edge wanders ahead of it.
pub proof fn every_measured_station_is_asked_for_its_wander(
    s: Scores,
    st: Seq<Station>,
    changes: Seq<int>,
    zoom: u8,
    from: Seq<int>,
    to: Seq<int>,
    found: Seq<Option<Finding>>,
)
    requires
        wanders_found(st, changes, zoom, from, to, found),
    ensures
        wander_scored(s, st, zoom, 0) == gathered(s, found, st.len() as int),
{
    lemma_wanders_found(s, st, changes, zoom, from, to, found, 0);
}

proof fn lemma_wanders_found(
    s: Scores,
    st: Seq<Station>,
    changes: Seq<int>,
    zoom: u8,
    from: Seq<int>,
    to: Seq<int>,
    found: Seq<Option<Finding>>,
    k: int,
)
    requires
        0 <= k <= st.len() + 1,
        wanders_found(st, changes, zoom, from, to, found),
        0 < k <= st.len() ==> st[k - 1].width is None,
    ensures
        k <= st.len() ==> wander_scored(gathered(s, found, k), st, zoom, k) == gathered(s, found, st.len() as int),
        k == st.len() + 1 ==> wander_scored(gathered(s, found, k - 1), st, zoom, k) == gathered(
            s,
            found,
            st.len() as int,
        ),
    decreases st.len() + 1 - k,
{
    if k < st.len() {
        if st[k].width is None {
            let f = found[k];
            assert(run_end(st, k) == k);
            lemma_wanders_found(s, st, changes, zoom, from, to, found, k + 1);
        } else {
            let a = from[k];
            let e = to[k];
            assert(is_width_run(st, a, e, k));
            if a < k {
                assert(st[k - 1].width is Some);
            }
            lemma_widths_end(st, from, to, k, k);
            lemma_wander_run(s, st, changes, zoom, from, to, found, k, e);
            if e < st.len() {
                let f = found[e];
            }
            lemma_wanders_found(s, st, changes, zoom, from, to, found, e + 1);
        }
    }
}

proof fn lemma_widths_end(st: Seq<Station>, from: Seq<int>, to: Seq<int>, k: int, i: int)
    requires
        runs_of_widths(st, from, to),
        0 <= k < st.len(),
        st[k].width is Some,
        from[k] <= i <= to[k],
    ensures
        run_end(st, i) == to[k],
    decreases to[k] - i,
{
    let e = to[k];
    assert(is_width_run(st, from[k], to[k], k));
    if i < e {
        assert(st[i].width is Some);
        lemma_widths_end(st, from, to, k, i + 1);
    }
}

proof fn lemma_same_widths(st: Seq<Station>, from: Seq<int>, to: Seq<int>, k: int, i: int)
    requires
        runs_of_widths(st, from, to),
        0 <= k < st.len(),
        st[k].width is Some,
        from[k] <= i < to[k],
    ensures
        st[i].width is Some,
        from[i] == from[k],
        to[i] == to[k],
{
    assert(is_width_run(st, from[k], to[k], k));
    assert(st[i].width is Some);
    assert(is_width_run(st, from[i], to[i], i));
    let (a, b, c, d) = (from[i], to[i], from[k], to[k]);
    if a < c {
        assert(st[c - 1].width is Some);
    }
    if c < a {
        assert(st[a - 1].width is Some);
    }
    if b < d {
        assert(st[b].width is Some);
    }
    if d < b {
        assert(st[d].width is Some);
    }
}

proof fn lemma_wander_run(
    s: Scores,
    st: Seq<Station>,
    changes: Seq<int>,
    zoom: u8,
    from: Seq<int>,
    to: Seq<int>,
    found: Seq<Option<Finding>>,
    k: int,
    j: int,
)
    requires
        wanders_found(st, changes, zoom, from, to, found),
        0 <= k < st.len(),
        st[k].width is Some,
        from[k] == k,
        k <= j <= to[k],
    ensures
        gathered(s, found, j) == if to[k] - k < 3 {
            gathered(s, found, k)
        } else {
            run_scored(gathered(s, found, k), st, zoom, k, j, to[k])
        },
    decreases j - k,
{
    assert(is_width_run(st, from[k], to[k], k));
    if j > k {
        lemma_wander_run(s, st, changes, zoom, from, to, found, k, j - 1);
        lemma_same_widths(st, from, to, k, j - 1);
        let i = j - 1;
        let f = found[i];
        let end = if i + 10 < to[k] - 1 {
            i + 10
        } else {
            to[k] - 1
        };
        the_variation_is_the_sum_of_the_changes(st, changes, i, end);
    }
}

/// Only the chains along at-grade road surfaces are read, each on its own.
pub proof fn every_chain_of_a_road_surface_is_read(
    s: Scores,
    w: Scores,
    c: Census,
    roads: Seq<RoadMesh>,
    chains: Seq<StationChain>,
    zoom: u8,
    n: int,
)
    requires
        0 < n <= chains.len(),
    ensures
        ({
            let chain = chains[n - 1];
            let read = roads[chain.road as int].level == 0 && roads[chain.road as int].class@ == "road_surface"@;
            let st = stations_of(roads, chain);
            &&& st.len() == chain.stations@.len()
            &&& forall|i: int|
                0 <= i < st.len() ==> #[trigger] st[i] == station_of(roads, chain.stations@[i])
            &&& chains_gaps_scored(s, roads, chains, zoom, n) == if read {
                chain_gaps_scored(chains_gaps_scored(s, roads, chains, zoom, n - 1), st, chain.closed, zoom)
            } else {
                chains_gaps_scored(s, roads, chains, zoom, n - 1)
            }
            &&& chains_wander_scored(w, roads, chains, zoom, n) == if read {
                wander_scored(chains_wander_scored(w, roads, chains, zoom, n - 1), st, zoom, 0)
            } else {
                chains_wander_scored(w, roads, chains, zoom, n - 1)
            }
            &&& chains_counted(c, roads, chains, n) == if read {
                chain_counted(chains_counted(c, roads, chains, n - 1), st, chain.closed)
            } else {
                chains_counted(c, roads, chains, n - 1)
            }
        }),
{
}

} // verus!
