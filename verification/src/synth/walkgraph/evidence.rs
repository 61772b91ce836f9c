//! Reading the plan: which ends are one joint, and which stand on a band.
use vstd::prelude::*;
use crate::synth::walkgraph::{live, live_band, height_fits, Band, Standing, NO_HOST};

verus! {

/// How far past a band's own drawn edge an end still stands on it.
pub const ON_UM: u64 = 250_000;

/// Two band ends and how far apart they stand.
#[derive(Clone, Copy, Debug, PartialEq, Eq, Structural)]
pub struct EndPair {
    pub a: u32,
    pub b: u32,
    pub distance: u64,
}

/// A band as seen from an end: how far its axis lies, its drawn half width and
/// its seat at the nearest point, and how far its own ends stand.
#[derive(Clone, Copy, Debug, PartialEq, Eq, Structural)]
pub struct BandSeen {
    pub slot: u32,
    pub band: u32,
    pub distance: u64,
    pub half: u64,
    pub height: i64,
    pub to_a: u64,
    pub to_b: u64,
}

/// Whether two ends are one joint.
pub open spec fn coincides(p: EndPair, join: u64) -> bool {
    p.a != p.b && p.distance <= join
}

/// Whether a free end stands on another band, away from that band's own ends.
pub open spec fn stands_on(bands: Seq<Band>, s: BandSeen, join: u64) -> bool {
    &&& bands[s.slot as int / 2].corridor == NO_HOST
    &&& s.band != s.slot as int / 2
    &&& s.to_a > join
    &&& s.to_b > join
    &&& s.distance <= s.half + ON_UM
}

/// The joints among the first `n` pairs of ends.
pub open spec fn joints_of(pairs: Seq<EndPair>, join: u64, n: int) -> Seq<(u32, u32)>
    decreases n,
{
    if n <= 0 {
        Seq::empty()
    } else {
        let rest = joints_of(pairs, join, n - 1);
        let p = pairs[n - 1];
        if coincides(p, join) {
            rest.push((p.a, p.b))
        } else {
            rest
        }
    }
}

/// The bands that ends stand on among the first `n` sightings.
pub open spec fn standings_of(bands: Seq<Band>, seen: Seq<BandSeen>, join: u64, n: int) -> Seq<Standing>
    decreases n,
{
    if n <= 0 {
        Seq::empty()
    } else {
        let rest = standings_of(bands, seen, join, n - 1);
        let s = seen[n - 1];
        if stands_on(bands, s, join) {
            rest.push(Standing { slot: s.slot, band: s.band, height: s.height })
        } else {
            rest
        }
    }
}

/// The pairs of ends that are one joint, in the order they were measured.
pub fn joints(pairs: &[EndPair], join: u64) -> (out: Vec<(u32, u32)>)
    ensures
        out@ == joints_of(pairs@, join, pairs@.len() as int),
{
    let mut out: Vec<(u32, u32)> = Vec::new();
    let mut i: usize = 0;
    while i < pairs.len()
        invariant
            i <= pairs@.len(),
            out@ == joints_of(pairs@, join, i as int),
        decreases pairs@.len() - i,
    {
        let p: EndPair = pairs[i];
        if p.a != p.b && p.distance <= join {
            out.push((p.a, p.b));
        }
        i = i + 1;
    }
    out
}

/// The bands that free ends stand on, in the order they were seen.
pub fn standings(bands: &[Band], seen: &[BandSeen], join: u64) -> (out: Vec<Standing>)
    requires
        forall|k: int| 0 <= k < seen@.len() ==> (#[trigger] seen@[k]).slot / 2 < bands@.len(),
    ensures
        out@ == standings_of(bands@, seen@, join, seen@.len() as int),
{
    let mut out: Vec<Standing> = Vec::new();
    let mut i: usize = 0;
    while i < seen.len()
        invariant
            i <= seen@.len(),
            forall|k: int| 0 <= k < seen@.len() ==> (#[trigger] seen@[k]).slot / 2 < bands@.len(),
            out@ == standings_of(bands@, seen@, join, i as int),
        decreases seen@.len() - i,
    {
        let s: BandSeen = seen[i];
        assert(s == seen@[i as int]);
        let own: u32 = s.slot / 2;
        if bands[own as usize].corridor == NO_HOST && s.band != own && s.to_a > join && s.to_b > join
            && (s.distance <= ON_UM || s.distance - ON_UM <= s.half) {
            out.push(Standing { slot: s.slot, band: s.band, height: s.height });
        }
        i = i + 1;
    }
    out
}

/// Every pair read off ends that stand on the graph joins ends that do.
pub proof fn joints_stand_on_the_graph(bands: Seq<Band>, pairs: Seq<EndPair>, join: u64, n: int, k: int)
    requires
        0 <= n <= pairs.len(),
        forall|i: int| 0 <= i < n ==> live(bands, (#[trigger] pairs[i]).a as int) && live(bands, pairs[i].b as int),
        0 <= k < joints_of(pairs, join, n).len(),
    ensures
        live(bands, joints_of(pairs, join, n)[k].0 as int),
        live(bands, joints_of(pairs, join, n)[k].1 as int),
    decreases n,
{
    if n > 0 && k < joints_of(pairs, join, n - 1).len() {
        joints_stand_on_the_graph(bands, pairs, join, n - 1, k);
    }
}

/// No hosted band's end stands on another band, and none stands on its own.
pub proof fn only_free_ends_stand_on_a_band(bands: Seq<Band>, seen: Seq<BandSeen>, join: u64, n: int, k: int)
    requires
        0 <= n <= seen.len(),
        forall|i: int| 0 <= i < n ==> live(bands, (#[trigger] seen[i]).slot as int) && live_band(bands, seen[i].band as int)
            && height_fits(seen[i].height as int),
        0 <= k < standings_of(bands, seen, join, n).len(),
    ensures
        ({
            let s = standings_of(bands, seen, join, n)[k];
            &&& bands[s.slot as int / 2].corridor == NO_HOST
            &&& s.band != s.slot as int / 2
            &&& live(bands, s.slot as int)
            &&& live_band(bands, s.band as int)
            &&& height_fits(s.height as int)
        }),
    decreases n,
{
    if n > 0 && k < standings_of(bands, seen, join, n - 1).len() {
        only_free_ends_stand_on_a_band(bands, seen, join, n - 1, k);
    }
}

} // verus!
