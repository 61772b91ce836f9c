//! The pedestrian drape graph: the drawn walk network as one connected object.
//!
//! Each band has two ends, numbered `2 * band` and `2 * band + 1` (its slots).
//! Ends that coincide in plan, or that a mapped connector shared by two
//! features ties together, are one joint, and a joint has one height:
//!
//! - a joint where a hosted band stands is pinned to the hosted seats' mean;
//! - a joint a profiled street shares a connector with is pinned to the
//!   street;
//! - every other joint is free: it starts at its members' mean seat and is
//!   relaxed toward its neighbours.
//!
//! Every correction is bounded by [`REACH_UM`] of the joint's own seed; a pin
//! further away is declined whole and counted.
use vstd::prelude::*;
use std::collections::HashMap;
use crate::arith::{abs, clamp, distance, lemma_mean_bounds, lemma_quot_bounds, mean, mean_of, quot, quot_of};

pub mod census;
pub mod evidence;
pub mod order;
pub mod spreading;
pub mod standing;

verus! {

/// The corridor of a band no street hosts.
pub const NO_HOST: u32 = 0xffff_ffff;

/// The node of a slot that is off the graph.
pub const NO_NODE: u32 = 0xffff_ffff;

/// How far a joint's height may leave its seed, in micrometres.
pub const REACH_UM: i64 = 3_000_000;

/// Relaxation sweeps.
pub const SWEEPS: u32 = 32;

/// The ground mass that screens a free joint's correction, in billionths per
/// metre.
pub const GROUND_MASS: u64 = 500_000_000;

/// The shortest length an edge is weighted by, in micrometres.
pub const MIN_EDGE_UM: u64 = 500_000;

/// One over a length: billionths per metre, times micrometres.
pub const UNIT_WEIGHT: u64 = 1_000_000_000_000_000;

/// Disjoint sets of band ends. Every set is named by its least member.
pub struct UnionFind {
    parent: Vec<u32>,
}

/// The root reached from `i` by following parents down. `p[i] <= i` along the
/// way, so the walk ends.
spec fn root_of(p: Seq<u32>, i: int) -> int
    decreases i,
{
    if 0 <= i < p.len() && p[i] < i {
        root_of(p, p[i] as int)
    } else {
        i
    }
}

spec fn roots_of(p: Seq<u32>) -> Seq<int> {
    Seq::new(p.len(), |i: int| root_of(p, i))
}

/// The partition after merging the classes of `a` and `b`: the class with the
/// higher name takes the lower one's.
pub open spec fn merged(roots: Seq<int>, a: int, b: int) -> Seq<int> {
    let lo = if roots[a] < roots[b] { roots[a] } else { roots[b] };
    let hi = if roots[a] < roots[b] { roots[b] } else { roots[a] };
    Seq::new(roots.len(), |i: int| if roots[i] == hi { lo } else { roots[i] })
}

/// A partition named by least members: each element's name is a member of its
/// own class and no later than it.
pub open spec fn is_partition(roots: Seq<int>) -> bool {
    forall|i: int| 0 <= i < roots.len() ==> {
        &&& 0 <= #[trigger] roots[i] <= i
        &&& roots[roots[i]] == roots[i]
    }
}

proof fn lemma_root_of(p: Seq<u32>, i: int)
    requires
        0 <= i < p.len(),
        forall|k: int| 0 <= k < p.len() ==> #[trigger] p[k] <= k,
    ensures
        0 <= root_of(p, i) <= i,
        p[root_of(p, i)] == root_of(p, i),
        root_of(p, root_of(p, i)) == root_of(p, i),
        root_of(p, p[i] as int) == root_of(p, i),
    decreases i,
{
    if p[i] < i {
        lemma_root_of(p, p[i] as int);
    }
}

/// Pointing `i` at anything on its own path (or, for a root, at a lower root)
/// moves exactly the class of `i`.
proof fn lemma_repoint(p: Seq<u32>, i: int, to: int, k: int)
    requires
        0 <= to <= i < p.len(),
        p.len() <= u32::MAX,
        forall|j: int| 0 <= j < p.len() ==> #[trigger] p[j] <= j,
        0 <= k < p.len(),
        p[i] == i || (to < i && root_of(p, i) == root_of(p, to)),
    ensures
        root_of(p.update(i, to as u32), k) == (if root_of(p, k) == root_of(p, i) {
            if p[i] == i {
                root_of(p, to)
            } else {
                root_of(p, i)
            }
        } else {
            root_of(p, k)
        }),
    decreases k,
{
    let q = p.update(i, to as u32);
    lemma_root_of(p, k);
    lemma_root_of(p, i);
    lemma_root_of(p, to);
    if k == i {
        if to < i {
            lemma_repoint(p, i, to, to);
            assert(q[i] == to);
            if p[i] == i {
                assert(root_of(p, i) == i);
                assert(root_of(p, to) <= to);
            }
        }
    } else if p[k] < k {
        assert(q[k] == p[k]);
        lemma_repoint(p, i, to, p[k] as int);
    } else {
        assert(q[k] == p[k]);
        assert(root_of(p, k) == k);
    }
}

impl UnionFind {
    /// Parents never point upward.
    pub closed spec fn well_formed(&self) -> bool {
        &&& self.parent@.len() <= u32::MAX
        &&& forall|i: int| 0 <= i < self.parent@.len() ==> #[trigger] self.parent@[i] <= i
    }

    /// The name of every element's set.
    pub closed spec fn view(&self) -> Seq<int> {
        roots_of(self.parent@)
    }

    /// The named sets are a partition into classes, each named by its least
    /// member.
    pub proof fn sets_are_named_by_their_least_member(&self)
        requires
            self.well_formed(),
        ensures
            is_partition(self@),
            forall|i: int, j: int|
                0 <= i < self@.len() && 0 <= j < self@.len() && #[trigger] self@[i] == #[trigger] self@[j]
                    ==> self@[i] <= j,
    {
        assert forall|i: int| 0 <= i < self@.len() implies 0 <= #[trigger] self@[i] <= i && self@[self@[i]]
            == self@[i] by {
            lemma_root_of(self.parent@, i);
        }
    }

    /// `n` sets of one element each.
    pub fn new(n: usize) -> (out: UnionFind)
        requires
            n <= u32::MAX,
        ensures
            out.well_formed(),
            out@ == Seq::new(n as nat, |i: int| i),
    {
        let mut parent: Vec<u32> = Vec::new();
        let mut i: usize = 0;
        while i < n
            invariant
                i <= n <= u32::MAX,
                parent@.len() == i,
                forall|k: int| 0 <= k < i ==> #[trigger] parent@[k] == k,
            decreases n - i,
        {
            parent.push(i as u32);
            i = i + 1;
        }
        let out = UnionFind { parent };
        assert(out@ =~= Seq::new(n as nat, |i: int| i));
        out
    }

    /// The name of `i`'s set. Halves the path it walks, which changes no set.
    pub fn find(&mut self, i: u32) -> (root: u32)
        requires
            old(self).well_formed(),
            i < old(self)@.len(),
        ensures
            final(self).well_formed(),
            final(self)@ == old(self)@,
            root == old(self)@[i as int],
    {
        let ghost p0 = self.parent@;
        let mut at: u32 = i;
        proof {
            lemma_root_of(p0, i as int);
        }
        while self.parent[at as usize] != at
            invariant
                at < self.parent@.len(),
                self.parent@.len() == p0.len(),
                p0.len() <= u32::MAX,
                forall|k: int| 0 <= k < p0.len() ==> #[trigger] self.parent@[k] <= k,
                roots_of(self.parent@) == roots_of(p0),
                root_of(self.parent@, at as int) == root_of(p0, i as int),
            decreases at,
        {
            let ghost p = self.parent@;
            proof {
                lemma_root_of(p, at as int);
                lemma_root_of(p, p[at as int] as int);
            }
            let up: u32 = self.parent[self.parent[at as usize] as usize];
            self.parent.set(at as usize, up);
            proof {
                assert(self.parent@ == p.update(at as int, up));
                assert forall|k: int| 0 <= k < p.len() implies #[trigger] roots_of(self.parent@)[k] == roots_of(
                    p,
                )[k] by {
                    lemma_repoint(p, at as int, up as int, k);
                }
                assert(roots_of(self.parent@) =~= roots_of(p));
                lemma_repoint(p, at as int, up as int, up as int);
            }
            at = up;
        }
        proof {
            assert(root_of(self.parent@, at as int) == at);
        }
        at
    }

    /// Merges the sets of `a` and `b` under the lower of their two names.
    pub fn union(&mut self, a: u32, b: u32)
        requires
            old(self).well_formed(),
            a < old(self)@.len(),
            b < old(self)@.len(),
        ensures
            final(self).well_formed(),
            final(self)@ == merged(old(self)@, a as int, b as int),
    {
        let ghost before = self@;
        let ra: u32 = self.find(a);
        let rb: u32 = self.find(b);
        proof {
            lemma_root_of(self.parent@, a as int);
            lemma_root_of(self.parent@, b as int);
        }
        if ra != rb {
            let (lo, hi): (u32, u32) = if ra < rb { (ra, rb) } else { (rb, ra) };
            let ghost p = self.parent@;
            self.parent.set(hi as usize, lo);
            proof {
                assert(self.parent@ == p.update(hi as int, lo));
                assert forall|k: int| 0 <= k < p.len() implies #[trigger] self@[k] == merged(
                    before,
                    a as int,
                    b as int,
                )[k] by {
                    lemma_repoint(p, hi as int, lo as int, k);
                    lemma_root_of(p, lo as int);
                    lemma_root_of(p, hi as int);
                }
            }
        }
        assert(self@ =~= merged(before, a as int, b as int));
    }
}

/// Merging keeps a partition a partition.
pub proof fn merging_keeps_a_partition(roots: Seq<int>, a: int, b: int)
    requires
        is_partition(roots),
        0 <= a < roots.len(),
        0 <= b < roots.len(),
    ensures
        is_partition(merged(roots, a, b)),
        merged(roots, a, b)[a] == merged(roots, a, b)[b],
{
    let m = merged(roots, a, b);
    assert forall|i: int| 0 <= i < m.len() implies 0 <= #[trigger] m[i] <= i && m[m[i]] == m[i] by {
        assert(0 <= roots[i] <= i);
        assert(0 <= roots[a] <= a);
        assert(0 <= roots[b] <= b);
    }
}

/// The sets do not depend on the order the unions came in: two merges commute.
pub proof fn unions_commute(roots: Seq<int>, a: int, b: int, c: int, d: int)
    requires
        is_partition(roots),
        0 <= a < roots.len(),
        0 <= b < roots.len(),
        0 <= c < roots.len(),
        0 <= d < roots.len(),
    ensures
        merged(merged(roots, a, b), c, d) == merged(merged(roots, c, d), a, b),
{
    let one = merged(merged(roots, a, b), c, d);
    let two = merged(merged(roots, c, d), a, b);
    assert forall|i: int| 0 <= i < roots.len() implies #[trigger] one[i] == two[i] by {
        assert(0 <= roots[i] <= i);
        assert(0 <= roots[a] <= a);
        assert(0 <= roots[b] <= b);
        assert(0 <= roots[c] <= c);
        assert(0 <= roots[d] <= d);
    }
    assert(one =~= two);
}


/// One drawn walk band, its seats and length in micrometres.
#[derive(Clone, Copy, Debug, PartialEq, Eq, Structural)]
pub struct Band {
    /// Grade level; only bands at level 0 stand on the graph.
    pub level: i64,
    /// The street hosting the band, or [`NO_HOST`].
    pub corridor: u32,
    /// Seat at the first end.
    pub height_a: i64,
    /// Seat at the second end.
    pub height_b: i64,
    /// Plan length.
    pub length: u64,
}

/// A mapped connector two or more features carry: the band ends standing at
/// it, and the street surface there when a profiled street carries it.
pub struct ConnectorSeed {
    pub ends: Vec<u32>,
    pub street: Option<i64>,
}

/// A band end standing on another band away from that band's own ends, and
/// the other band's seat there.
#[derive(Clone, Copy, Debug, PartialEq, Eq, Structural)]
pub struct Standing {
    pub slot: u32,
    pub band: u32,
    pub height: i64,
}

/// A band near an end: how far away, and its seat at the nearest point.
#[derive(Clone, Copy, Debug, PartialEq, Eq, Structural)]
pub struct Near {
    pub band: u32,
    pub distance: u64,
    pub height: i64,
}

/// A band end and the bands near it.
pub struct StubEnd {
    pub slot: u32,
    pub near: Vec<Near>,
}

/// What the plan geometry says of the bands: which ends coincide, which
/// connectors they stand at, which bands they stand on and which they stand
/// near.
pub struct Evidence {
    pub coincident: Vec<(u32, u32)>,
    pub seeds: Vec<ConnectorSeed>,
    pub standing: Vec<Standing>,
    pub stubs: Vec<StubEnd>,
}

/// One member standing at a joint: a band end, or a band an end stands on.
#[derive(Clone, Copy, Debug, PartialEq, Eq, Structural)]
pub struct Member {
    pub band: u32,
    pub height: i64,
    pub hosted: bool,
}

/// Heights that leave room for the correction bound.
pub open spec fn height_fits(h: int) -> bool {
    i64::MIN + REACH_UM <= h <= i64::MAX - REACH_UM
}

pub open spec fn slot_count(bands: Seq<Band>) -> int {
    2 * bands.len() as int
}

/// Whether a slot belongs to a band on the graph.
pub open spec fn live(bands: Seq<Band>, slot: int) -> bool {
    0 <= slot < slot_count(bands) && bands[slot / 2].level == 0
}

pub open spec fn live_band(bands: Seq<Band>, band: int) -> bool {
    0 <= band < bands.len() && bands[band].level == 0
}

pub open spec fn seat(bands: Seq<Band>, slot: int) -> i64 {
    if slot % 2 == 0 {
        bands[slot / 2].height_a
    } else {
        bands[slot / 2].height_b
    }
}

pub open spec fn bands_fit(bands: Seq<Band>) -> bool {
    &&& slot_count(bands) < u32::MAX
    &&& forall|i: int| 0 <= i < bands.len() ==> height_fits((#[trigger] bands[i]).height_a as int) && height_fits(bands[i].height_b as int)
}

impl Evidence {
    /// Every slot and band named stands on the graph.
    pub open spec fn well_formed(&self, bands: Seq<Band>) -> bool {
        &&& forall|k: int| 0 <= k < self.coincident@.len() ==> live(bands, (#[trigger] self.coincident@[k]).0 as int) && live(bands, self.coincident@[k].1 as int)
        &&& forall|s: int| 0 <= s < self.seeds@.len() ==> seed_fits(bands, #[trigger] self.seeds@[s])
        &&& forall|k: int| 0 <= k < self.standing@.len() ==> standing_fits(bands, #[trigger] self.standing@[k])
        &&& forall|k: int| 0 <= k < self.stubs@.len() ==> stub_fits(bands, #[trigger] self.stubs@[k])
    }
}

pub open spec fn seed_fits(bands: Seq<Band>, seed: ConnectorSeed) -> bool {
    &&& forall|e: int| 0 <= e < seed.ends@.len() ==> live(bands, #[trigger] seed.ends@[e] as int)
    &&& seed.street is Some ==> height_fits(seed.street->0 as int)
}

pub open spec fn standing_fits(bands: Seq<Band>, s: Standing) -> bool {
    live(bands, s.slot as int) && live_band(bands, s.band as int) && height_fits(s.height as int)
}

pub open spec fn stub_fits(bands: Seq<Band>, s: StubEnd) -> bool {
    &&& live(bands, s.slot as int)
    &&& forall|k: int| 0 <= k < s.near@.len() ==> live_band(bands, (#[trigger] s.near@[k]).band as int) && height_fits(s.near@[k].height as int)
}

// ---------------------------------------------------------------------------
// Which ends are one joint.
// ---------------------------------------------------------------------------

/// The sets after the first `n` pairs are united.
pub open spec fn joined(roots: Seq<int>, pairs: Seq<(u32, u32)>, n: int) -> Seq<int>
    decreases n,
{
    if n <= 0 {
        roots
    } else {
        merged(joined(roots, pairs, n - 1), pairs[n - 1].0 as int, pairs[n - 1].1 as int)
    }
}

/// The sets after the first `n` ends at one connector are united with the
/// first of them.
pub open spec fn seed_joined(roots: Seq<int>, ends: Seq<u32>, n: int) -> Seq<int>
    decreases n,
{
    if n <= 1 {
        roots
    } else {
        merged(seed_joined(roots, ends, n - 1), ends[0] as int, ends[n - 1] as int)
    }
}

/// How many of those unions joined two different sets.
pub open spec fn seed_unions(roots: Seq<int>, ends: Seq<u32>, n: int) -> int
    decreases n,
{
    if n <= 1 {
        0
    } else {
        let before = seed_joined(roots, ends, n - 1);
        seed_unions(roots, ends, n - 1) + if before[ends[0] as int] != before[ends[n - 1] as int] {
            1int
        } else {
            0
        }
    }
}

/// The sets after the first `n` connectors.
pub open spec fn seeds_joined(roots: Seq<int>, seeds: Seq<ConnectorSeed>, n: int) -> Seq<int>
    decreases n,
{
    if n <= 0 {
        roots
    } else {
        seed_joined(seeds_joined(roots, seeds, n - 1), seeds[n - 1].ends@, seeds[n - 1].ends@.len() as int)
    }
}

/// How many unions of the first `n` connectors joined two different sets.
pub open spec fn seeds_unions(roots: Seq<int>, seeds: Seq<ConnectorSeed>, n: int) -> int
    decreases n,
{
    if n <= 0 {
        0
    } else {
        seeds_unions(roots, seeds, n - 1) + seed_unions(
            seeds_joined(roots, seeds, n - 1),
            seeds[n - 1].ends@,
            seeds[n - 1].ends@.len() as int,
        )
    }
}

/// The sets the coinciding ends alone make.
pub open spec fn coincidence_sets(bands: Seq<Band>, evidence: Evidence) -> Seq<int> {
    joined(
        Seq::new(slot_count(bands) as nat, |i: int| i),
        evidence.coincident@,
        evidence.coincident@.len() as int,
    )
}

/// The joint every end belongs to, named by its least slot.
pub open spec fn joint_sets(bands: Seq<Band>, evidence: Evidence) -> Seq<int> {
    seeds_joined(coincidence_sets(bands, evidence), evidence.seeds@, evidence.seeds@.len() as int)
}

/// How many connector unions joined ends that had not coincided already.
pub open spec fn connector_unions(bands: Seq<Band>, evidence: Evidence) -> int {
    seeds_unions(coincidence_sets(bands, evidence), evidence.seeds@, evidence.seeds@.len() as int)
}

/// The sum of the first `n` set names: a measure every effective union lowers.
spec fn name_total(roots: Seq<int>, n: int) -> int
    decreases n,
{
    if n <= 0 {
        0
    } else {
        name_total(roots, n - 1) + roots[n - 1]
    }
}

proof fn lemma_name_total(roots: Seq<int>, n: int)
    requires
        is_partition(roots),
        0 <= n <= roots.len(),
    ensures
        0 <= name_total(roots, n) <= n * n,
    decreases n,
{
    if n > 0 {
        lemma_name_total(roots, n - 1);
        assert(0 <= roots[n - 1] <= n - 1);
        assert((n - 1) * (n - 1) + n - 1 <= n * n) by (nonlinear_arith)
            requires
                n >= 1,
        ;
    }
}

proof fn lemma_merging_lowers_names(roots: Seq<int>, a: int, b: int, n: int)
    requires
        is_partition(roots),
        0 <= a < roots.len(),
        0 <= b < roots.len(),
        0 <= n <= roots.len(),
    ensures
        name_total(merged(roots, a, b), n) <= name_total(roots, n),
        roots[a] != roots[b] && roots[a] < n && roots[b] < n ==> name_total(merged(roots, a, b), n) < name_total(roots, n),
    decreases n,
{
    if n > 0 {
        lemma_merging_lowers_names(roots, a, b, n - 1);
        assert(roots[roots[a]] == roots[a]);
        assert(roots[roots[b]] == roots[b]);
    }
}

/// The sets of a graph: a partition of the slots in which ends on the graph
/// are only ever joined with each other.
pub open spec fn sets_fit(bands: Seq<Band>, roots: Seq<int>) -> bool {
    &&& roots.len() == slot_count(bands)
    &&& is_partition(roots)
    &&& forall|s: int| 0 <= s < roots.len() ==> live(bands, #[trigger] roots[s]) == live(bands, s)
    &&& forall|s: int| 0 <= s < roots.len() && !live(bands, s) ==> #[trigger] roots[s] == s
}

proof fn lemma_merged_fits(bands: Seq<Band>, roots: Seq<int>, a: int, b: int)
    requires
        sets_fit(bands, roots),
        live(bands, a),
        live(bands, b),
    ensures
        sets_fit(bands, merged(roots, a, b)),
{
    merging_keeps_a_partition(roots, a, b);
    let m = merged(roots, a, b);
    assert(live(bands, roots[a]));
    assert(live(bands, roots[b]));
    assert forall|s: int| 0 <= s < m.len() implies live(bands, #[trigger] m[s]) == live(bands, s) by {
        assert(live(bands, roots[s]) == live(bands, s));
    }
    assert forall|s: int| 0 <= s < m.len() && !live(bands, s) implies #[trigger] m[s] == s by {
        assert(roots[s] == s);
    }
}

/// Unites the ends that coincide and the ends at shared connectors, and
/// returns every slot's joint with the number of connector unions that joined
/// two different sets.
fn unite(bands: &[Band], evidence: &Evidence) -> (out: (Vec<u32>, u64))
    requires
        bands_fit(bands@),
        evidence.well_formed(bands@),
    ensures
        out.0@.len() == slot_count(bands@),
        out.0@.map_values(|r: u32| r as int) == joint_sets(bands@, *evidence),
        sets_fit(bands@, joint_sets(bands@, *evidence)),
        out.1 == connector_unions(bands@, *evidence),
{
    let n: usize = bands.len() * 2;
    let mut sets = UnionFind::new(n);
    let ghost fresh = Seq::new(slot_count(bands@) as nat, |i: int| i);
    let mut k: usize = 0;
    while k < evidence.coincident.len()
        invariant
            k <= evidence.coincident@.len(),
            evidence.well_formed(bands@),
            fresh == Seq::new(slot_count(bands@) as nat, |i: int| i),
            sets.well_formed(),
            sets@ == joined(fresh, evidence.coincident@, k as int),
            sets_fit(bands@, sets@),
        decreases evidence.coincident@.len() - k,
    {
        let (a, b): (u32, u32) = evidence.coincident[k];
        proof {
            lemma_merged_fits(bands@, sets@, a as int, b as int);
        }
        sets.union(a, b);
        k = k + 1;
    }
    let ghost start = sets@;
    proof {
        lemma_name_total(start, n as int);
    }
    let mut unions: u64 = 0;
    let mut s: usize = 0;
    while s < evidence.seeds.len()
        invariant
            s <= evidence.seeds@.len(),
            evidence.well_formed(bands@),
            sets.well_formed(),
            sets@ == seeds_joined(start, evidence.seeds@, s as int),
            sets_fit(bands@, sets@),
            unions == seeds_unions(start, evidence.seeds@, s as int),
            unions + name_total(sets@, sets@.len() as int) <= n * n,
            n < u32::MAX,
            sets@.len() == n,
        decreases evidence.seeds@.len() - s,
    {
        let ghost base = sets@;
        let ghost counted = seeds_unions(start, evidence.seeds@, s as int);
        let ends: &Vec<u32> = &evidence.seeds[s].ends;
        assert(seed_fits(bands@, evidence.seeds@[s as int]));
        if ends.len() > 0 {
            let first: u32 = ends[0];
            let mut e: usize = 1;
            while e < ends.len()
                invariant
                    1 <= e <= ends@.len(),
                    first == ends@[0],
                    forall|i: int| 0 <= i < ends@.len() ==> live(bands@, #[trigger] ends@[i] as int),
                    sets.well_formed(),
                    sets@ == seed_joined(base, ends@, e as int),
                    sets_fit(bands@, sets@),
                    unions == counted + seed_unions(base, ends@, e as int),
                    unions + name_total(sets@, sets@.len() as int) <= n * n,
                    n < u32::MAX,
                    sets@.len() == n,
                decreases ends@.len() - e,
            {
                let other: u32 = ends[e];
                assert(live(bands@, ends@[0] as int));
                assert(live(bands@, ends@[e as int] as int));
                let ra: u32 = sets.find(first);
                let rb: u32 = sets.find(other);
                proof {
                    lemma_merged_fits(bands@, sets@, first as int, other as int);
                    lemma_merging_lowers_names(sets@, first as int, other as int, n as int);
                    lemma_name_total(merged(sets@, first as int, other as int), n as int);
                    assert(n * n < 0x1_0000_0000_0000_0000) by (nonlinear_arith)
                        requires
                            0 <= n < 0x1_0000_0000,
                    ;
                }
                if ra != rb {
                    unions = unions + 1;
                }
                sets.union(first, other);
                e = e + 1;
            }
        }
        s = s + 1;
    }
    let mut roots: Vec<u32> = Vec::new();
    let mut i: usize = 0;
    while i < n
        invariant
            i <= n,
            n == slot_count(bands@),
            n < u32::MAX,
            sets.well_formed(),
            sets@ == joint_sets(bands@, *evidence),
            sets_fit(bands@, sets@),
            roots@.len() == i,
            forall|j: int| 0 <= j < i ==> #[trigger] roots@[j] == sets@[j],
        decreases n - i,
    {
        let r: u32 = sets.find(i as u32);
        roots.push(r);
        i = i + 1;
    }
    assert(roots@.map_values(|r: u32| r as int) =~= joint_sets(bands@, *evidence));
    (roots, unions)
}

// ---------------------------------------------------------------------------
// Who stands at a joint.
// ---------------------------------------------------------------------------

/// Everything a joint's height depends on.
pub struct Net {
    pub bands: Seq<Band>,
    pub sources: Seq<u64>,
    pub seeds: Seq<ConnectorSeed>,
    pub standing: Seq<Standing>,
    pub stubs: Seq<StubEnd>,
    /// How far a kerb stub's end may stand from the band it continues.
    pub stub_reach: int,
    /// The joint of every slot.
    pub sets: Seq<int>,
}

pub open spec fn net_of(bands: Seq<Band>, sources: Seq<u64>, evidence: Evidence, stub_reach: int) -> Net {
    Net {
        bands,
        sources,
        seeds: evidence.seeds@,
        standing: evidence.standing@,
        stubs: evidence.stubs@,
        stub_reach,
        sets: joint_sets(bands, evidence),
    }
}

pub open spec fn hosted(bands: Seq<Band>, band: int) -> bool {
    bands[band].corridor != NO_HOST
}

/// The band ends at joint `r` among the first `n` slots, in slot order.
pub open spec fn own_members(net: Net, r: int, n: int) -> Seq<Member>
    decreases n,
{
    if n <= 0 {
        Seq::empty()
    } else {
        let rest = own_members(net, r, n - 1);
        let s = n - 1;
        if live(net.bands, s) && net.sets[s] == r {
            rest.push(
                Member { band: (s / 2) as u32, height: seat(net.bands, s), hosted: hosted(net.bands, s / 2) },
            )
        } else {
            rest
        }
    }
}

/// Whether an end standing on a band joins it: the end is free and the band is
/// another one.
pub open spec fn stands(bands: Seq<Band>, s: Standing) -> bool {
    !hosted(bands, s.slot as int / 2) && s.band != s.slot as int / 2
}

/// The bands that free ends of joint `r` stand on, among the first `n`
/// observations.
pub open spec fn standing_members(net: Net, r: int, n: int) -> Seq<Member>
    decreases n,
{
    if n <= 0 {
        Seq::empty()
    } else {
        let rest = standing_members(net, r, n - 1);
        let s = net.standing[n - 1];
        if stands(net.bands, s) && net.sets[s.slot as int] == r {
            rest.push(Member { band: s.band, height: s.height, hosted: hosted(net.bands, s.band as int) })
        } else {
            rest
        }
    }
}

/// How many of the first `n` observations join a band to a joint.
pub open spec fn standing_count(net: Net, n: int) -> int
    decreases n,
{
    if n <= 0 {
        0
    } else {
        standing_count(net, n - 1) + if stands(net.bands, net.standing[n - 1]) {
            1int
        } else {
            0
        }
    }
}

/// Whether a slot is the end of a kerb stub: a free band with no source of its
/// own.
pub open spec fn is_stub(net: Net, slot: int) -> bool {
    &&& !hosted(net.bands, slot / 2)
    &&& slot / 2 < net.sources.len()
    &&& net.sources[slot / 2] == 0
}

/// Whether one near band beats the best so far: closer, or as close with a
/// lower number.
pub open spec fn nearer(c: Near, best: Option<Near>) -> bool {
    match best {
        None => true,
        Some(b) => c.distance < b.distance || (c.distance == b.distance && c.band < b.band),
    }
}

/// The nearest hosted band within reach among the first `n`, ties to the lower
/// band.
pub open spec fn nearest_host(net: Net, near: Seq<Near>, n: int) -> Option<Near>
    decreases n,
{
    if n <= 0 {
        None
    } else {
        let best = nearest_host(net, near, n - 1);
        let c = near[n - 1];
        if hosted(net.bands, c.band as int) && c.distance <= net.stub_reach && nearer(c, best) {
            Some(c)
        } else {
            best
        }
    }
}

/// The hosted band a stub end takes its seat from, if any.
pub open spec fn stub_host(net: Net, s: StubEnd) -> Option<Near> {
    if is_stub(net, s.slot as int) {
        nearest_host(net, s.near@, s.near@.len() as int)
    } else {
        None
    }
}

/// The hosted bands that stub ends of joint `r` take their seats from.
pub open spec fn stub_members(net: Net, r: int, n: int) -> Seq<Member>
    decreases n,
{
    if n <= 0 {
        Seq::empty()
    } else {
        let rest = stub_members(net, r, n - 1);
        let s = net.stubs[n - 1];
        match stub_host(net, s) {
            Some(h) => if net.sets[s.slot as int] == r {
                rest.push(Member { band: h.band, height: h.height, hosted: true })
            } else {
                rest
            },
            None => rest,
        }
    }
}

/// How many of the first `n` stub ends take a seat.
pub open spec fn stub_count(net: Net, n: int) -> int
    decreases n,
{
    if n <= 0 {
        0
    } else {
        stub_count(net, n - 1) + if stub_host(net, net.stubs[n - 1]) is Some {
            1int
        } else {
            0
        }
    }
}

/// Everything standing at joint `r`.
pub open spec fn joint_members(net: Net, r: int) -> Seq<Member> {
    own_members(net, r, slot_count(net.bands)) + standing_members(net, r, net.standing.len() as int)
        + stub_members(net, r, net.stubs.len() as int)
}

pub open spec fn members_fit(bands: Seq<Band>, m: Seq<Member>) -> bool {
    forall|i: int| 0 <= i < m.len() ==> height_fits((#[trigger] m[i]).height as int) && live_band(bands, m[i].band as int)
}

pub open spec fn net_fits(net: Net) -> bool {
    &&& bands_fit(net.bands)
    &&& sets_fit(net.bands, net.sets)
    &&& forall|s: int| 0 <= s < net.seeds.len() ==> seed_fits(net.bands, #[trigger] net.seeds[s])
    &&& forall|k: int| 0 <= k < net.standing.len() ==> standing_fits(net.bands, #[trigger] net.standing[k])
    &&& forall|k: int| 0 <= k < net.stubs.len() ==> stub_fits(net.bands, #[trigger] net.stubs[k])
}

proof fn lemma_own_members_fit(net: Net, r: int, n: int)
    requires
        net_fits(net),
        0 <= n <= slot_count(net.bands),
    ensures
        members_fit(net.bands, own_members(net, r, n)),
        own_members(net, r, n).len() <= n,
        0 <= r < n && live(net.bands, r) && net.sets[r] == r ==> own_members(net, r, n).len() > 0,
    decreases n,
{
    if n > 0 {
        lemma_own_members_fit(net, r, n - 1);
        let s = n - 1;
        assert(height_fits(net.bands[s / 2].height_a as int) && height_fits(net.bands[s / 2].height_b as int)) by {
            assert(0 <= s / 2 < net.bands.len());
        }
    }
}

proof fn lemma_standing_members_fit(net: Net, r: int, n: int)
    requires
        net_fits(net),
        0 <= n <= net.standing.len(),
    ensures
        members_fit(net.bands, standing_members(net, r, n)),
        standing_members(net, r, n).len() <= n,
        0 <= standing_count(net, n) <= n,
    decreases n,
{
    if n > 0 {
        lemma_standing_members_fit(net, r, n - 1);
        assert(standing_fits(net.bands, net.standing[n - 1]));
    }
}

proof fn lemma_nearest_host(net: Net, near: Seq<Near>, n: int)
    requires
        0 <= n <= near.len(),
    ensures
        nearest_host(net, near, n) is Some ==> {
            let h = nearest_host(net, near, n)->0;
            &&& exists|k: int| 0 <= k < n && #[trigger] near[k] == h
            &&& hosted(net.bands, h.band as int)
            &&& h.distance <= net.stub_reach
            &&& forall|k: int| 0 <= k < n && hosted(net.bands, (#[trigger] near[k]).band as int) && near[k].distance <= net.stub_reach
                ==> h.distance < near[k].distance || (h.distance == near[k].distance && h.band <= near[k].band)
        },
        nearest_host(net, near, n) is None ==> forall|k: int|
            0 <= k < n ==> !(hosted(net.bands, (#[trigger] near[k]).band as int) && near[k].distance <= net.stub_reach),
    decreases n,
{
    if n > 0 {
        lemma_nearest_host(net, near, n - 1);
        let best = nearest_host(net, near, n - 1);
        let c = near[n - 1];
        if best is Some {
            let k0 = choose|k: int| 0 <= k < n - 1 && #[trigger] near[k] == best->0;
            assert(near[k0] == best->0);
        }
    }
}

/// A stub end is seated on the nearest hosted band within reach, ties to the
/// lower band number, and on none only when no hosted band is within reach.
pub proof fn a_stub_takes_the_nearest_hosted_band(net: Net, stub: StubEnd)
    requires
        is_stub(net, stub.slot as int),
    ensures
        match stub_host(net, stub) {
            Some(h) => {
                &&& stub.near@.contains(h)
                &&& hosted(net.bands, h.band as int)
                &&& h.distance <= net.stub_reach
                &&& forall|k: int|
                    0 <= k < stub.near@.len() && hosted(net.bands, (#[trigger] stub.near@[k]).band as int)
                        && stub.near@[k].distance <= net.stub_reach ==> h.distance < stub.near@[k].distance || (
                    h.distance == stub.near@[k].distance && h.band <= stub.near@[k].band)
            },
            None => forall|k: int|
                0 <= k < stub.near@.len() ==> !(hosted(net.bands, (#[trigger] stub.near@[k]).band as int)
                    && stub.near@[k].distance <= net.stub_reach),
        },
{
    lemma_nearest_host(net, stub.near@, stub.near@.len() as int);
}

proof fn lemma_stub_members_fit(net: Net, r: int, n: int)
    requires
        net_fits(net),
        0 <= n <= net.stubs.len(),
    ensures
        members_fit(net.bands, stub_members(net, r, n)),
        stub_members(net, r, n).len() <= n,
        0 <= stub_count(net, n) <= n,
    decreases n,
{
    if n > 0 {
        lemma_stub_members_fit(net, r, n - 1);
        let s = net.stubs[n - 1];
        assert(stub_fits(net.bands, s));
        lemma_nearest_host(net, s.near@, s.near@.len() as int);
    }
}

proof fn lemma_joint_members_fit(net: Net, r: int)
    requires
        net_fits(net),
    ensures
        members_fit(net.bands, joint_members(net, r)),
        live(net.bands, r) && net.sets[r] == r ==> joint_members(net, r).len() > 0,
{
    lemma_own_members_fit(net, r, slot_count(net.bands));
    lemma_standing_members_fit(net, r, net.standing.len() as int);
    lemma_stub_members_fit(net, r, net.stubs.len() as int);
}

/// The hosted band a stub end takes its seat from.
fn find_stub_host(bands: &[Band], sources: &[u64], stub: &StubEnd, stub_reach: u64, Ghost(net): Ghost<Net>) -> (out: Option<Near>)
    requires
        net.bands == bands@,
        net.sources == sources@,
        net.stub_reach == stub_reach,
        stub_fits(bands@, *stub),
    ensures
        out == stub_host(net, *stub),
{
    let band: usize = (stub.slot / 2) as usize;
    if bands[band].corridor != NO_HOST || band >= sources.len() || sources[band] != 0 {
        return None;
    }
    let mut best: Option<Near> = None;
    let mut k: usize = 0;
    while k < stub.near.len()
        invariant
            k <= stub.near@.len(),
            net.bands == bands@,
            net.stub_reach == stub_reach,
            stub_fits(bands@, *stub),
            best == nearest_host(net, stub.near@, k as int),
        decreases stub.near@.len() - k,
    {
        let c: Near = stub.near[k];
        assert(live_band(bands@, stub.near@[k as int].band as int));
        if bands[c.band as usize].corridor != NO_HOST && c.distance <= stub_reach {
            let better: bool = match best {
                None => true,
                Some(b) => c.distance < b.distance || (c.distance == b.distance && c.band < b.band),
            };
            if better {
                best = Some(c);
            }
        }
        k = k + 1;
    }
    best
}

/// Groups everything standing at a joint by the joint's name, with the number
/// of bands that ends stand on and of stub ends that take a seat.
fn gather(
    bands: &[Band],
    sources: &[u64],
    evidence: &Evidence,
    stub_reach: u64,
    roots: &Vec<u32>,
    Ghost(net): Ghost<Net>,
) -> (out: (Vec<Vec<Member>>, u64, u64))
    requires
        net_fits(net),
        net.bands == bands@,
        net.sources == sources@,
        net.seeds == evidence.seeds@,
        net.standing == evidence.standing@,
        net.stubs == evidence.stubs@,
        net.stub_reach == stub_reach,
        roots@.len() == net.sets.len(),
        forall|i: int| 0 <= i < roots@.len() ==> #[trigger] roots@[i] == net.sets[i],
    ensures
        out.0@.len() == slot_count(bands@),
        forall|r: int| 0 <= r < out.0@.len() ==> (#[trigger] out.0@[r])@ == joint_members(net, r),
        out.1 == standing_count(net, net.standing.len() as int),
        out.2 == stub_count(net, net.stubs.len() as int),
{
    let n: usize = bands.len() * 2;
    let mut joints: Vec<Vec<Member>> = Vec::new();
    let mut i: usize = 0;
    while i < n
        invariant
            i <= n,
            joints@.len() == i,
            forall|r: int| 0 <= r < i ==> (#[trigger] joints@[r])@ == Seq::<Member>::empty(),
        decreases n - i,
    {
        joints.push(Vec::new());
        i = i + 1;
    }
    let mut s: usize = 0;
    while s < n
        invariant
            s <= n,
            n == slot_count(bands@),
            net_fits(net),
            net.bands == bands@,
            roots@.len() == net.sets.len(),
            forall|i: int| 0 <= i < roots@.len() ==> #[trigger] roots@[i] == net.sets[i],
            joints@.len() == n,
            forall|r: int| 0 <= r < n ==> (#[trigger] joints@[r])@ == own_members(net, r, s as int),
        decreases n - s,
    {
        let band: Band = bands[s / 2];
        let ghost before = joints@;
        if band.level == 0 {
            let height: i64 = if s % 2 == 0 { band.height_a } else { band.height_b };
            let root: usize = roots[s] as usize;
            assert(0 <= net.sets[s as int] <= s);
            joints[root].push(Member { band: (s / 2) as u32, height, hosted: band.corridor != NO_HOST });
        }
        assert forall|r: int| 0 <= r < n implies (#[trigger] joints@[r])@ == own_members(net, r, s + 1) by {
            assert(before[r]@ == own_members(net, r, s as int));
        }
        s = s + 1;
    }
    let mut hosts: u64 = 0;
    let mut k: usize = 0;
    let ghost whole = slot_count(bands@);
    while k < evidence.standing.len()
        invariant
            k <= evidence.standing@.len(),
            n == slot_count(bands@),
            whole == n,
            net_fits(net),
            net.bands == bands@,
            net.standing == evidence.standing@,
            roots@.len() == net.sets.len(),
            forall|i: int| 0 <= i < roots@.len() ==> #[trigger] roots@[i] == net.sets[i],
            joints@.len() == n,
            hosts == standing_count(net, k as int),
            hosts <= k,
            forall|r: int| 0 <= r < n ==> (#[trigger] joints@[r])@ == own_members(net, r, whole) + standing_members(net, r, k as int),
        decreases evidence.standing@.len() - k,
    {
        let st: Standing = evidence.standing[k];
        assert(standing_fits(bands@, net.standing[k as int]));
        let ghost before = joints@;
        if bands[(st.slot / 2) as usize].corridor == NO_HOST && st.band != st.slot / 2 {
            let root: usize = roots[st.slot as usize] as usize;
            assert(0 <= net.sets[st.slot as int] <= st.slot);
            joints[root].push(
                Member { band: st.band, height: st.height, hosted: bands[st.band as usize].corridor != NO_HOST },
            );
            hosts = hosts + 1;
        }
        assert forall|r: int| 0 <= r < n implies (#[trigger] joints@[r])@ == own_members(net, r, whole)
            + standing_members(net, r, k + 1) by {
            assert(before[r]@ == own_members(net, r, whole) + standing_members(net, r, k as int));
            assert((own_members(net, r, whole) + standing_members(net, r, k as int)).push(joints@[r]@.last())
                =~= own_members(net, r, whole) + standing_members(net, r, k as int).push(joints@[r]@.last()));
        }
        k = k + 1;
    }
    let mut seated: u64 = 0;
    let mut k: usize = 0;
    let ghost seen = net.standing.len() as int;
    proof {
        assert forall|r: int| 0 <= r < n implies (#[trigger] joints@[r])@ == own_members(net, r, whole)
            + standing_members(net, r, seen) + stub_members(net, r, 0) by {
            assert(own_members(net, r, whole) + standing_members(net, r, seen) + stub_members(net, r, 0)
                =~= own_members(net, r, whole) + standing_members(net, r, seen));
        }
    }
    while k < evidence.stubs.len()
        invariant
            k <= evidence.stubs@.len(),
            n == slot_count(bands@),
            whole == n,
            seen == net.standing.len(),
            net_fits(net),
            net.bands == bands@,
            net.sources == sources@,
            net.stubs == evidence.stubs@,
            net.stub_reach == stub_reach,
            roots@.len() == net.sets.len(),
            forall|i: int| 0 <= i < roots@.len() ==> #[trigger] roots@[i] == net.sets[i],
            joints@.len() == n,
            seated == stub_count(net, k as int),
            seated <= k,
            forall|r: int| 0 <= r < n ==> (#[trigger] joints@[r])@ == own_members(net, r, whole) + standing_members(net, r, seen)
                + stub_members(net, r, k as int),
        decreases evidence.stubs@.len() - k,
    {
        let stub: &StubEnd = &evidence.stubs[k];
        assert(stub_fits(bands@, net.stubs[k as int]));
        let ghost before = joints@;
        let host: Option<Near> = find_stub_host(bands, sources, stub, stub_reach, Ghost(net));
        if let Some(h) = host {
            let root: usize = roots[stub.slot as usize] as usize;
            assert(0 <= net.sets[stub.slot as int] <= stub.slot);
            joints[root].push(Member { band: h.band, height: h.height, hosted: true });
            seated = seated + 1;
        }
        assert forall|r: int| 0 <= r < n implies (#[trigger] joints@[r])@ == own_members(net, r, whole)
            + standing_members(net, r, seen) + stub_members(net, r, k + 1) by {
            let base = own_members(net, r, whole) + standing_members(net, r, seen);
            assert(before[r]@ == base + stub_members(net, r, k as int));
            assert((base + stub_members(net, r, k as int)).push(joints@[r]@.last()) =~= base + stub_members(
                net,
                r,
                k as int,
            ).push(joints@[r]@.last()));
        }
        k = k + 1;
    }
    (joints, hosts, seated)
}

// ---------------------------------------------------------------------------
// A joint's own height.
// ---------------------------------------------------------------------------

/// Sum of the seats of the hosted (or free) members among the first `n`.
pub open spec fn seat_sum(m: Seq<Member>, hosted: bool, n: int) -> int
    decreases n,
{
    if n <= 0 {
        0
    } else {
        seat_sum(m, hosted, n - 1) + if m[n - 1].hosted == hosted {
            m[n - 1].height as int
        } else {
            0
        }
    }
}

/// How many of the first `n` members are hosted (or free).
pub open spec fn seat_count(m: Seq<Member>, hosted: bool, n: int) -> int
    decreases n,
{
    if n <= 0 {
        0
    } else {
        seat_count(m, hosted, n - 1) + if m[n - 1].hosted == hosted {
            1int
        } else {
            0
        }
    }
}

pub open spec fn mean_seat(m: Seq<Member>, hosted: bool) -> int {
    mean(seat_sum(m, hosted, m.len() as int), seat_count(m, hosted, m.len() as int))
}

pub open spec fn has_seat(m: Seq<Member>, hosted: bool) -> bool {
    seat_count(m, hosted, m.len() as int) > 0
}

/// The ground a joint starts from: its free members' mean seat, or every
/// member's when none is free.
pub open spec fn seed_of(m: Seq<Member>) -> int {
    if has_seat(m, false) {
        mean_seat(m, false)
    } else {
        mean_seat(m, true)
    }
}

/// Sum of the street surfaces that connectors put at joint `r`, over the first
/// `n` connectors.
pub open spec fn street_sum(net: Net, r: int, n: int) -> int
    decreases n,
{
    if n <= 0 {
        0
    } else {
        street_sum(net, r, n - 1) + if street_at(net, net.seeds[n - 1], r) {
            net.seeds[n - 1].street->0 as int
        } else {
            0
        }
    }
}

/// How many street surfaces connectors put at joint `r`.
pub open spec fn street_count(net: Net, r: int, n: int) -> int
    decreases n,
{
    if n <= 0 {
        0
    } else {
        street_count(net, r, n - 1) + if street_at(net, net.seeds[n - 1], r) {
            1int
        } else {
            0
        }
    }
}

/// Whether a connector puts a street surface at joint `r`.
pub open spec fn street_at(net: Net, seed: ConnectorSeed, r: int) -> bool {
    seed.ends@.len() > 0 && seed.street is Some && net.sets[seed.ends@[0] as int] == r
}

/// The street surface at joint `r`, when a connector gives it one.
pub open spec fn street_of(net: Net, r: int) -> Option<int> {
    let n = street_count(net, r, net.seeds.len() as int);
    if n > 0 {
        Some(mean(street_sum(net, r, net.seeds.len() as int), n))
    } else {
        None
    }
}

/// The height a joint is offered: its hosted members' mean seat, else the
/// street surface at it.
pub open spec fn offer_of(m: Seq<Member>, street: Option<int>) -> Option<int> {
    if has_seat(m, true) {
        Some(mean_seat(m, true))
    } else {
        street
    }
}

/// The height a joint is pinned to: its offer, when that is within reach of
/// the seed or nothing free stands here.
pub open spec fn pin_of(m: Seq<Member>, street: Option<int>) -> Option<int> {
    match offer_of(m, street) {
        Some(h) => if (has_seat(m, true) && !has_seat(m, false)) || abs(h - seed_of(m)) <= REACH_UM {
            Some(h)
        } else {
            None
        },
        None => None,
    }
}

/// A joint's own height before relaxation: its pin, else its seed.
pub open spec fn own_height(m: Seq<Member>, street: Option<int>) -> int {
    match pin_of(m, street) {
        Some(h) => h,
        None => seed_of(m),
    }
}

/// Whether the pin came from a street.
pub open spec fn street_pinned(m: Seq<Member>, street: Option<int>) -> bool {
    !has_seat(m, true) && pin_of(m, street) is Some
}

/// Whether an offer was declined as out of reach.
pub open spec fn declined(m: Seq<Member>, street: Option<int>) -> bool {
    offer_of(m, street) is Some && pin_of(m, street) is None
}

/// Whether two different bands stand here.
pub open spec fn multi_band(m: Seq<Member>) -> bool {
    exists|i: int| 0 <= i < m.len() && (#[trigger] m[i]).band != m[0].band
}

/// Whether two bands of different corridors stand here.
pub open spec fn multi_corridor(bands: Seq<Band>, m: Seq<Member>) -> bool {
    exists|i: int| 0 <= i < m.len() && bands[(#[trigger] m[i]).band as int].corridor != bands[m[0].band as int].corridor
}

/// The highest seat among the first `n` members (at least one).
pub open spec fn highest(m: Seq<Member>, n: int) -> int
    decreases n,
{
    if n <= 1 {
        m[0].height as int
    } else {
        let h = highest(m, n - 1);
        if m[n - 1].height > h {
            m[n - 1].height as int
        } else {
            h
        }
    }
}

/// The lowest seat among the first `n` members (at least one).
pub open spec fn lowest(m: Seq<Member>, n: int) -> int
    decreases n,
{
    if n <= 1 {
        m[0].height as int
    } else {
        let h = lowest(m, n - 1);
        if m[n - 1].height < h {
            m[n - 1].height as int
        } else {
            h
        }
    }
}

/// How far apart the seats at a joint are.
pub open spec fn seat_spread(m: Seq<Member>) -> int {
    highest(m, m.len() as int) - lowest(m, m.len() as int)
}

/// What one joint resolves to on its own.
#[derive(Clone, Copy, Debug, PartialEq, Eq, Structural)]
pub struct Resolved {
    pub seed: i64,
    pub height: i64,
    pub pinned: bool,
    pub from_street: bool,
    pub declined: bool,
    pub multi_band: bool,
    pub multi_corridor: bool,
    pub spread: u64,
    pub mixed: bool,
}

pub open spec fn resolves(bands: Seq<Band>, m: Seq<Member>, street: Option<int>, j: Resolved) -> bool {
    &&& j.seed == seed_of(m)
    &&& j.height == own_height(m, street)
    &&& j.pinned == (pin_of(m, street) is Some)
    &&& j.from_street == street_pinned(m, street)
    &&& j.declined == declined(m, street)
    &&& j.multi_band == multi_band(m)
    &&& j.multi_corridor == multi_corridor(bands, m)
    &&& j.spread == seat_spread(m)
    &&& j.mixed == (has_seat(m, true) && has_seat(m, false))
}

proof fn lemma_seat_sum(bands: Seq<Band>, m: Seq<Member>, hosted: bool, n: int)
    requires
        members_fit(bands, m),
        0 <= n <= m.len(),
    ensures
        0 <= seat_count(m, hosted, n) <= n,
        seat_count(m, hosted, n) + seat_count(m, !hosted, n) == n,
        (i64::MIN + REACH_UM) * seat_count(m, hosted, n) <= seat_sum(m, hosted, n) <= (i64::MAX - REACH_UM) * seat_count(m, hosted, n),
    decreases n,
{
    if n > 0 {
        lemma_seat_sum(bands, m, hosted, n - 1);
        let c = seat_count(m, hosted, n - 1);
        assert(height_fits(m[n - 1].height as int));
        assert((i64::MIN + REACH_UM) * (c + 1) == (i64::MIN + REACH_UM) * c + (i64::MIN + REACH_UM)) by (nonlinear_arith);
        assert((i64::MAX - REACH_UM) * (c + 1) == (i64::MAX - REACH_UM) * c + (i64::MAX - REACH_UM)) by (nonlinear_arith);
    } else {
        assert((i64::MIN + REACH_UM) * 0 == 0 && (i64::MAX - REACH_UM) * 0 == 0) by (nonlinear_arith);
    }
}

proof fn lemma_street_sum(net: Net, r: int, n: int)
    requires
        net_fits(net),
        0 <= n <= net.seeds.len(),
    ensures
        0 <= street_count(net, r, n) <= n,
        (i64::MIN + REACH_UM) * street_count(net, r, n) <= street_sum(net, r, n) <= (i64::MAX - REACH_UM) * street_count(net, r, n),
    decreases n,
{
    if n > 0 {
        lemma_street_sum(net, r, n - 1);
        let c = street_count(net, r, n - 1);
        assert(seed_fits(net.bands, net.seeds[n - 1]));
        assert((i64::MIN + REACH_UM) * (c + 1) == (i64::MIN + REACH_UM) * c + (i64::MIN + REACH_UM)) by (nonlinear_arith);
        assert((i64::MAX - REACH_UM) * (c + 1) == (i64::MAX - REACH_UM) * c + (i64::MAX - REACH_UM)) by (nonlinear_arith);
    } else {
        assert((i64::MIN + REACH_UM) * 0 == 0 && (i64::MAX - REACH_UM) * 0 == 0) by (nonlinear_arith);
    }
}

/// A sum of at most 2^64 - 1 heights fits in 128 bits.
proof fn lemma_sum_fits(sum: int, count: int)
    requires
        0 <= count <= u64::MAX,
        (i64::MIN + REACH_UM) * count <= sum <= (i64::MAX - REACH_UM) * count,
    ensures
        i128::MIN + 0x8000_0000_0000_0000 <= sum <= i128::MAX - 0x8000_0000_0000_0000,
{
    assert(-0x7fff_ffff_ffff_ffff * 0x1_0000_0000_0000_0000 <= (i64::MIN + REACH_UM) * count) by (nonlinear_arith)
        requires
            0 <= count <= 0xffff_ffff_ffff_ffff,
    ;
    assert((i64::MAX - REACH_UM) * count <= (i64::MAX - REACH_UM) * 0xffff_ffff_ffff_ffff) by (nonlinear_arith)
        requires
            0 <= count <= 0xffff_ffff_ffff_ffff,
    ;
}

proof fn lemma_highest_lowest(bands: Seq<Band>, m: Seq<Member>, n: int)
    requires
        members_fit(bands, m),
        1 <= n <= m.len(),
    ensures
        i64::MIN <= lowest(m, n) <= highest(m, n) <= i64::MAX,
        forall|i: int| 0 <= i < n ==> lowest(m, n) <= (#[trigger] m[i]).height <= highest(m, n),
    decreases n,
{
    if n > 1 {
        lemma_highest_lowest(bands, m, n - 1);
    }
}

/// Resolves one joint from its members and the street surfaces at it.
fn resolve(bands: &[Band], members: &Vec<Member>, street_total: i128, streets: u64, Ghost(street): Ghost<Option<int>>) -> (out: Resolved)
    requires
        members@.len() > 0,
        members_fit(bands@, members@),
        (i64::MIN + REACH_UM) * streets <= street_total <= (i64::MAX - REACH_UM) * streets,
        street == (if streets > 0 { Some(mean(street_total as int, streets as int)) } else { None }),
    ensures
        resolves(bands@, members@, street, out),
        height_fits(out.seed as int),
        height_fits(out.height as int),
{
    let mut free_sum: i128 = 0;
    let mut free_n: u64 = 0;
    let mut hosted_sum: i128 = 0;
    let mut hosted_n: u64 = 0;
    let mut several: bool = false;
    let mut corridors: bool = false;
    let first: Member = members[0];
    assert(live_band(bands@, members@[0].band as int));
    let first_corridor: u32 = bands[first.band as usize].corridor;
    let mut hi: i64 = first.height;
    let mut lo: i64 = first.height;
    let mut i: usize = 0;
    while i < members.len()
        invariant
            i <= members@.len(),
            members@.len() > 0,
            members_fit(bands@, members@),
            first == members@[0],
            live_band(bands@, first.band as int),
            first_corridor == bands@[first.band as int].corridor,
            free_sum == seat_sum(members@, false, i as int),
            free_n == seat_count(members@, false, i as int),
            hosted_sum == seat_sum(members@, true, i as int),
            hosted_n == seat_count(members@, true, i as int),
            hi == highest(members@, i as int),
            lo == lowest(members@, i as int),
            several == exists|k: int| 0 <= k < i && (#[trigger] members@[k]).band != first.band,
            corridors == exists|k: int| 0 <= k < i && bands@[(#[trigger] members@[k]).band as int].corridor != first_corridor,
        decreases members@.len() - i,
    {
        let m: Member = members[i];
        proof {
            lemma_seat_sum(bands@, members@, false, i as int);
            lemma_seat_sum(bands@, members@, true, i as int);
            lemma_sum_fits(free_sum as int, free_n as int);
            lemma_sum_fits(hosted_sum as int, hosted_n as int);
            assert(live_band(bands@, members@[i as int].band as int));
        }
        if m.hosted {
            hosted_sum = hosted_sum + m.height as i128;
            hosted_n = hosted_n + 1;
        } else {
            free_sum = free_sum + m.height as i128;
            free_n = free_n + 1;
        }
        if m.height > hi {
            hi = m.height;
        }
        if m.height < lo {
            lo = m.height;
        }
        if m.band != first.band {
            several = true;
        }
        if bands[m.band as usize].corridor != first_corridor {
            corridors = true;
        }
        i = i + 1;
    }
    let ghost low: int = i64::MIN + REACH_UM;
    let ghost top: int = i64::MAX - REACH_UM;
    proof {
        lemma_seat_sum(bands@, members@, false, i as int);
        lemma_seat_sum(bands@, members@, true, i as int);
        lemma_highest_lowest(bands@, members@, i as int);
    }
    let seed: i64 = if free_n > 0 {
        mean_of(free_sum, free_n, Ghost(low), Ghost(top))
    } else {
        mean_of(hosted_sum, hosted_n, Ghost(low), Ghost(top))
    };
    let spread: u64 = (hi as i128 - lo as i128) as u64;
    let mixed: bool = free_n > 0 && hosted_n > 0;
    let mut out = Resolved {
        seed,
        height: seed,
        pinned: false,
        from_street: false,
        declined: false,
        multi_band: several,
        multi_corridor: corridors,
        spread,
        mixed,
    };
    if hosted_n > 0 {
        let h: i64 = mean_of(hosted_sum, hosted_n, Ghost(low), Ghost(top));
        if free_n == 0 || distance(h, seed) <= REACH_UM as u64 {
            out.height = h;
            out.pinned = true;
        } else {
            out.declined = true;
        }
    } else if streets > 0 {
        let h: i64 = mean_of(street_total, streets, Ghost(low), Ghost(top));
        if distance(h, seed) <= REACH_UM as u64 {
            out.height = h;
            out.pinned = true;
            out.from_street = true;
        } else {
            out.declined = true;
        }
    }
    out
}

/// A pinned joint stands on its offer and never more than the reach from its
/// seed.
pub proof fn a_pin_stays_within_reach(m: Seq<Member>, street: Option<int>)
    requires
        m.len() > 0,
    ensures
        abs(own_height(m, street) - seed_of(m)) <= REACH_UM,
        pin_of(m, street) is Some ==> Some(own_height(m, street)) == offer_of(m, street),
        pin_of(m, street) is None ==> own_height(m, street) == seed_of(m),
{
}

// ---------------------------------------------------------------------------
// Nodes and edges.
// ---------------------------------------------------------------------------

/// Whether slot `s` names a joint on the graph.
pub open spec fn is_node(net: Net, s: int) -> bool {
    live(net.bands, s) && net.sets[s] == s
}

/// The joints among the first `n` slots, in slot order: one node each.
pub open spec fn node_roots(net: Net, n: int) -> Seq<int>
    decreases n,
{
    if n <= 0 {
        Seq::empty()
    } else {
        let rest = node_roots(net, n - 1);
        if is_node(net, n - 1) {
            rest.push(n - 1)
        } else {
            rest
        }
    }
}

/// Every node of the graph.
pub open spec fn nodes(net: Net) -> Seq<int> {
    node_roots(net, slot_count(net.bands))
}

/// The node a slot stands at, [`NO_NODE`] off the graph.
pub open spec fn node_of(net: Net, slot: int) -> int {
    if live(net.bands, slot) {
        node_roots(net, net.sets[slot]).len() as int
    } else {
        NO_NODE as int
    }
}

pub open spec fn members_at(net: Net, node: int) -> Seq<Member> {
    joint_members(net, nodes(net)[node])
}

pub open spec fn street_at_node(net: Net, node: int) -> Option<int> {
    street_of(net, nodes(net)[node])
}

pub open spec fn node_pinned(net: Net, node: int) -> bool {
    pin_of(members_at(net, node), street_at_node(net, node)) is Some
}

proof fn lemma_node_roots(net: Net, n: int)
    requires
        0 <= n <= slot_count(net.bands),
    ensures
        node_roots(net, n).len() <= n,
        forall|k: int| 0 <= k < node_roots(net, n).len() ==> {
            &&& 0 <= #[trigger] node_roots(net, n)[k] < n
            &&& is_node(net, node_roots(net, n)[k])
            &&& node_roots(net, node_roots(net, n)[k]).len() == k
        },
    decreases n,
{
    if n > 0 {
        lemma_node_roots(net, n - 1);
    }
}

proof fn lemma_node_roots_prefix(net: Net, r: int, n: int)
    requires
        0 <= r < n <= slot_count(net.bands),
        is_node(net, r),
    ensures
        node_roots(net, r).len() < node_roots(net, n).len(),
        node_roots(net, n)[node_roots(net, r).len() as int] == r,
    decreases n,
{
    if r < n - 1 {
        lemma_node_roots_prefix(net, r, n - 1);
    }
}

/// Every end on the graph stands at exactly the node of its joint: two ends
/// share a node if and only if they share a joint.
pub proof fn ends_share_a_node_iff_they_share_a_joint(net: Net, a: int, b: int)
    requires
        net_fits(net),
        live(net.bands, a),
        live(net.bands, b),
    ensures
        0 <= node_of(net, a) < nodes(net).len(),
        nodes(net)[node_of(net, a)] == net.sets[a],
        node_of(net, a) == node_of(net, b) <==> net.sets[a] == net.sets[b],
{
    lemma_node_of(net, a);
    lemma_node_of(net, b);
}

proof fn lemma_node_of(net: Net, a: int)
    requires
        net_fits(net),
        live(net.bands, a),
    ensures
        0 <= node_of(net, a) < nodes(net).len(),
        nodes(net)[node_of(net, a)] == net.sets[a],
{
    assert(live(net.bands, net.sets[a]));
    assert(net.sets[net.sets[a]] == net.sets[a]);
    lemma_node_roots_prefix(net, net.sets[a], slot_count(net.bands));
}

/// The weight of a band of the given length: one over it.
pub open spec fn edge_weight(length: int) -> int {
    UNIT_WEIGHT as int / (if length < MIN_EDGE_UM {
        MIN_EDGE_UM as int
    } else {
        length
    })
}

/// Whether a band ties its two end nodes together: free, on the graph, and
/// between two different nodes.
pub open spec fn is_edge(net: Net, band: int) -> bool {
    &&& live_band(net.bands, band)
    &&& !hosted(net.bands, band)
    &&& node_of(net, 2 * band) != node_of(net, 2 * band + 1)
}

/// An edge between two nodes and its weight.
#[derive(Clone, Copy, Debug, PartialEq, Eq, Structural)]
pub struct Edge {
    pub a: u32,
    pub b: u32,
    pub weight: u64,
}

/// The edges the first `n` bands make.
pub open spec fn edges_of(net: Net, n: int) -> Seq<Edge>
    decreases n,
{
    if n <= 0 {
        Seq::empty()
    } else {
        let rest = edges_of(net, n - 1);
        if is_edge(net, n - 1) {
            rest.push(
                Edge {
                    a: node_of(net, 2 * (n - 1)) as u32,
                    b: node_of(net, 2 * (n - 1) + 1) as u32,
                    weight: edge_weight(net.bands[n - 1].length as int) as u64,
                },
            )
        } else {
            rest
        }
    }
}

// ---------------------------------------------------------------------------
// Relaxation of the correction field.
// ---------------------------------------------------------------------------

/// The weighted correction the first `n` edges bring to a node.
pub open spec fn pull(edges: Seq<Edge>, c: Seq<int>, node: int, n: int) -> int
    decreases n,
{
    if n <= 0 {
        0
    } else {
        let e = edges[n - 1];
        pull(edges, c, node, n - 1) + if e.a == node {
            e.weight * c[e.b as int]
        } else if e.b == node {
            e.weight * c[e.a as int]
        } else {
            0
        }
    }
}

/// The weight the first `n` edges bring to a node.
pub open spec fn mass(edges: Seq<Edge>, node: int, n: int) -> int
    decreases n,
{
    if n <= 0 {
        0
    } else {
        let e = edges[n - 1];
        mass(edges, node, n - 1) + if e.a == node || e.b == node {
            e.weight as int
        } else {
            0
        }
    }
}

/// One sweep: every free node with an edge takes the screened weighted mean of
/// its neighbours' corrections.
pub open spec fn swept(edges: Seq<Edge>, pinned: Seq<bool>, c: Seq<int>) -> Seq<int> {
    let n = edges.len() as int;
    Seq::new(
        c.len(),
        |node: int|
            if pinned[node] || mass(edges, node, n) == 0 {
                c[node]
            } else {
                quot(pull(edges, c, node, n), GROUND_MASS + mass(edges, node, n))
            },
    )
}

/// The corrections after `k` sweeps.
pub open spec fn relaxed(edges: Seq<Edge>, pinned: Seq<bool>, c: Seq<int>, k: int) -> Seq<int>
    decreases k,
{
    if k <= 0 {
        c
    } else {
        swept(edges, pinned, relaxed(edges, pinned, c, k - 1))
    }
}

pub open spec fn edges_fit(edges: Seq<Edge>, nodes: int) -> bool {
    &&& edges.len() <= u32::MAX
    &&& forall|k: int| 0 <= k < edges.len() ==> {
        &&& (#[trigger] edges[k]).a < nodes
        &&& edges[k].b < nodes
        &&& edges[k].a != edges[k].b
        &&& edges[k].weight <= 2_000_000_000
    }
}

pub open spec fn within_reach(c: Seq<int>) -> bool {
    forall|k: int| 0 <= k < c.len() ==> -REACH_UM <= #[trigger] c[k] <= REACH_UM
}

proof fn lemma_pull_bounds(edges: Seq<Edge>, c: Seq<int>, node: int, n: int)
    requires
        edges_fit(edges, c.len() as int),
        within_reach(c),
        0 <= n <= edges.len(),
    ensures
        0 <= mass(edges, node, n) <= 2_000_000_000 * n,
        -REACH_UM * mass(edges, node, n) <= pull(edges, c, node, n) <= REACH_UM * mass(edges, node, n),
    decreases n,
{
    if n > 0 {
        lemma_pull_bounds(edges, c, node, n - 1);
        let e = edges[n - 1];
        let w = e.weight as int;
        assert(-REACH_UM <= c[e.a as int] <= REACH_UM);
        assert(-REACH_UM <= c[e.b as int] <= REACH_UM);
        let ca = c[e.a as int];
        let cb = c[e.b as int];
        assert(-REACH_UM * w <= w * ca <= REACH_UM * w) by (nonlinear_arith)
            requires
                -REACH_UM <= ca <= REACH_UM,
                0 <= w,
        ;
        assert(-REACH_UM * w <= w * cb <= REACH_UM * w) by (nonlinear_arith)
            requires
                -REACH_UM <= cb <= REACH_UM,
                0 <= w,
        ;
        let m = mass(edges, node, n - 1);
        assert(REACH_UM * (m + w) == REACH_UM * m + REACH_UM * w) by (nonlinear_arith);
        assert(-REACH_UM * (m + w) == -REACH_UM * m + -REACH_UM * w) by (nonlinear_arith);
    }
}

/// Relaxation never carries a correction past the reach, so the bound on the
/// result never bites.
pub proof fn relaxation_stays_within_reach(edges: Seq<Edge>, pinned: Seq<bool>, c: Seq<int>, k: int)
    requires
        edges_fit(edges, c.len() as int),
        within_reach(c),
    ensures
        relaxed(edges, pinned, c, k).len() == c.len(),
        within_reach(relaxed(edges, pinned, c, k)),
    decreases k,
{
    if k > 0 {
        relaxation_stays_within_reach(edges, pinned, c, k - 1);
        let prev = relaxed(edges, pinned, c, k - 1);
        let next = relaxed(edges, pinned, c, k);
        let n = edges.len() as int;
        assert forall|node: int| 0 <= node < next.len() implies -REACH_UM <= #[trigger] next[node] <= REACH_UM by {
            lemma_pull_bounds(edges, prev, node, n);
            let m = mass(edges, node, n);
            let p = pull(edges, prev, node, n);
            assert(-REACH_UM <= prev[node] <= REACH_UM);
            assert(-REACH_UM * (GROUND_MASS + m) <= p <= REACH_UM * (GROUND_MASS + m)) by (nonlinear_arith)
                requires
                    -REACH_UM * m <= p <= REACH_UM * m,
                    0 <= m,
            ;
            lemma_quot_bounds(p, GROUND_MASS + m, REACH_UM as int);
        }
    }
}

/// A pinned node keeps its correction through every sweep.
pub proof fn relaxation_keeps_pins(edges: Seq<Edge>, pinned: Seq<bool>, c: Seq<int>, k: int, node: int)
    requires
        0 <= node < c.len(),
        pinned[node],
    ensures
        relaxed(edges, pinned, c, k).len() == c.len(),
        relaxed(edges, pinned, c, k)[node] == c[node],
    decreases k,
{
    if k > 0 {
        relaxation_keeps_pins(edges, pinned, c, k - 1, node);
    }
}

proof fn lemma_no_pull(edges: Seq<Edge>, c: Seq<int>, node: int, n: int)
    requires
        edges_fit(edges, c.len() as int),
        forall|i: int| 0 <= i < c.len() ==> #[trigger] c[i] == 0,
        0 <= n <= edges.len(),
    ensures
        pull(edges, c, node, n) == 0,
    decreases n,
{
    if n > 0 {
        lemma_no_pull(edges, c, node, n - 1);
        let e = edges[n - 1];
        assert(c[e.a as int] == 0 && c[e.b as int] == 0);
        assert(e.weight * 0 == 0);
    }
}

/// Where nothing pins, nothing moves: corrections that all start at zero stay
/// zero, so the drawn seats keep their fitted heights.
pub proof fn relaxation_moves_nothing_unpinned(edges: Seq<Edge>, pinned: Seq<bool>, c: Seq<int>, k: int)
    requires
        edges_fit(edges, c.len() as int),
        forall|i: int| 0 <= i < c.len() ==> #[trigger] c[i] == 0,
    ensures
        relaxed(edges, pinned, c, k) == c,
    decreases k,
{
    if k > 0 {
        relaxation_moves_nothing_unpinned(edges, pinned, c, k - 1);
        let next = swept(edges, pinned, c);
        assert forall|node: int| 0 <= node < c.len() implies #[trigger] next[node] == c[node] by {
            lemma_no_pull(edges, c, node, edges.len() as int);
            lemma_pull_bounds(edges, c, node, edges.len() as int);
            let d = GROUND_MASS + mass(edges, node, edges.len() as int);
            assert(0int / d == 0) by (nonlinear_arith)
                requires
                    d > 0,
            ;
        }
        assert(next =~= c);
    }
}

/// One relaxation sweep over the correction field.
fn sweep(edges: &Vec<Edge>, pinned: &Vec<bool>, c: &Vec<i64>, Ghost(cs): Ghost<Seq<int>>) -> (out: Vec<i64>)
    requires
        pinned@.len() == c@.len(),
        cs.len() == c@.len(),
        forall|k: int| 0 <= k < c@.len() ==> #[trigger] c@[k] == cs[k],
        edges_fit(edges@, c@.len() as int),
        within_reach(cs),
    ensures
        out@.len() == c@.len(),
        forall|k: int| 0 <= k < out@.len() ==> #[trigger] out@[k] == swept(edges@, pinned@, cs)[k],
{
    let n: usize = c.len();
    let mut pulls: Vec<i128> = Vec::new();
    let mut masses: Vec<u64> = Vec::new();
    let mut i: usize = 0;
    while i < n
        invariant
            i <= n,
            pulls@.len() == i,
            masses@.len() == i,
            forall|k: int| 0 <= k < i ==> #[trigger] pulls@[k] == 0,
            forall|k: int| 0 <= k < i ==> #[trigger] masses@[k] == 0,
        decreases n - i,
    {
        pulls.push(0);
        masses.push(0);
        i = i + 1;
    }
    let mut e: usize = 0;
    while e < edges.len()
        invariant
            e <= edges@.len(),
            n == c@.len(),
            cs.len() == n,
            pulls@.len() == n,
            masses@.len() == n,
            forall|k: int| 0 <= k < c@.len() ==> #[trigger] c@[k] == cs[k],
            edges_fit(edges@, n as int),
            within_reach(cs),
            forall|k: int| 0 <= k < n ==> #[trigger] pulls@[k] == pull(edges@, cs, k, e as int),
            forall|k: int| 0 <= k < n ==> #[trigger] masses@[k] == mass(edges@, k, e as int),
        decreases edges@.len() - e,
    {
        let edge: Edge = edges[e];
        let a: usize = edge.a as usize;
        let b: usize = edge.b as usize;
        proof {
            assert(edges@[e as int].a < n);
            lemma_pull_bounds(edges@, cs, a as int, e as int);
            lemma_pull_bounds(edges@, cs, b as int, e as int);
            lemma_pull_bounds(edges@, cs, a as int, e + 1);
            lemma_pull_bounds(edges@, cs, b as int, e + 1);
            lemma_reach_product(mass(edges@, a as int, e as int));
            lemma_reach_product(mass(edges@, b as int, e as int));
            lemma_reach_product(mass(edges@, a as int, e + 1));
            lemma_reach_product(mass(edges@, b as int, e + 1));
            let w = edge.weight as int;
            assert(-REACH_UM <= cs[a as int] <= REACH_UM && -REACH_UM <= cs[b as int] <= REACH_UM);
            let ca = cs[a as int];
            let cb = cs[b as int];
            assert(-6_000_000_000_000_000 <= w * ca <= 6_000_000_000_000_000) by (nonlinear_arith)
                requires
                    -3_000_000 <= ca <= 3_000_000,
                    0 <= w <= 2_000_000_000,
            ;
            assert(-6_000_000_000_000_000 <= w * cb <= 6_000_000_000_000_000) by (nonlinear_arith)
                requires
                    -3_000_000 <= cb <= 3_000_000,
                    0 <= w <= 2_000_000_000,
            ;
        }
        let w: i128 = edge.weight as i128;
        let to_a: i128 = pulls[a] + w * c[b] as i128;
        let to_b: i128 = pulls[b] + w * c[a] as i128;
        let mass_a: u64 = masses[a] + edge.weight;
        let mass_b: u64 = masses[b] + edge.weight;
        pulls.set(a, to_a);
        pulls.set(b, to_b);
        masses.set(a, mass_a);
        masses.set(b, mass_b);
        e = e + 1;
    }
    let mut out: Vec<i64> = Vec::new();
    let mut i: usize = 0;
    while i < n
        invariant
            i <= n,
            n == c@.len(),
            cs.len() == n,
            pulls@.len() == n,
            masses@.len() == n,
            pinned@.len() == n,
            forall|k: int| 0 <= k < c@.len() ==> #[trigger] c@[k] == cs[k],
            edges_fit(edges@, n as int),
            within_reach(cs),
            forall|k: int| 0 <= k < n ==> #[trigger] pulls@[k] == pull(edges@, cs, k, edges@.len() as int),
            forall|k: int| 0 <= k < n ==> #[trigger] masses@[k] == mass(edges@, k, edges@.len() as int),
            out@.len() == i,
            forall|k: int| 0 <= k < i ==> #[trigger] out@[k] == swept(edges@, pinned@, cs)[k],
        decreases n - i,
    {
        if pinned[i] || masses[i] == 0 {
            out.push(c[i]);
        } else {
            proof {
                lemma_pull_bounds(edges@, cs, i as int, edges@.len() as int);
                lemma_reach_product(mass(edges@, i as int, edges@.len() as int));
                let m = masses@[i as int] as int;
                let p = pulls@[i as int] as int;
                assert(-REACH_UM * (GROUND_MASS + m) <= p <= REACH_UM * (GROUND_MASS + m)) by (nonlinear_arith)
                    requires
                        -REACH_UM * m <= p <= REACH_UM * m,
                        0 <= m,
                ;
                lemma_quot_bounds(p, GROUND_MASS + m, REACH_UM as int);
            }
            let total: u128 = GROUND_MASS as u128 + masses[i] as u128;
            let q: i128 = quot_of(pulls[i], total);
            out.push(q as i64);
        }
        i = i + 1;
    }
    out
}

proof fn lemma_reach_product(m: int)
    requires
        0 <= m <= 2_000_000_000 * 0xffff_ffff,
    ensures
        0 <= REACH_UM * m <= 0x100_0000_0000_0000_0000_0000,
        -REACH_UM * m == -(REACH_UM * m),
{
    assert(0 <= 3_000_000 * m <= 0x100_0000_0000_0000_0000_0000);
}

// ---------------------------------------------------------------------------
// The graph.
// ---------------------------------------------------------------------------

/// The joint graph: one node per joint, one height per node.
pub struct WalkGraph {
    /// Node per band-end slot, [`NO_NODE`] off the graph.
    pub node_of_slot: Vec<u32>,
    /// Solved height per node.
    pub height: Vec<i64>,
    /// The slot naming each node's joint; its end is the node's position.
    pub at: Vec<u32>,
    /// The ground each node starts from.
    pub seed: Vec<i64>,
    /// Whether a hosted seat or a street holds the node.
    pub pinned: Vec<bool>,
    /// Nodes where two or more bands stand.
    pub multi: u64,
    /// Nodes where bands of two or more corridors stand.
    pub multi_corridor: u64,
    /// Connector unions that joined two different joints.
    pub connector_unions: u64,
    /// Bands joined because a free end stands on them.
    pub t_hosts: u64,
    /// Nodes pinned to a street.
    pub street_pins: u64,
    /// Pins declined as out of reach.
    pub out_of_reach: u64,
    /// Stub ends seated on a hosted band.
    pub stub_pins: u64,
    /// Seat spread of every node where two or more bands stand, with the slot
    /// naming it and whether hosted and free members meet there.
    pub spreads: Vec<(u64, u32, bool)>,
}

/// Counts gathered over the nodes.
pub struct Census {
    pub multi: int,
    pub multi_corridor: int,
    pub street_pins: int,
    pub out_of_reach: int,
    pub spreads: Seq<(u64, u32, bool)>,
}

/// The census of the joints among the first `n` slots.
pub open spec fn census_of(net: Net, n: int) -> Census
    decreases n,
{
    if n <= 0 {
        Census { multi: 0, multi_corridor: 0, street_pins: 0, out_of_reach: 0, spreads: Seq::empty() }
    } else {
        let c = census_of(net, n - 1);
        let m = joint_members(net, n - 1);
        let street = street_of(net, n - 1);
        if !is_node(net, n - 1) {
            c
        } else {
            Census {
                multi: c.multi + if multi_band(m) {
                    1int
                } else {
                    0
                },
                multi_corridor: c.multi_corridor + if multi_band(m) && multi_corridor(net.bands, m) {
                    1int
                } else {
                    0
                },
                street_pins: c.street_pins + if street_pinned(m, street) {
                    1int
                } else {
                    0
                },
                out_of_reach: c.out_of_reach + if declined(m, street) {
                    1int
                } else {
                    0
                },
                spreads: if multi_band(m) {
                    c.spreads.push(
                        (seat_spread(m) as u64, (n - 1) as u32, has_seat(m, true) && has_seat(m, false)),
                    )
                } else {
                    c.spreads
                },
            }
        }
    }
}

/// The correction every node starts relaxation with: what its pin moved it by.
pub open spec fn first_corrections(net: Net) -> Seq<int> {
    Seq::new(
        nodes(net).len(),
        |k: int|
            if node_pinned(net, k) {
                own_height(members_at(net, k), street_at_node(net, k)) - seed_of(members_at(net, k))
            } else {
                0
            },
    )
}

pub open spec fn pins(net: Net) -> Seq<bool> {
    Seq::new(nodes(net).len(), |k: int| node_pinned(net, k))
}

/// The solved height of a node: its pin, or its seed with the relaxed
/// correction of its neighbourhood, bounded by the reach.
pub open spec fn solved_height(net: Net, k: int) -> int {
    let m = members_at(net, k);
    if node_pinned(net, k) {
        own_height(m, street_at_node(net, k))
    } else {
        seed_of(m) + clamp(
            relaxed(edges_of(net, net.bands.len() as int), pins(net), first_corrections(net), SWEEPS as int)[k],
            -REACH_UM as int,
            REACH_UM as int,
        )
    }
}

impl WalkGraph {
    /// What the graph of a network holds.
    pub open spec fn describes(&self, net: Net) -> bool {
        &&& self.node_of_slot@.len() == slot_count(net.bands)
        &&& forall|s: int| 0 <= s < self.node_of_slot@.len() ==> #[trigger] self.node_of_slot@[s] == node_of(net, s)
        &&& self.at@.len() == nodes(net).len()
        &&& self.seed@.len() == nodes(net).len()
        &&& self.height@.len() == nodes(net).len()
        &&& self.pinned@ == pins(net)
        &&& forall|k: int| 0 <= k < self.at@.len() ==> #[trigger] self.at@[k] == nodes(net)[k]
        &&& forall|k: int| 0 <= k < self.seed@.len() ==> #[trigger] self.seed@[k] == seed_of(members_at(net, k))
        &&& forall|k: int| 0 <= k < self.height@.len() ==> #[trigger] self.height@[k] == solved_height(net, k)
        &&& self.t_hosts == standing_count(net, net.standing.len() as int)
        &&& self.stub_pins == stub_count(net, net.stubs.len() as int)
        &&& self.multi == census_of(net, slot_count(net.bands)).multi
        &&& self.multi_corridor == census_of(net, slot_count(net.bands)).multi_corridor
        &&& self.street_pins == census_of(net, slot_count(net.bands)).street_pins
        &&& self.out_of_reach == census_of(net, slot_count(net.bands)).out_of_reach
        &&& self.spreads@ == census_of(net, slot_count(net.bands)).spreads
    }

    /// Every node named has a height, and every slot is off the graph or names
    /// a node.
    pub open spec fn well_formed(&self) -> bool {
        &&& self.height@.len() < NO_NODE
        &&& self.pinned@.len() == self.height@.len()
        &&& forall|s: int|
            0 <= s < self.node_of_slot@.len() ==> #[trigger] self.node_of_slot@[s] == NO_NODE || self.node_of_slot@[s]
                < self.height@.len()
    }
}

proof fn lemma_census_bounds(net: Net, n: int)
    requires
        0 <= n,
    ensures
        0 <= census_of(net, n).multi <= n,
        0 <= census_of(net, n).multi_corridor <= n,
        0 <= census_of(net, n).street_pins <= n,
        0 <= census_of(net, n).out_of_reach <= n,
    decreases n,
{
    if n > 0 {
        lemma_census_bounds(net, n - 1);
    }
}

proof fn lemma_edges_fit(net: Net, n: int)
    requires
        net_fits(net),
        0 <= n <= net.bands.len(),
    ensures
        edges_of(net, n).len() <= n,
        edges_fit(edges_of(net, n), nodes(net).len() as int),
    decreases n,
{
    if n > 0 {
        lemma_edges_fit(net, n - 1);
        let i = n - 1;
        if is_edge(net, i) {
            assert(live(net.bands, 2 * i) && live(net.bands, 2 * i + 1));
            lemma_node_of(net, 2 * i);
            lemma_node_of(net, 2 * i + 1);
            lemma_node_roots(net, slot_count(net.bands));
            lemma_edge_weight(net.bands[i].length as int);
        }
    }
}

proof fn lemma_edge_weight(length: int)
    ensures
        0 <= edge_weight(length) <= 2_000_000_000,
{
    let d = if length < MIN_EDGE_UM {
        MIN_EDGE_UM as int
    } else {
        length
    };
    assert(0 <= 1_000_000_000_000_000int / d <= 2_000_000_000) by (nonlinear_arith)
        requires
            d >= 500_000,
    ;
}

impl WalkGraph {
    /// Builds the joint graph of the bands.
    pub fn build_inner(bands: &[Band], sources: &[u64], evidence: &Evidence, stub_reach: u64) -> (g: WalkGraph)
        requires
            bands_fit(bands@),
            evidence.well_formed(bands@),
        ensures
            g.describes(net_of(bands@, sources@, *evidence, stub_reach as int)),
            g.connector_unions == connector_unions(bands@, *evidence),
            g.well_formed(),
    {
        let ghost net = net_of(bands@, sources@, *evidence, stub_reach as int);
        let n: usize = bands.len() * 2;
        let (roots, unions): (Vec<u32>, u64) = unite(bands, evidence);
        proof {
            assert forall|i: int| 0 <= i < roots@.len() implies #[trigger] roots@[i] == net.sets[i] by {
                assert(roots@.map_values(|r: u32| r as int)[i] == net.sets[i]);
            }
        }
        let (joints, hosts, seated): (Vec<Vec<Member>>, u64, u64) = gather(
            bands,
            sources,
            evidence,
            stub_reach,
            &roots,
            Ghost(net),
        );
        let (street_totals, streets): (Vec<i128>, Vec<u64>) = street_pins_of(evidence, &roots, n, Ghost(net));

        let mut g = WalkGraph {
            node_of_slot: Vec::new(),
            height: Vec::new(),
            at: Vec::new(),
            seed: Vec::new(),
            pinned: Vec::new(),
            multi: 0,
            multi_corridor: 0,
            connector_unions: unions,
            t_hosts: hosts,
            street_pins: 0,
            out_of_reach: 0,
            stub_pins: seated,
            spreads: Vec::new(),
        };
        // The node each joint name stands for, and every node's own height.
        let mut node_of_root: Vec<u32> = Vec::new();
        let mut r: usize = 0;
        while r < n
            invariant
                r <= n,
                n == slot_count(bands@),
                n < u32::MAX,
                net == net_of(bands@, sources@, *evidence, stub_reach as int),
                net_fits(net),
                roots@.len() == n,
                forall|i: int| 0 <= i < roots@.len() ==> #[trigger] roots@[i] == net.sets[i],
                joints@.len() == n,
                forall|i: int| 0 <= i < joints@.len() ==> (#[trigger] joints@[i])@ == joint_members(net, i),
                street_totals@.len() == n,
                streets@.len() == n,
                forall|i: int| 0 <= i < n ==> #[trigger] street_totals@[i] == street_sum(net, i, net.seeds.len() as int),
                forall|i: int| 0 <= i < n ==> #[trigger] streets@[i] == street_count(net, i, net.seeds.len() as int),
                g.node_of_slot@.len() == 0,
                g.connector_unions == unions,
                g.t_hosts == hosts,
                g.stub_pins == seated,
                g.at@.len() == node_roots(net, r as int).len(),
                g.seed@.len() == g.at@.len(),
                g.height@.len() == g.at@.len(),
                g.pinned@.len() == g.at@.len(),
                forall|k: int| 0 <= k < g.at@.len() ==> #[trigger] g.at@[k] == node_roots(net, r as int)[k],
                forall|k: int| 0 <= k < g.at@.len() ==> #[trigger] g.seed@[k] == seed_of(joint_members(net, node_roots(net, r as int)[k])),
                forall|k: int| 0 <= k < g.at@.len() ==> height_fits(#[trigger] g.seed@[k] as int),
                forall|k: int| 0 <= k < g.at@.len() ==> #[trigger] g.height@[k] == own_height(
                    joint_members(net, node_roots(net, r as int)[k]),
                    street_of(net, node_roots(net, r as int)[k]),
                ),
                forall|k: int| 0 <= k < g.at@.len() ==> #[trigger] g.pinned@[k] == (pin_of(
                    joint_members(net, node_roots(net, r as int)[k]),
                    street_of(net, node_roots(net, r as int)[k]),
                ) is Some),
                node_of_root@.len() == r,
                forall|i: int| 0 <= i < r && is_node(net, i) ==> #[trigger] node_of_root@[i] == node_roots(net, i).len(),
                g.multi == census_of(net, r as int).multi,
                g.multi_corridor == census_of(net, r as int).multi_corridor,
                g.street_pins == census_of(net, r as int).street_pins,
                g.out_of_reach == census_of(net, r as int).out_of_reach,
                g.spreads@ == census_of(net, r as int).spreads,
            decreases n - r,
        {
            proof {
                lemma_node_roots(net, r as int);
                lemma_census_bounds(net, r as int);
            }
            node_of_root.push(g.at.len() as u32);
            if bands[r / 2].level == 0 && roots[r] as usize == r {
                proof {
                    lemma_joint_members_fit(net, r as int);
                    lemma_street_sum(net, r as int, net.seeds.len() as int);
                    assert(joints@[r as int]@ == joint_members(net, r as int));
                }
                let members: &Vec<Member> = &joints[r];
                let j: Resolved = resolve(bands, members, street_totals[r], streets[r], Ghost(street_of(net, r as int)));
                g.at.push(r as u32);
                g.seed.push(j.seed);
                g.height.push(j.height);
                g.pinned.push(j.pinned);
                if j.from_street {
                    g.street_pins = g.street_pins + 1;
                }
                if j.declined {
                    g.out_of_reach = g.out_of_reach + 1;
                }
                if j.multi_band {
                    g.multi = g.multi + 1;
                    if j.multi_corridor {
                        g.multi_corridor = g.multi_corridor + 1;
                    }
                    g.spreads.push((j.spread, r as u32, j.mixed));
                }
            }
            r = r + 1;
        }
        let count: usize = g.at.len();
        proof {
            lemma_node_roots(net, slot_count(net.bands));
        }
        // The node each slot stands at.
        let mut s: usize = 0;
        let mut slots: Vec<u32> = Vec::new();
        while s < n
            invariant
                s <= n,
                n == slot_count(bands@),
                n < u32::MAX,
                net.bands == bands@,
                net_fits(net),
                roots@.len() == n,
                forall|i: int| 0 <= i < roots@.len() ==> #[trigger] roots@[i] == net.sets[i],
                node_of_root@.len() == n,
                forall|i: int| 0 <= i < n && is_node(net, i) ==> #[trigger] node_of_root@[i] == node_roots(net, i).len(),
                slots@.len() == s,
                forall|i: int| 0 <= i < s ==> #[trigger] slots@[i] == node_of(net, i),
                count == nodes(net).len(),
                forall|i: int| 0 <= i < s ==> #[trigger] slots@[i] == NO_NODE || slots@[i] < count,
            decreases n - s,
        {
            if bands[s / 2].level == 0 {
                proof {
                    assert(live(net.bands, s as int));
                    assert(live(net.bands, net.sets[s as int]));
                    assert(net.sets[net.sets[s as int]] == net.sets[s as int]);
                    assert(is_node(net, net.sets[s as int]));
                    lemma_node_of(net, s as int);
                }
                slots.push(node_of_root[roots[s] as usize]);
            } else {
                slots.push(NO_NODE);
            }
            s = s + 1;
        }
        // One edge per free band between two different nodes.
        let mut edges: Vec<Edge> = Vec::new();
        let mut i: usize = 0;
        while i < bands.len()
            invariant
                i <= bands@.len(),
                n == slot_count(bands@),
                net.bands == bands@,
                net_fits(net),
                slots@.len() == n,
                forall|k: int| 0 <= k < n ==> #[trigger] slots@[k] == node_of(net, k),
                edges@ == edges_of(net, i as int),
            decreases bands@.len() - i,
        {
            let band: Band = bands[i];
            if band.level == 0 && band.corridor == NO_HOST {
                let a: u32 = slots[2 * i];
                let b: u32 = slots[2 * i + 1];
                if a != b {
                    let length: u64 = if band.length < MIN_EDGE_UM { MIN_EDGE_UM } else { band.length };
                    proof {
                        lemma_edge_weight(band.length as int);
                    }
                    edges.push(Edge { a, b, weight: UNIT_WEIGHT / length });
                }
            }
            i = i + 1;
        }
        // The correction field: pins hold theirs, free nodes relax.
        let ghost first = first_corrections(net);
        proof {
            assert forall|j: int| 0 <= j < count implies members_at(net, j).len() > 0 by {
                assert(is_node(net, nodes(net)[j]));
                lemma_joint_members_fit(net, nodes(net)[j]);
            }
        }
        let mut c: Vec<i64> = Vec::new();
        let mut k: usize = 0;
        while k < count
            invariant
                k <= count,
                count == nodes(net).len(),
                first == first_corrections(net),
                g.seed@.len() == count,
                g.height@.len() == count,
                g.pinned@.len() == count,
                forall|j: int| 0 <= j < count ==> height_fits(#[trigger] g.seed@[j] as int),
                forall|j: int| 0 <= j < count ==> #[trigger] g.seed@[j] == seed_of(members_at(net, j)),
                forall|j: int| 0 <= j < count ==> #[trigger] g.height@[j] == own_height(members_at(net, j), street_at_node(net, j)),
                forall|j: int| 0 <= j < count ==> #[trigger] g.pinned@[j] == node_pinned(net, j),
                forall|j: int| 0 <= j < count ==> members_at(net, j).len() > 0,
                c@.len() == k,
                forall|j: int| 0 <= j < k ==> #[trigger] c@[j] == first[j],
                forall|j: int| 0 <= j < k ==> -REACH_UM <= #[trigger] first[j] <= REACH_UM,
            decreases count - k,
        {
            proof {
                a_pin_stays_within_reach(members_at(net, k as int), street_at_node(net, k as int));
                assert(height_fits(g.seed@[k as int] as int));
            }
            if g.pinned[k] {
                c.push((g.height[k] as i128 - g.seed[k] as i128) as i64);
            } else {
                c.push(0);
            }
            k = k + 1;
        }
        proof {
            lemma_edges_fit(net, bands@.len() as int);
            assert(g.pinned@ =~= pins(net));
        }
        let ghost mut field = first;
        let mut round: u32 = 0;
        while round < SWEEPS
            invariant
                round <= SWEEPS,
                c@.len() == count,
                first.len() == count,
                g.pinned@.len() == count,
                field == relaxed(edges@, g.pinned@, first, round as int),
                field.len() == count,
                forall|j: int| 0 <= j < count ==> #[trigger] c@[j] == field[j],
                edges_fit(edges@, count as int),
                within_reach(first),
            decreases SWEEPS - round,
        {
            proof {
                relaxation_stays_within_reach(edges@, g.pinned@, first, round as int);
            }
            c = sweep(&edges, &g.pinned, &c, Ghost(field));
            proof {
                field = swept(edges@, g.pinned@, field);
            }
            round = round + 1;
        }
        let ghost own = g.height@;
        let mut k: usize = 0;
        while k < count
            invariant
                k <= count,
                count == nodes(net).len(),
                own.len() == count,
                c@.len() == count,
                field.len() == count,
                g.seed@.len() == count,
                g.height@.len() == count,
                g.pinned@ == pins(net),
                g.at@.len() == count,
                field == relaxed(edges_of(net, net.bands.len() as int), pins(net), first_corrections(net), SWEEPS as int),
                forall|j: int| 0 <= j < count ==> #[trigger] c@[j] == field[j],
                forall|j: int| 0 <= j < count ==> height_fits(#[trigger] g.seed@[j] as int),
                forall|j: int| 0 <= j < count ==> #[trigger] g.seed@[j] == seed_of(members_at(net, j)),
                forall|j: int| 0 <= j < count ==> #[trigger] own[j] == own_height(members_at(net, j), street_at_node(net, j)),
                forall|j: int| k <= j < count ==> #[trigger] g.height@[j] == own[j],
                forall|j: int| 0 <= j < k ==> #[trigger] g.height@[j] == solved_height(net, j),
                forall|j: int| 0 <= j < g.at@.len() ==> #[trigger] g.at@[j] == nodes(net)[j],
                g.node_of_slot@.len() == 0,
                g.connector_unions == unions,
                g.t_hosts == hosts,
                g.stub_pins == seated,
                g.multi == census_of(net, slot_count(net.bands)).multi,
                g.multi_corridor == census_of(net, slot_count(net.bands)).multi_corridor,
                g.street_pins == census_of(net, slot_count(net.bands)).street_pins,
                g.out_of_reach == census_of(net, slot_count(net.bands)).out_of_reach,
                g.spreads@ == census_of(net, slot_count(net.bands)).spreads,
            decreases count - k,
        {
            assert(height_fits(g.seed@[k as int] as int));
            if !g.pinned[k] {
                let bound: i64 = if c[k] < -REACH_UM {
                    -REACH_UM
                } else if c[k] > REACH_UM {
                    REACH_UM
                } else {
                    c[k]
                };
                let h: i64 = g.seed[k] + bound;
                g.height.set(k, h);
            }
            k = k + 1;
        }
        g.node_of_slot = slots;
        g
    }

    /// Builds the joint graph of the bands from the evidence in `plan`, its
    /// seeds replaced by those read from the connectors of the pedestrian lines
    /// and the streets.
    pub fn build(
        lines: &[WalkLine],
        streets: &[Street],
        bands: &[Band],
        sources: &[u64],
        plan: Evidence,
        stub_reach: u64,
    ) -> (g: WalkGraph)
        requires
            lines_fit(lines@),
            streets_fit(streets@),
            lines@.len() + streets@.len() < u64::MAX,
            bands_fit(bands@),
            plan.well_formed(bands@),
            forall|i: int, k: int, e: int|
                0 <= i < lines@.len() && 0 <= k < lines@[i].ends@.len() && 0 <= e < lines@[i].ends@[k]@.len()
                    ==> live(bands@, #[trigger] lines@[i].ends@[k]@[e] as int),
        ensures
            g.well_formed(),
            exists|evidence: Evidence|
                {
                    &&& evidence.coincident == plan.coincident
                    &&& evidence.standing == plan.standing
                    &&& evidence.stubs == plan.stubs
                    &&& #[trigger] seeds_are(
                        lines@,
                        streets@,
                        evidence.seeds@,
                        shared_positions(lines@, streets@, lines@.len() as int),
                    )
                    &&& g.describes(net_of(bands@, sources@, evidence, stub_reach as int))
                    &&& g.connector_unions == connector_unions(bands@, evidence)
                },
    {
        let seeds: Vec<ConnectorSeed> = connector_seeds(lines, streets);
        let evidence = Evidence { coincident: plan.coincident, seeds, standing: plan.standing, stubs: plan.stubs };
        proof {
            let at = shared_positions(lines@, streets@, lines@.len() as int);
            lemma_shared_positions(lines@, streets@, lines@.len() as int);
            assert forall|s: int| 0 <= s < evidence.seeds@.len() implies seed_fits(bands@, #[trigger] evidence.seeds@[s]) by {
                let (i, k) = at[s];
                assert(evidence.seeds@[s].ends@ == lines@[i].ends@[k]@);
                assert forall|e: int| 0 <= e < evidence.seeds@[s].ends@.len() implies live(
                    bands@,
                    #[trigger] evidence.seeds@[s].ends@[e] as int,
                ) by {
                    assert(live(bands@, lines@[i].ends@[k]@[e] as int));
                }
            }
        }
        Self::build_inner(bands, sources, &evidence, stub_reach)
    }
}

/// The street surfaces that connectors put at each joint: their sum and count
/// by joint name.
fn street_pins_of(evidence: &Evidence, roots: &Vec<u32>, n: usize, Ghost(net): Ghost<Net>) -> (out: (Vec<i128>, Vec<u64>))
    requires
        net_fits(net),
        net.seeds == evidence.seeds@,
        n == slot_count(net.bands),
        roots@.len() == n,
        forall|i: int| 0 <= i < roots@.len() ==> #[trigger] roots@[i] == net.sets[i],
    ensures
        out.0@.len() == n,
        out.1@.len() == n,
        forall|r: int| 0 <= r < n ==> #[trigger] out.0@[r] == street_sum(net, r, net.seeds.len() as int),
        forall|r: int| 0 <= r < n ==> #[trigger] out.1@[r] == street_count(net, r, net.seeds.len() as int),
{
    let mut totals: Vec<i128> = Vec::new();
    let mut counts: Vec<u64> = Vec::new();
    let mut i: usize = 0;
    while i < n
        invariant
            i <= n,
            totals@.len() == i,
            counts@.len() == i,
            forall|r: int| 0 <= r < i ==> #[trigger] totals@[r] == 0,
            forall|r: int| 0 <= r < i ==> #[trigger] counts@[r] == 0,
        decreases n - i,
    {
        totals.push(0);
        counts.push(0);
        i = i + 1;
    }
    let mut s: usize = 0;
    while s < evidence.seeds.len()
        invariant
            s <= evidence.seeds@.len(),
            net_fits(net),
            net.seeds == evidence.seeds@,
            n == slot_count(net.bands),
            roots@.len() == n,
            forall|i: int| 0 <= i < roots@.len() ==> #[trigger] roots@[i] == net.sets[i],
            totals@.len() == n,
            counts@.len() == n,
            forall|r: int| 0 <= r < n ==> #[trigger] totals@[r] == street_sum(net, r, s as int),
            forall|r: int| 0 <= r < n ==> #[trigger] counts@[r] == street_count(net, r, s as int),
        decreases evidence.seeds@.len() - s,
    {
        let seed: &ConnectorSeed = &evidence.seeds[s];
        assert(seed_fits(net.bands, net.seeds[s as int]));
        if seed.ends.len() > 0 {
            if let Some(street) = seed.street {
                assert(live(net.bands, seed.ends@[0] as int));
                let root: usize = roots[seed.ends[0] as usize] as usize;
                proof {
                    assert(0 <= net.sets[seed.ends@[0] as int] <= seed.ends@[0]);
                    lemma_street_sum(net, root as int, s as int);
                    lemma_sum_fits(street_sum(net, root as int, s as int), street_count(net, root as int, s as int));
                }
                let total: i128 = totals[root] + street as i128;
                let count: u64 = counts[root] + 1;
                totals.set(root, total);
                counts.set(root, count);
            }
        }
        s = s + 1;
    }
    (totals, counts)
}

/// A node seen from a plan point: which one, and how far away.
#[derive(Clone, Copy, Debug, PartialEq, Eq, Structural)]
pub struct NodeAt {
    pub node: u32,
    pub distance: u64,
}

/// The nearest of the first `n` nodes within `eps`, ties to the lower node.
pub open spec fn nearest_node(seen: Seq<NodeAt>, eps: int, n: int) -> Option<NodeAt>
    decreases n,
{
    if n <= 0 {
        None
    } else {
        let best = nearest_node(seen, eps, n - 1);
        let c = seen[n - 1];
        if c.distance <= eps && (best is None || c.distance < best->0.distance || (c.distance == best->0.distance
            && c.node < best->0.node)) {
            Some(c)
        } else {
            best
        }
    }
}

/// The node a plan point reads is the nearest within reach, ties to the lower
/// node, whatever order the nodes were seen in.
pub proof fn the_nearest_node_wins(seen: Seq<NodeAt>, eps: int, n: int)
    requires
        0 <= n <= seen.len(),
    ensures
        match nearest_node(seen, eps, n) {
            Some(b) => {
                &&& b.distance <= eps
                &&& exists|k: int| 0 <= k < n && #[trigger] seen[k] == b
                &&& forall|k: int|
                    0 <= k < n && (#[trigger] seen[k]).distance <= eps ==> b.distance < seen[k].distance || (
                    b.distance == seen[k].distance && b.node <= seen[k].node)
            },
            None => forall|k: int| 0 <= k < n ==> (#[trigger] seen[k]).distance > eps,
        },
    decreases n,
{
    if n > 0 {
        the_nearest_node_wins(seen, eps, n - 1);
        if let Some(b) = nearest_node(seen, eps, n - 1) {
            let k0 = choose|k: int| 0 <= k < n - 1 && #[trigger] seen[k] == b;
            assert(seen[k0] == b);
        }
    }
}

fn node_near(seen: &[NodeAt], eps: u64) -> (out: Option<NodeAt>)
    ensures
        out == nearest_node(seen@, eps as int, seen@.len() as int),
{
    let mut best: Option<NodeAt> = None;
    let mut k: usize = 0;
    while k < seen.len()
        invariant
            k <= seen@.len(),
            best == nearest_node(seen@, eps as int, k as int),
        decreases seen@.len() - k,
    {
        let c: NodeAt = seen[k];
        if c.distance <= eps {
            let better: bool = match best {
                None => true,
                Some(b) => c.distance < b.distance || (c.distance == b.distance && c.node < b.node),
            };
            if better {
                best = Some(c);
            }
        }
        k = k + 1;
    }
    best
}

/// The band after the graph's heights are written onto it: a free band on the
/// graph takes its end nodes' heights, every other band is left alone.
pub open spec fn stamped(g: WalkGraph, bands: Seq<Band>, i: int) -> Band {
    let b = bands[i];
    let na = g.node_of_slot@[2 * i];
    let nb = g.node_of_slot@[2 * i + 1];
    if b.level != 0 || b.corridor != NO_HOST {
        b
    } else {
        Band {
            height_a: if na != NO_NODE {
                g.height@[na as int]
            } else {
                b.height_a
            },
            height_b: if nb != NO_NODE {
                g.height@[nb as int]
            } else {
                b.height_b
            },
            ..b
        }
    }
}

impl WalkGraph {
    /// The solved height of the joint nearest a plan point, when one stands
    /// within `eps` of it. `seen` holds the nodes around the point.
    pub fn height_near(&self, seen: &[NodeAt], eps: u64) -> (out: Option<i64>)
        requires
            forall|k: int| 0 <= k < seen@.len() ==> (#[trigger] seen@[k]).node < self.height@.len(),
        ensures
            out == (match nearest_node(seen@, eps as int, seen@.len() as int) {
                Some(b) => Some(self.height@[b.node as int]),
                None => None,
            }),
    {
        proof {
            the_nearest_node_wins(seen@, eps as int, seen@.len() as int);
        }
        match node_near(seen, eps) {
            Some(b) => Some(self.height[b.node as usize]),
            None => None,
        }
    }

    /// As [`Self::height_near`], but only where the joint is pinned.
    pub fn pinned_height_near(&self, seen: &[NodeAt], eps: u64) -> (out: Option<i64>)
        requires
            self.well_formed(),
            forall|k: int| 0 <= k < seen@.len() ==> (#[trigger] seen@[k]).node < self.height@.len(),
        ensures
            out == (match nearest_node(seen@, eps as int, seen@.len() as int) {
                Some(b) => if self.pinned@[b.node as int] {
                    Some(self.height@[b.node as int])
                } else {
                    None
                },
                None => None,
            }),
    {
        proof {
            the_nearest_node_wins(seen@, eps as int, seen@.len() as int);
        }
        match node_near(seen, eps) {
            Some(b) => if self.pinned[b.node as usize] {
                Some(self.height[b.node as usize])
            } else {
                None
            },
            None => None,
        }
    }

    /// Writes the node heights back onto the free bands' seats.
    pub fn stamp(&self, bands: &mut Vec<Band>)
        requires
            self.well_formed(),
            self.node_of_slot@.len() == 2 * old(bands)@.len(),
        ensures
            final(bands)@.len() == old(bands)@.len(),
            forall|i: int| 0 <= i < final(bands)@.len() ==> #[trigger] final(bands)@[i] == stamped(*self, old(bands)@, i),
    {
        let ghost before = bands@;
        let slots: usize = self.node_of_slot.len();
        let mut i: usize = 0;
        while i < bands.len()
            invariant
                i <= bands@.len(),
                bands@.len() == before.len(),
                self.well_formed(),
                self.node_of_slot@.len() == 2 * before.len(),
                slots == 2 * before.len(),
                forall|k: int| 0 <= k < i ==> #[trigger] bands@[k] == stamped(*self, before, k),
                forall|k: int| i <= k < before.len() ==> #[trigger] bands@[k] == before[k],
            decreases bands@.len() - i,
        {
            let mut b: Band = bands[i];
            assert(b == before[i as int]);
            if b.level == 0 && b.corridor == NO_HOST {
                assert(self.node_of_slot@[2 * i as int] == NO_NODE || self.node_of_slot@[2 * i as int] < self.height@.len());
                assert(self.node_of_slot@[2 * i as int + 1] == NO_NODE || self.node_of_slot@[2 * i as int + 1] < self.height@.len());
                let na: u32 = self.node_of_slot[2 * i];
                let nb: u32 = self.node_of_slot[2 * i + 1];
                if na != NO_NODE {
                    b.height_a = self.height[na as usize];
                }
                if nb != NO_NODE {
                    b.height_b = self.height[nb as usize];
                }
                bands.set(i, b);
            }
            i = i + 1;
        }
    }
}

/// A hosted band, and a band off the graph, is never moved.
pub proof fn hosted_bands_are_never_moved(g: WalkGraph, bands: Seq<Band>, i: int)
    requires
        0 <= i < bands.len(),
        bands[i].level != 0 || bands[i].corridor != NO_HOST,
    ensures
        stamped(g, bands, i) == bands[i],
{
}

/// Writing the heights moves seats and nothing else.
pub proof fn stamping_moves_seats_alone(g: WalkGraph, bands: Seq<Band>, i: int)
    requires
        0 <= i < bands.len(),
    ensures
        stamped(g, bands, i).level == bands[i].level,
        stamped(g, bands, i).corridor == bands[i].corridor,
        stamped(g, bands, i).length == bands[i].length,
{
}

/// A joint is one height: after stamping, free band ends of one joint carry
/// the same seat.
pub proof fn a_joint_is_one_height(g: WalkGraph, net: Net, a: int, b: int)
    requires
        net_fits(net),
        g.describes(net),
        live(net.bands, a),
        live(net.bands, b),
        !hosted(net.bands, a / 2),
        !hosted(net.bands, b / 2),
        net.sets[a] == net.sets[b],
    ensures
        seat(Seq::new(net.bands.len(), |i: int| stamped(g, net.bands, i)), a) == seat(
            Seq::new(net.bands.len(), |i: int| stamped(g, net.bands, i)),
            b,
        ),
{
    ends_share_a_node_iff_they_share_a_joint(net, a, b);
    lemma_node_roots(net, slot_count(net.bands));
    assert(g.node_of_slot@[a] == node_of(net, a));
    assert(g.node_of_slot@[b] == node_of(net, b));
    assert(a == 2 * (a / 2) || a == 2 * (a / 2) + 1);
    assert(b == 2 * (b / 2) || b == 2 * (b / 2) + 1);
}

/// Every solved height stays within the reach of the ground it was seeded
/// from.
pub proof fn every_height_stays_within_reach_of_its_seed(net: Net, k: int)
    requires
        net_fits(net),
        0 <= k < nodes(net).len(),
    ensures
        abs(solved_height(net, k) - seed_of(members_at(net, k))) <= REACH_UM,
{
    lemma_node_roots(net, slot_count(net.bands));
    lemma_joint_members_fit(net, nodes(net)[k]);
    a_pin_stays_within_reach(members_at(net, k), street_at_node(net, k));
}

/// Where a graph has no pins, no drawn seat's joint moves off its seed.
pub proof fn a_graph_without_pins_keeps_its_seeds(net: Net, k: int)
    requires
        net_fits(net),
        0 <= k < nodes(net).len(),
        forall|j: int| 0 <= j < nodes(net).len() ==> !#[trigger] node_pinned(net, j),
    ensures
        solved_height(net, k) == seed_of(members_at(net, k)),
{
    lemma_edges_fit(net, net.bands.len() as int);
    relaxation_moves_nothing_unpinned(
        edges_of(net, net.bands.len() as int),
        pins(net),
        first_corrections(net),
        SWEEPS as int,
    );
}

/// No band on the graph has a host, and no connector puts a street's surface at
/// a joint.
pub open spec fn nothing_pins(net: Net) -> bool {
    &&& forall|b: int| #[trigger] live_band(net.bands, b) ==> !hosted(net.bands, b)
    &&& forall|k: int| 0 <= k < net.seeds.len() ==> (#[trigger] net.seeds[k]).street is None
}

/// Everything standing at a joint has one seat.
pub open spec fn members_agree(m: Seq<Member>) -> bool {
    forall|i: int, j: int| 0 <= i < m.len() && 0 <= j < m.len() ==> (#[trigger] m[i]).height == (#[trigger] m[j]).height
}

/// Where nothing pins the graph and the members of every joint already agree,
/// stamping leaves every seat as it was.
pub proof fn a_settled_graph_moves_nothing(g: WalkGraph, net: Net, i: int)
    requires
        net_fits(net),
        g.describes(net),
        nothing_pins(net),
        forall|k: int| 0 <= k < nodes(net).len() ==> members_agree(#[trigger] members_at(net, k)),
        0 <= i < net.bands.len(),
    ensures
        stamped(g, net.bands, i) == net.bands[i],
{
    if live_band(net.bands, i) {
        lemma_settled_end(g, net, 2 * i);
        lemma_settled_end(g, net, 2 * i + 1);
    }
}

/// The height of an end's node is the end's own seat, where nothing pins the
/// graph and the members of every joint agree.
proof fn lemma_settled_end(g: WalkGraph, net: Net, slot: int)
    requires
        net_fits(net),
        g.describes(net),
        nothing_pins(net),
        forall|k: int| 0 <= k < nodes(net).len() ==> members_agree(#[trigger] members_at(net, k)),
        live(net.bands, slot),
    ensures
        0 <= g.node_of_slot@[slot] < g.height@.len(),
        g.height@[g.node_of_slot@[slot] as int] == seat(net.bands, slot),
{
    lemma_node_of(net, slot);
    assert(g.node_of_slot@[slot] == node_of(net, slot));
    let k = node_of(net, slot);
    let m = members_at(net, k);
    assert forall|j: int| 0 <= j < nodes(net).len() implies !#[trigger] node_pinned(net, j) by {
        lemma_no_hosted_member(net, nodes(net)[j]);
        lemma_no_street(net, nodes(net)[j], net.seeds.len() as int);
    }
    a_graph_without_pins_keeps_its_seeds(net, k);
    lemma_no_hosted_member(net, nodes(net)[k]);
    lemma_own_member(net, slot, slot_count(net.bands));
    let at = choose|at: int|
        0 <= at < own_members(net, net.sets[slot], slot_count(net.bands)).len() && (#[trigger] own_members(
            net,
            net.sets[slot],
            slot_count(net.bands),
        )[at]).height == seat(net.bands, slot);
    assert(m[at].height == seat(net.bands, slot));
    assert(members_agree(m));
    lemma_agreed_mean(m, seat(net.bands, slot) as int);
    assert(g.height@[k] == solved_height(net, k));
}

/// A live slot's own end is a member of its joint.
proof fn lemma_own_member(net: Net, slot: int, n: int)
    requires
        live(net.bands, slot),
        slot < n <= slot_count(net.bands),
    ensures
        exists|at: int|
            0 <= at < own_members(net, net.sets[slot], n).len() && (#[trigger] own_members(net, net.sets[slot], n)[at]).height
                == seat(net.bands, slot),
    decreases n,
{
    let r = net.sets[slot];
    let rest = own_members(net, r, n - 1);
    if slot == n - 1 {
        assert(own_members(net, r, n)[rest.len() as int].height == seat(net.bands, slot));
    } else {
        lemma_own_member(net, slot, n - 1);
        let at = choose|at: int| 0 <= at < rest.len() && (#[trigger] rest[at]).height == seat(net.bands, slot);
        assert(own_members(net, r, n)[at] == rest[at]);
    }
}

/// Where no band has a host, no joint has a hosted member.
proof fn lemma_no_hosted_member(net: Net, r: int)
    requires
        net_fits(net),
        nothing_pins(net),
    ensures
        forall|i: int| 0 <= i < joint_members(net, r).len() ==> !(#[trigger] joint_members(net, r)[i]).hosted,
        !has_seat(joint_members(net, r), true),
{
    lemma_no_hosted_own(net, r, slot_count(net.bands));
    lemma_no_hosted_standing(net, r, net.standing.len() as int);
    lemma_no_stub_members(net, r, net.stubs.len() as int);
    let m = joint_members(net, r);
    lemma_free_count(m, m.len() as int);
}

proof fn lemma_no_hosted_own(net: Net, r: int, n: int)
    requires
        nothing_pins(net),
    ensures
        forall|i: int| 0 <= i < own_members(net, r, n).len() ==> !(#[trigger] own_members(net, r, n)[i]).hosted,
    decreases n,
{
    if n > 0 {
        lemma_no_hosted_own(net, r, n - 1);
        let rest = own_members(net, r, n - 1);
        let all = own_members(net, r, n);
        assert forall|i: int| 0 <= i < all.len() implies !(#[trigger] all[i]).hosted by {
            if i < rest.len() {
                assert(all[i] == rest[i]);
            } else {
                assert(live_band(net.bands, (n - 1) / 2));
            }
        }
    }
}

proof fn lemma_no_hosted_standing(net: Net, r: int, n: int)
    requires
        net_fits(net),
        nothing_pins(net),
        n <= net.standing.len(),
    ensures
        forall|i: int| 0 <= i < standing_members(net, r, n).len() ==> !(#[trigger] standing_members(net, r, n)[i]).hosted,
    decreases n,
{
    if n > 0 {
        lemma_no_hosted_standing(net, r, n - 1);
        let rest = standing_members(net, r, n - 1);
        let all = standing_members(net, r, n);
        assert forall|i: int| 0 <= i < all.len() implies !(#[trigger] all[i]).hosted by {
            if i < rest.len() {
                assert(all[i] == rest[i]);
            } else {
                assert(standing_fits(net.bands, net.standing[n - 1]));
                assert(live_band(net.bands, net.standing[n - 1].band as int));
            }
        }
    }
}

proof fn lemma_no_stub_members(net: Net, r: int, n: int)
    requires
        net_fits(net),
        nothing_pins(net),
        n <= net.stubs.len(),
    ensures
        stub_members(net, r, n).len() == 0,
    decreases n,
{
    if n > 0 {
        lemma_no_stub_members(net, r, n - 1);
        let s = net.stubs[n - 1];
        assert(stub_fits(net.bands, s));
        lemma_no_host_near(net, s.near@, s.near@.len() as int);
    }
}

proof fn lemma_no_host_near(net: Net, near: Seq<Near>, n: int)
    requires
        nothing_pins(net),
        n <= near.len(),
        forall|k: int| 0 <= k < near.len() ==> live_band(net.bands, (#[trigger] near[k]).band as int),
    ensures
        nearest_host(net, near, n) is None,
    decreases n,
{
    if n > 0 {
        lemma_no_host_near(net, near, n - 1);
        assert(live_band(net.bands, near[n - 1].band as int));
    }
}

proof fn lemma_no_street(net: Net, r: int, n: int)
    requires
        nothing_pins(net),
        n <= net.seeds.len(),
    ensures
        street_count(net, r, n) == 0,
    decreases n,
{
    if n > 0 {
        lemma_no_street(net, r, n - 1);
        assert(net.seeds[n - 1].street is None);
    }
}

proof fn lemma_free_count(m: Seq<Member>, n: int)
    requires
        0 <= n <= m.len(),
        forall|i: int| 0 <= i < m.len() ==> !(#[trigger] m[i]).hosted,
    ensures
        seat_count(m, true, n) == 0,
        seat_count(m, false, n) == n,
    decreases n,
{
    if n > 0 {
        lemma_free_count(m, n - 1);
        assert(!m[n - 1].hosted);
    }
}

proof fn lemma_agreed_sum(m: Seq<Member>, h: int, n: int)
    requires
        0 <= n <= m.len(),
        forall|i: int| 0 <= i < m.len() ==> !(#[trigger] m[i]).hosted && m[i].height == h,
    ensures
        seat_sum(m, false, n) == h * n,
    decreases n,
{
    if n > 0 {
        lemma_agreed_sum(m, h, n - 1);
        assert(!m[n - 1].hosted && m[n - 1].height == h);
        assert(h * n == h * (n - 1) + h) by (nonlinear_arith);
    } else {
        assert(h * n == 0) by (nonlinear_arith)
            requires
                n == 0,
        ;
    }
}

/// Free members that agree start their joint from their one seat.
proof fn lemma_agreed_mean(m: Seq<Member>, h: int)
    requires
        m.len() > 0,
        members_agree(m),
        exists|i: int| 0 <= i < m.len() && (#[trigger] m[i]).height == h,
        forall|i: int| 0 <= i < m.len() ==> !(#[trigger] m[i]).hosted,
    ensures
        seed_of(m) == h,
{
    let n = m.len() as int;
    let w = choose|i: int| 0 <= i < m.len() && (#[trigger] m[i]).height == h;
    assert forall|i: int| 0 <= i < m.len() implies !(#[trigger] m[i]).hosted && m[i].height == h by {
        assert(m[i].height == m[w].height);
    }
    lemma_free_count(m, n);
    lemma_agreed_sum(m, h, n);
    lemma_mean_bounds(h * n, n, h, h);
}

/// A hosted member pins its joint when it stands within reach of the joint's
/// ground: the joint's height is then the hosted seats' mean.
pub proof fn a_hosted_member_within_reach_pins_the_joint(net: Net, k: int)
    requires
        net_fits(net),
        0 <= k < nodes(net).len(),
        has_seat(members_at(net, k), true),
        abs(mean_seat(members_at(net, k), true) - seed_of(members_at(net, k))) <= REACH_UM,
    ensures
        node_pinned(net, k),
        solved_height(net, k) == mean_seat(members_at(net, k), true),
{
}

// ---------------------------------------------------------------------------
// Connectors shared by two or more features.
// ---------------------------------------------------------------------------

/// A pedestrian line: how many vertices it has, the connectors mapped on it,
/// and the band ends standing at each of them.
pub struct WalkLine {
    pub vertices: u64,
    pub connectors: Vec<u64>,
    pub ends: Vec<Vec<u32>>,
}

/// A street: the connectors mapped on it and, when it has a solved profile,
/// its surface at each of them.
pub struct Street {
    pub connectors: Vec<u64>,
    pub surface: Option<Vec<i64>>,
}

/// How many of the first `n` lines carry a connector.
pub open spec fn lines_carrying(lines: Seq<WalkLine>, id: u64, n: int) -> int
    decreases n,
{
    if n <= 0 {
        0
    } else {
        lines_carrying(lines, id, n - 1) + if lines[n - 1].connectors@.contains(id) {
            1int
        } else {
            0
        }
    }
}

/// How many of the first `n` streets carry a connector.
pub open spec fn streets_carrying(streets: Seq<Street>, id: u64, n: int) -> int
    decreases n,
{
    if n <= 0 {
        0
    } else {
        streets_carrying(streets, id, n - 1) + if streets[n - 1].connectors@.contains(id) {
            1int
        } else {
            0
        }
    }
}

/// How many features carry a connector, each counted once.
pub open spec fn carriers(lines: Seq<WalkLine>, streets: Seq<Street>, id: u64) -> int {
    lines_carrying(lines, id, lines.len() as int) + streets_carrying(streets, id, streets.len() as int)
}

/// Sum of a profiled street's surface over the first `n` of its connectors
/// that are `id`.
pub open spec fn surface_sum(ids: Seq<u64>, surface: Seq<i64>, id: u64, n: int) -> int
    decreases n,
{
    if n <= 0 {
        0
    } else {
        surface_sum(ids, surface, id, n - 1) + if ids[n - 1] == id {
            surface[n - 1] as int
        } else {
            0
        }
    }
}

/// How many of the first `n` connectors are `id`.
pub open spec fn id_count(ids: Seq<u64>, id: u64, n: int) -> int
    decreases n,
{
    if n <= 0 {
        0
    } else {
        id_count(ids, id, n - 1) + if ids[n - 1] == id {
            1int
        } else {
            0
        }
    }
}

/// Sum of every profiled street's surface at a connector, over the first `n`
/// streets.
pub open spec fn surfaces_sum(streets: Seq<Street>, id: u64, n: int) -> int
    decreases n,
{
    if n <= 0 {
        0
    } else {
        let s = streets[n - 1];
        surfaces_sum(streets, id, n - 1) + if s.surface is Some {
            surface_sum(s.connectors@, (s.surface->0)@, id, s.connectors@.len() as int)
        } else {
            0
        }
    }
}

/// How many surfaces that sum is over.
pub open spec fn surfaces_count(streets: Seq<Street>, id: u64, n: int) -> int
    decreases n,
{
    if n <= 0 {
        0
    } else {
        let s = streets[n - 1];
        surfaces_count(streets, id, n - 1) + if s.surface is Some {
            id_count(s.connectors@, id, s.connectors@.len() as int)
        } else {
            0
        }
    }
}

/// The street surface at a connector: the mean over every profiled street that
/// carries it.
pub open spec fn street_surface(streets: Seq<Street>, id: u64) -> Option<int> {
    let n = surfaces_count(streets, id, streets.len() as int);
    if n > 0 {
        Some(mean(surfaces_sum(streets, id, streets.len() as int), n))
    } else {
        None
    }
}

/// A seed as the network reads it: the ends at a connector and the street
/// surface there.
pub open spec fn seed_is(seed: ConnectorSeed, ends: Seq<u32>, street: Option<int>) -> bool {
    &&& seed.ends@ == ends
    &&& match (seed.street, street) {
        (Some(a), Some(b)) => a == b,
        (None, None) => true,
        _ => false,
    }
}

/// The line positions that yield a seed among the first `n` connectors of one
/// line: those two or more features carry.
pub open spec fn shared_on_line(lines: Seq<WalkLine>, streets: Seq<Street>, line: int, n: int) -> Seq<(int, int)>
    decreases n,
{
    if n <= 0 {
        Seq::empty()
    } else {
        let rest = shared_on_line(lines, streets, line, n - 1);
        if carriers(lines, streets, lines[line].connectors@[n - 1]) >= 2 {
            rest.push((line, n - 1))
        } else {
            rest
        }
    }
}

/// The (line, connector) positions that yield a seed, over the first `n`
/// lines: shared connectors of lines that have a length.
pub open spec fn shared_positions(lines: Seq<WalkLine>, streets: Seq<Street>, n: int) -> Seq<(int, int)>
    decreases n,
{
    if n <= 0 {
        Seq::empty()
    } else {
        let rest = shared_positions(lines, streets, n - 1);
        if lines[n - 1].vertices < 2 {
            rest
        } else {
            rest + shared_on_line(lines, streets, n - 1, lines[n - 1].connectors@.len() as int)
        }
    }
}

/// One seed per shared position.
pub open spec fn seeds_are(lines: Seq<WalkLine>, streets: Seq<Street>, seeds: Seq<ConnectorSeed>, at: Seq<(int, int)>) -> bool {
    &&& seeds.len() == at.len()
    &&& forall|k: int|
        0 <= k < seeds.len() ==> seed_is(
            #[trigger] seeds[k],
            lines[at[k].0].ends@[at[k].1]@,
            street_surface(streets, lines[at[k].0].connectors@[at[k].1]),
        )
}

pub open spec fn lines_fit(lines: Seq<WalkLine>) -> bool {
    forall|i: int| 0 <= i < lines.len() ==> (#[trigger] lines[i]).ends@.len() == lines[i].connectors@.len()
}

pub open spec fn street_fits(s: Street) -> bool {
    s.surface is Some ==> {
        &&& (s.surface->0)@.len() == s.connectors@.len()
        &&& forall|k: int| 0 <= k < (s.surface->0)@.len() ==> height_fits(#[trigger] (s.surface->0)@[k] as int)
    }
}

/// Every surface names a connector, and together they can be counted and
/// summed in machine words.
pub open spec fn streets_fit(streets: Seq<Street>) -> bool {
    &&& forall|i: int| 0 <= i < streets.len() ==> street_fits(#[trigger] streets[i])
    &&& connector_total(streets, streets.len() as int) <= u32::MAX
}

/// How many connectors the first `n` streets map, names repeated.
pub open spec fn connector_total(streets: Seq<Street>, n: int) -> int
    decreases n,
{
    if n <= 0 {
        0
    } else {
        connector_total(streets, n - 1) + streets[n - 1].connectors@.len()
    }
}

proof fn lemma_surfaces_counted(streets: Seq<Street>, id: u64, n: int)
    requires
        0 <= n <= streets.len(),
    ensures
        surfaces_count(streets, id, n) <= connector_total(streets, n),
    decreases n,
{
    if n > 0 {
        lemma_surfaces_counted(streets, id, n - 1);
        let s = streets[n - 1];
        lemma_id_count_bounds(s.connectors@, id, s.connectors@.len() as int);
    }
}

proof fn lemma_shared_on_line(lines: Seq<WalkLine>, streets: Seq<Street>, line: int, n: int)
    requires
        0 <= n <= lines[line].connectors@.len(),
    ensures
        forall|k: int|
            0 <= k < shared_on_line(lines, streets, line, n).len() ==> (#[trigger] shared_on_line(lines, streets, line, n)[k]).0
                == line && 0 <= shared_on_line(lines, streets, line, n)[k].1 < n,
    decreases n,
{
    if n > 0 {
        lemma_shared_on_line(lines, streets, line, n - 1);
        let rest = shared_on_line(lines, streets, line, n - 1);
        let all = shared_on_line(lines, streets, line, n);
        assert forall|k: int| 0 <= k < all.len() implies (#[trigger] all[k]).0 == line && 0 <= all[k].1 < n by {
            if k < rest.len() {
                assert(all[k] == rest[k]);
            }
        }
    }
}

proof fn lemma_shared_positions(lines: Seq<WalkLine>, streets: Seq<Street>, n: int)
    requires
        0 <= n <= lines.len(),
    ensures
        forall|k: int|
            0 <= k < shared_positions(lines, streets, n).len() ==> {
                let p = #[trigger] shared_positions(lines, streets, n)[k];
                &&& 0 <= p.0 < n
                &&& 0 <= p.1 < lines[p.0].connectors@.len()
            },
    decreases n,
{
    if n > 0 {
        lemma_shared_positions(lines, streets, n - 1);
        lemma_shared_on_line(lines, streets, n - 1, lines[n - 1].connectors@.len() as int);
        let rest = shared_positions(lines, streets, n - 1);
        let here = shared_on_line(lines, streets, n - 1, lines[n - 1].connectors@.len() as int);
        let all = shared_positions(lines, streets, n);
        assert forall|k: int| 0 <= k < all.len() implies 0 <= (#[trigger] all[k]).0 < n && 0 <= all[k].1
            < lines[all[k].0].connectors@.len() by {
            if k < rest.len() {
                assert(all[k] == rest[k]);
            } else {
                assert(all[k] == here[k - rest.len()]);
            }
        }
    }
}

/// Whether the connector at `k` is the first of its name on the feature.
fn first_of_its_name(ids: &Vec<u64>, k: usize) -> (first: bool)
    requires
        k < ids@.len(),
    ensures
        first == !ids@.take(k as int).contains(ids@[k as int]),
{
    let mut i: usize = 0;
    while i < k
        invariant
            i <= k < ids@.len(),
            forall|j: int| 0 <= j < i ==> ids@[j] != ids@[k as int],
        decreases k - i,
    {
        if ids[i] == ids[k] {
            assert(ids@.take(k as int)[i as int] == ids@[k as int]);
            return false;
        }
        i = i + 1;
    }
    assert(!ids@.take(k as int).contains(ids@[k as int]));
    true
}

/// How often each connector was counted, zero where it never was.
spec fn tally(m: Map<u64, u64>, id: u64) -> int {
    if m.dom().contains(id) {
        m[id] as int
    } else {
        0
    }
}

/// Counts one feature's connectors, each name once.
fn count_feature(ids: &Vec<u64>, counts: &mut HashMap<u64, u64>, Ghost(seen): Ghost<int>)
    requires
        forall|id: u64| 0 <= #[trigger] tally(old(counts)@, id) <= seen < u64::MAX,
    ensures
        forall|id: u64| #[trigger] tally(final(counts)@, id) == tally(old(counts)@, id) + if ids@.contains(id) {
            1int
        } else {
            0
        },
{
    broadcast use vstd::std_specs::hash::group_hash_axioms;

    let ghost before = counts@;
    let mut k: usize = 0;
    while k < ids.len()
        invariant
            k <= ids@.len(),
            forall|id: u64| 0 <= #[trigger] tally(before, id) <= seen < u64::MAX,
            forall|id: u64| #[trigger] tally(counts@, id) == tally(before, id) + if ids@.take(k as int).contains(id) {
                1int
            } else {
                0
            },
        decreases ids@.len() - k,
    {
        let id: u64 = ids[k];
        let ghost at = counts@;
        assert(ids@.take(k + 1) =~= ids@.take(k as int).push(id));
        if first_of_its_name(ids, k) {
            let had: u64 = match counts.get(&id) {
                Some(c) => *c,
                None => 0,
            };
            assert(had == tally(at, id));
            assert(tally(before, id) <= seen);
            counts.insert(id, had + 1);
        }
        assert forall|other: u64| #[trigger] tally(counts@, other) == tally(before, other) + if ids@.take(k + 1).contains(
            other,
        ) {
            1int
        } else {
            0
        } by {
            assert(tally(at, other) == tally(before, other) + if ids@.take(k as int).contains(other) {
                1int
            } else {
                0
            });
            lemma_push_contains(ids@.take(k as int), id, other);
        }
        k = k + 1;
    }
    assert(ids@.take(ids@.len() as int) =~= ids@);
}

proof fn lemma_push_contains(s: Seq<u64>, x: u64, y: u64)
    ensures
        s.push(x).contains(y) == (s.contains(y) || x == y),
{
    if s.contains(y) {
        let i = choose|i: int| 0 <= i < s.len() && s[i] == y;
        assert(s.push(x)[i] == y);
    }
    if x == y {
        assert(s.push(x)[s.len() as int] == y);
    }
    if s.push(x).contains(y) && x != y {
        let i = choose|i: int| 0 <= i < s.push(x).len() && s.push(x)[i] == y;
        assert(s[i] == y);
    }
}

proof fn lemma_lines_carrying_bounds(lines: Seq<WalkLine>, id: u64, n: int)
    requires
        0 <= n,
    ensures
        0 <= lines_carrying(lines, id, n) <= n,
    decreases n,
{
    if n > 0 {
        lemma_lines_carrying_bounds(lines, id, n - 1);
    }
}

proof fn lemma_streets_carrying_bounds(streets: Seq<Street>, id: u64, n: int)
    requires
        0 <= n,
    ensures
        0 <= streets_carrying(streets, id, n) <= n,
    decreases n,
{
    if n > 0 {
        lemma_streets_carrying_bounds(streets, id, n - 1);
    }
}

proof fn lemma_surface_sum(s: Street, id: u64, n: int)
    requires
        street_fits(s),
        s.surface is Some,
        0 <= n <= s.connectors@.len(),
    ensures
        0 <= id_count(s.connectors@, id, n) <= n,
        (i64::MIN + REACH_UM) * id_count(s.connectors@, id, n) <= surface_sum(s.connectors@, (s.surface->0)@, id, n) <= (i64::MAX
            - REACH_UM) * id_count(s.connectors@, id, n),
    decreases n,
{
    if n > 0 {
        lemma_surface_sum(s, id, n - 1);
        let c = id_count(s.connectors@, id, n - 1);
        assert(height_fits((s.surface->0)@[n - 1] as int));
        assert((i64::MIN + REACH_UM) * (c + 1) == (i64::MIN + REACH_UM) * c + (i64::MIN + REACH_UM)) by (nonlinear_arith);
        assert((i64::MAX - REACH_UM) * (c + 1) == (i64::MAX - REACH_UM) * c + (i64::MAX - REACH_UM)) by (nonlinear_arith);
    } else {
        assert((i64::MIN + REACH_UM) * 0 == 0 && (i64::MAX - REACH_UM) * 0 == 0) by (nonlinear_arith);
    }
}

proof fn lemma_surfaces_sum(streets: Seq<Street>, id: u64, n: int)
    requires
        forall|i: int| 0 <= i < streets.len() ==> street_fits(#[trigger] streets[i]),
        0 <= n <= streets.len(),
    ensures
        0 <= surfaces_count(streets, id, n),
        surfaces_count(streets, id, n) <= surfaces_count(streets, id, streets.len() as int),
        (i64::MIN + REACH_UM) * surfaces_count(streets, id, n) <= surfaces_sum(streets, id, n) <= (i64::MAX - REACH_UM)
            * surfaces_count(streets, id, n),
    decreases streets.len() - n,
{
    lemma_surfaces_sum_up(streets, id, n);
    if n < streets.len() {
        lemma_surfaces_sum(streets, id, n + 1);
        let s = streets[n];
        if s.surface is Some {
            lemma_surface_sum(s, id, s.connectors@.len() as int);
        }
    }
}

proof fn lemma_surfaces_sum_up(streets: Seq<Street>, id: u64, n: int)
    requires
        forall|i: int| 0 <= i < streets.len() ==> street_fits(#[trigger] streets[i]),
        0 <= n <= streets.len(),
    ensures
        0 <= surfaces_count(streets, id, n),
        (i64::MIN + REACH_UM) * surfaces_count(streets, id, n) <= surfaces_sum(streets, id, n) <= (i64::MAX - REACH_UM)
            * surfaces_count(streets, id, n),
    decreases n,
{
    if n > 0 {
        lemma_surfaces_sum_up(streets, id, n - 1);
        let s = streets[n - 1];
        let c = surfaces_count(streets, id, n - 1);
        if s.surface is Some {
            lemma_surface_sum(s, id, s.connectors@.len() as int);
            let d = id_count(s.connectors@, id, s.connectors@.len() as int);
            assert((i64::MIN + REACH_UM) * (c + d) == (i64::MIN + REACH_UM) * c + (i64::MIN + REACH_UM) * d) by (nonlinear_arith);
            assert((i64::MAX - REACH_UM) * (c + d) == (i64::MAX - REACH_UM) * c + (i64::MAX - REACH_UM) * d) by (nonlinear_arith);
        }
    } else {
        assert((i64::MIN + REACH_UM) * 0 == 0 && (i64::MAX - REACH_UM) * 0 == 0) by (nonlinear_arith);
    }
}

/// The mean surface of the profiled streets at a connector.
fn street_surface_at(streets: &[Street], id: u64) -> (out: Option<i64>)
    requires
        streets_fit(streets@),
    ensures
        match street_surface(streets@, id) {
            Some(h) => out == Some(h as i64) && height_fits(h),
            None => out is None,
        },
{
    let mut sum: i128 = 0;
    let mut count: u64 = 0;
    let ghost whole = streets@.len() as int;
    proof {
        lemma_surfaces_counted(streets@, id, whole);
    }
    let mut i: usize = 0;
    while i < streets.len()
        invariant
            i <= streets@.len(),
            whole == streets@.len(),
            streets_fit(streets@),
            surfaces_count(streets@, id, whole) <= u32::MAX,
            sum == surfaces_sum(streets@, id, i as int),
            count == surfaces_count(streets@, id, i as int),
        decreases streets@.len() - i,
    {
        let s: &Street = &streets[i];
        assert(street_fits(streets@[i as int]));
        proof {
            lemma_surfaces_sum(streets@, id, i as int);
            lemma_surfaces_sum(streets@, id, i + 1);
        }
        if let Some(surface) = &s.surface {
            let ghost sum0 = sum as int;
            let ghost count0 = count as int;
            let mut k: usize = 0;
            while k < s.connectors.len()
                invariant
                    k <= s.connectors@.len(),
                    s.surface is Some,
                    (s.surface->0)@ == surface@,
                    street_fits(*s),
                    sum == sum0 + surface_sum(s.connectors@, surface@, id, k as int),
                    count == count0 + id_count(s.connectors@, id, k as int),
                    0 <= count0 <= u32::MAX,
                    (i64::MIN + REACH_UM) * count0 <= sum0 <= (i64::MAX - REACH_UM) * count0,
                    count0 + id_count(s.connectors@, id, s.connectors@.len() as int) <= u32::MAX,
                decreases s.connectors@.len() - k,
            {
                proof {
                    lemma_surface_sum(*s, id, k as int);
                    lemma_id_count_grows(s.connectors@, id, k as int);
                    lemma_id_count_grows(s.connectors@, id, k + 1);
                    let d = id_count(s.connectors@, id, k as int);
                    assert((i64::MIN + REACH_UM) * (count0 + d) == (i64::MIN + REACH_UM) * count0 + (i64::MIN + REACH_UM) * d)
                        by (nonlinear_arith);
                    assert((i64::MAX - REACH_UM) * (count0 + d) == (i64::MAX - REACH_UM) * count0 + (i64::MAX - REACH_UM) * d)
                        by (nonlinear_arith);
                    lemma_sum_fits(sum as int, count as int);
                }
                if s.connectors[k] == id {
                    sum = sum + surface[k] as i128;
                    count = count + 1;
                }
                k = k + 1;
            }
        }
        i = i + 1;
    }
    proof {
        lemma_surfaces_sum(streets@, id, whole);
    }
    if count > 0 {
        let low: Ghost<int> = Ghost(i64::MIN + REACH_UM);
        let top: Ghost<int> = Ghost(i64::MAX - REACH_UM);
        Some(mean_of(sum, count, low, top))
    } else {
        None
    }
}

proof fn lemma_id_count_grows(ids: Seq<u64>, id: u64, n: int)
    requires
        0 <= n <= ids.len(),
    ensures
        0 <= id_count(ids, id, n) <= id_count(ids, id, ids.len() as int),
    decreases ids.len() - n,
{
    lemma_id_count_bounds(ids, id, n);
    if n < ids.len() {
        lemma_id_count_grows(ids, id, n + 1);
    }
}

proof fn lemma_id_count_bounds(ids: Seq<u64>, id: u64, n: int)
    requires
        0 <= n,
    ensures
        0 <= id_count(ids, id, n) <= n,
    decreases n,
{
    if n > 0 {
        lemma_id_count_bounds(ids, id, n - 1);
    }
}

/// Every connector two or more features carry, on every pedestrian line that
/// has a length: the band ends at it and the street surface there.
pub fn connector_seeds(lines: &[WalkLine], streets: &[Street]) -> (seeds: Vec<ConnectorSeed>)
    requires
        lines_fit(lines@),
        streets_fit(streets@),
        lines@.len() + streets@.len() < u64::MAX,
    ensures
        seeds_are(lines@, streets@, seeds@, shared_positions(lines@, streets@, lines@.len() as int)),
        forall|k: int| 0 <= k < seeds@.len() && (#[trigger] seeds@[k]).street is Some ==> height_fits(seeds@[k].street->0 as int),
{
    broadcast use vstd::std_specs::hash::group_hash_axioms;

    let mut counts: HashMap<u64, u64> = HashMap::new();
    let mut i: usize = 0;
    while i < lines.len()
        invariant
            i <= lines@.len(),
            lines@.len() < u64::MAX,
            forall|id: u64| #[trigger] tally(counts@, id) == lines_carrying(lines@, id, i as int),
        decreases lines@.len() - i,
    {
        proof {
            assert forall|id: u64| 0 <= #[trigger] tally(counts@, id) <= i by {
                lemma_lines_carrying_bounds(lines@, id, i as int);
            }
        }
        count_feature(&lines[i].connectors, &mut counts, Ghost(i as int));
        i = i + 1;
    }
    let ghost all = lines@.len() as int;
    let mut i: usize = 0;
    while i < streets.len()
        invariant
            i <= streets@.len(),
            all == lines@.len(),
            all + streets@.len() < u64::MAX,
            forall|id: u64| #[trigger] tally(counts@, id) == lines_carrying(lines@, id, all) + streets_carrying(streets@, id, i as int),
        decreases streets@.len() - i,
    {
        proof {
            assert forall|id: u64| 0 <= #[trigger] tally(counts@, id) <= all + i by {
                lemma_lines_carrying_bounds(lines@, id, all);
                lemma_streets_carrying_bounds(streets@, id, i as int);
            }
        }
        count_feature(&streets[i].connectors, &mut counts, Ghost(all + i));
        i = i + 1;
    }
    let mut seeds: Vec<ConnectorSeed> = Vec::new();
    let mut i: usize = 0;
    while i < lines.len()
        invariant
            i <= lines@.len(),
            lines_fit(lines@),
            streets_fit(streets@),
            forall|id: u64| #[trigger] tally(counts@, id) == carriers(lines@, streets@, id),
            seeds_are(lines@, streets@, seeds@, shared_positions(lines@, streets@, i as int)),
            forall|k: int| 0 <= k < seeds@.len() && (#[trigger] seeds@[k]).street is Some ==> height_fits(seeds@[k].street->0 as int),
        decreases lines@.len() - i,
    {
        let line: &WalkLine = &lines[i];
        let ghost base = shared_positions(lines@, streets@, i as int);
        if line.vertices >= 2 {
            assert(base + shared_on_line(lines@, streets@, i as int, 0) =~= base);
            let mut k: usize = 0;
            while k < line.connectors.len()
                invariant
                    k <= line.connectors@.len(),
                    i < lines@.len(),
                    *line == lines@[i as int],
                    line.ends@.len() == line.connectors@.len(),
                    streets_fit(streets@),
                    forall|id: u64| #[trigger] tally(counts@, id) == carriers(lines@, streets@, id),
                    seeds_are(lines@, streets@, seeds@, base + shared_on_line(lines@, streets@, i as int, k as int)),
                    forall|j: int| 0 <= j < seeds@.len() && (#[trigger] seeds@[j]).street is Some ==> height_fits(seeds@[j].street->0 as int),
                decreases line.connectors@.len() - k,
            {
                let id: u64 = line.connectors[k];
                let carried: u64 = match counts.get(&id) {
                    Some(c) => *c,
                    None => 0,
                };
                assert(carried == tally(counts@, id));
                let ghost upto = base + shared_on_line(lines@, streets@, i as int, k as int);
                if carried >= 2 {
                    let street: Option<i64> = street_surface_at(streets, id);
                    let mut ends: Vec<u32> = Vec::new();
                    let mut e: usize = 0;
                    while e < line.ends[k].len()
                        invariant
                            k < line.ends@.len(),
                            e <= line.ends@[k as int]@.len(),
                            ends@ == line.ends@[k as int]@.take(e as int),
                        decreases line.ends@[k as int]@.len() - e,
                    {
                        ends.push(line.ends[k][e]);
                        assert(line.ends@[k as int]@.take(e + 1) =~= line.ends@[k as int]@.take(e as int).push(line.ends@[k as int]@[e as int]));
                        e = e + 1;
                    }
                    assert(ends@ =~= line.ends@[k as int]@);
                    seeds.push(ConnectorSeed { ends, street });
                    assert(base + shared_on_line(lines@, streets@, i as int, k + 1) =~= upto.push((i as int, k as int)));
                }
                k = k + 1;
            }
        }
        i = i + 1;
    }
    seeds
}

} // verus!
