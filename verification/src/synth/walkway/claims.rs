//! What the data says about the pavement on each side of each street.
use std::collections::{HashMap, HashSet};
use vstd::prelude::*;
use vstd::std_specs::hash::*;
use crate::arith::{abs, distance, max, min};

pub mod laid;

verus! {

/// How far a wall may stand from the kerb and still make a street built-up.
pub const BUILT_UP_REACH_UM: i64 = 25_000_000;

/// Station spacing of the built-up walk.
pub const BUILT_UP_STEP_UM: i64 = 10_000_000;

/// A stretch of a way that runs alongside a street: the street, its side, and
/// the stretch along the street and along the way.
#[derive(Clone, Copy, Debug, PartialEq, Eq, Structural)]
pub struct Attachment {
    pub host: u32,
    pub side: u8,
    pub arc0: i64,
    pub arc1: i64,
    pub walk0: i64,
    pub walk1: i64,
}

/// A mapped pedestrian way.
#[derive(Debug)]
pub struct Way {
    pub source: u64,
    pub crosswalk: bool,
    /// A staircase, which is no strip of its street's cross-section.
    pub steps: bool,
    /// Drawn at a vehicle's width.
    pub track: bool,
    /// Whether its class is drawn as a band at all.
    pub earns_band: bool,
    /// Where its points lie along it.
    pub arcs: Vec<i64>,
    /// The stretches that are not on the ground.
    pub elevated: Vec<(i64, i64)>,
    pub attached: Vec<Attachment>,
}

/// One way's claim to a stretch of a street side.
#[derive(Clone, Copy, Debug, PartialEq, Eq, Structural)]
pub struct Part {
    pub from: i64,
    pub to: i64,
    pub source: u64,
}

/// The number of a street side.
pub open spec fn side_key(host: u32, side: u8) -> u64 {
    (host * 256 + side) as u64
}

/// No two street sides share a key.
pub proof fn every_side_has_a_key_of_its_own(host: u32, side: u8, other: u32, far: u8)
    ensures
        side_key(host, side) == side_key(other, far) ==> host == other && side == far,
{
}

fn key_of(host: u32, side: u8) -> (key: u64)
    ensures
        key == side_key(host, side),
{
    host as u64 * 256 + side as u64
}

/// Whether a way's attachments claim pavement.
pub open spec fn claims_pavement(way: Way) -> bool {
    !way.crosswalk && !way.steps
}

/// The claims the first `n` attachments of a way lay to a street side.
pub open spec fn way_parts(way: Way, key: u64, n: int) -> Seq<Part>
    decreases n,
{
    if n <= 0 {
        Seq::empty()
    } else {
        let rest = way_parts(way, key, n - 1);
        let a = way.attached@[n - 1];
        if side_key(a.host, a.side) == key {
            rest.push(Part { from: a.arc0, to: a.arc1, source: way.source })
        } else {
            rest
        }
    }
}

/// The claims the first `n` ways lay to a street side, in order.
pub open spec fn parts_of(ways: Seq<Way>, key: u64, n: int) -> Seq<Part>
    decreases n,
{
    if n <= 0 {
        Seq::empty()
    } else {
        let rest = parts_of(ways, key, n - 1);
        if claims_pavement(ways[n - 1]) {
            rest + way_parts(ways[n - 1], key, ways[n - 1].attached@.len() as int)
        } else {
            rest
        }
    }
}

/// Where a claim goes among the first `n`: behind every one that starts no
/// later.
pub open spec fn start_rank(parts: Seq<Part>, from: i64, n: int) -> int
    decreases n,
{
    if n <= 0 {
        0
    } else {
        let before = start_rank(parts, from, n - 1);
        if before == n - 1 && parts[n - 1].from <= from {
            n
        } else {
            before
        }
    }
}

/// The first `n` claims by where they start, those that start together in
/// their own order.
pub open spec fn by_start(parts: Seq<Part>, n: int) -> Seq<Part>
    decreases n,
{
    if n <= 0 {
        Seq::empty()
    } else {
        let rest = by_start(parts, n - 1);
        let p = parts[n - 1];
        rest.insert(start_rank(rest, p.from, rest.len() as int), p)
    }
}

pub open spec fn in_order(parts: Seq<Part>) -> bool {
    forall|i: int, j: int| 0 <= i < j < parts.len() ==> (#[trigger] parts[i]).from <= (#[trigger] parts[j]).from
}

pub proof fn lemma_start_rank(parts: Seq<Part>, from: i64, n: int)
    requires
        in_order(parts),
        0 <= n <= parts.len(),
    ensures
        0 <= start_rank(parts, from, n) <= n,
        forall|i: int| 0 <= i < start_rank(parts, from, n) ==> (#[trigger] parts[i]).from <= from,
        forall|i: int| start_rank(parts, from, n) <= i < n ==> (#[trigger] parts[i]).from > from,
    decreases n,
{
    if n > 0 {
        lemma_start_rank(parts, from, n - 1);
        let r = start_rank(parts, from, n - 1);
        if r < n - 1 {
            assert(parts[r].from <= parts[n - 1].from);
        }
    }
}

/// Putting claims in order keeps every one of them, and puts them in order.
pub proof fn ordering_keeps_every_claim(parts: Seq<Part>, n: int)
    requires
        0 <= n <= parts.len(),
    ensures
        in_order(by_start(parts, n)),
        by_start(parts, n).len() == n,
        by_start(parts, n).to_multiset() == parts.take(n).to_multiset(),
    decreases n,
{
    broadcast use vstd::seq_lib::group_to_multiset_ensures;

    if n > 0 {
        ordering_keeps_every_claim(parts, n - 1);
        let rest = by_start(parts, n - 1);
        let p = parts[n - 1];
        lemma_start_rank(rest, p.from, n - 1);
        let r = start_rank(rest, p.from, n - 1);
        let all = by_start(parts, n);
        assert forall|i: int, j: int| 0 <= i < j < all.len() implies (#[trigger] all[i]).from <= (
        #[trigger] all[j]).from by {
            let x = if i < r {
                i
            } else {
                i - 1
            };
            let y = if j < r {
                j
            } else {
                j - 1
            };
            if i != r {
                assert(all[i] == rest[x]);
            }
            if j != r {
                assert(all[j] == rest[y]);
            }
        }
        assert(parts.take(n) =~= parts.take(n - 1).push(p));
        vstd::seq_lib::lemma_multiset_commutative(rest.take(r), seq![p]);
        assert(all =~= rest.take(r) + seq![p] + rest.skip(r));
        assert(rest =~= rest.take(r) + rest.skip(r));
        rest.insert_ensures(r, p);
    }
}

/// The stretches the first `n` claims merge into: a gap no wider than a corner
/// is pavement too.
pub open spec fn spans_of(parts: Seq<Part>, corner: int, n: int) -> Seq<(i64, i64)>
    decreases n,
{
    if n <= 0 {
        Seq::empty()
    } else {
        let rest = spans_of(parts, corner, n - 1);
        let p = parts[n - 1];
        if rest.len() > 0 && p.from - rest.last().1 <= corner {
            rest.update(rest.len() - 1, (rest.last().0, max(rest.last().1 as int, p.to as int) as i64))
        } else {
            rest.push((p.from, p.to))
        }
    }
}

/// Whether a stretch holds a claim.
pub open spec fn holds(span: (i64, i64), p: Part) -> bool {
    span.0 <= p.from && p.to <= span.1
}

/// Merging never gives a claim up: each lies in one stretch, and the stretches
/// stand more than a corner apart.
pub proof fn merged_stretches_hold_every_claim(parts: Seq<Part>, corner: int, n: int)
    requires
        0 <= n <= parts.len(),
        0 <= corner,
        in_order(parts),
        forall|i: int| 0 <= i < parts.len() ==> (#[trigger] parts[i]).from <= parts[i].to,
    ensures
        n > 0 ==> spans_of(parts, corner, n).len() > 0 && spans_of(parts, corner, n).last().0 <= parts[n - 1].from,
        forall|i: int|
            0 <= i < n ==> exists|s: int|
                0 <= s < spans_of(parts, corner, n).len() && holds(
                    #[trigger] spans_of(parts, corner, n)[s],
                    #[trigger] parts[i],
                ),
        forall|i: int|
            0 <= i < spans_of(parts, corner, n).len() ==> (#[trigger] spans_of(parts, corner, n)[i]).0 <= spans_of(
                parts,
                corner,
                n,
            )[i].1,
        forall|i: int, j: int|
            0 <= i < j < spans_of(parts, corner, n).len() ==> (#[trigger] spans_of(parts, corner, n)[i]).1 + corner < (
            #[trigger] spans_of(parts, corner, n)[j]).0,
    decreases n,
{
    if n > 0 {
        merged_stretches_hold_every_claim(parts, corner, n - 1);
        let rest = spans_of(parts, corner, n - 1);
        let all = spans_of(parts, corner, n);
        let p = parts[n - 1];
        let m = rest.len() as int;
        if n > 1 {
            assert(parts[n - 2].from <= parts[n - 1].from);
        }
        assert forall|i: int| 0 <= i < n implies exists|s: int|
            0 <= s < all.len() && holds(#[trigger] all[s], #[trigger] parts[i]) by {
            if i < n - 1 {
                let s = choose|s: int| 0 <= s < rest.len() && holds(#[trigger] rest[s], parts[i]);
                assert(holds(all[s], parts[i]));
            } else {
                assert(holds(all[all.len() - 1], p));
            }
        }
        assert forall|i: int, j: int| 0 <= i < j < all.len() implies (#[trigger] all[i]).1 + corner < (
        #[trigger] all[j]).0 by {
            if i < m {
                if j < m {
                    assert(rest[i].1 + corner < rest[j].0);
                } else if i < m - 1 {
                    assert(rest[i].1 + corner < rest[m - 1].0);
                    assert(rest[m - 1].0 <= rest[m - 1].1);
                }
            }
        }
    }
}

/// The pavement the data asserts on one side of one street: the stretches it is
/// drawn over, and the claims they were merged from.
#[derive(Debug)]
pub struct SideClaims {
    pub spans: Vec<(i64, i64)>,
    pub parts: Vec<Part>,
}

/// Whether a stretch covers half of `twice`.
pub open spec fn covered(spans: Seq<(i64, i64)>, twice: int) -> bool {
    exists|k: int| 0 <= k < spans.len() && 2 * (#[trigger] spans[k]).0 <= twice <= 2 * spans[k].1
}

/// The first of the first `n` claims holding an arc.
pub open spec fn claim_at(parts: Seq<Part>, arc: int, n: int) -> Option<int>
    decreases n,
{
    if n <= 0 {
        None
    } else {
        match claim_at(parts, arc, n - 1) {
            Some(k) => Some(k),
            None => if parts[n - 1].from <= arc <= parts[n - 1].to {
                Some(n - 1)
            } else {
                None
            },
        }
    }
}

/// How far an arc is from the nearer end of a claim.
pub open spec fn gap_to(p: Part, arc: int) -> int {
    min(abs(p.from - arc), abs(p.to - arc))
}

/// The nearest of the first `n` claims, the earliest on a tie.
pub open spec fn nearest_claim(parts: Seq<Part>, arc: int, n: int) -> Option<int>
    decreases n,
{
    if n <= 0 {
        None
    } else {
        let best = nearest_claim(parts, arc, n - 1);
        if best is None || gap_to(parts[n - 1], arc) < gap_to(parts[best->0], arc) {
            Some(n - 1)
        } else {
            best
        }
    }
}

/// The way an arc belongs to: that of the claim holding it, else of the nearest
/// claim, else none.
pub open spec fn owner_of(parts: Seq<Part>, arc: int) -> u64 {
    let n = parts.len() as int;
    match claim_at(parts, arc, n) {
        Some(k) => parts[k].source,
        None => match nearest_claim(parts, arc, n) {
            Some(k) => parts[k].source,
            None => 0,
        },
    }
}

proof fn lemma_claim_at(parts: Seq<Part>, arc: int, n: int)
    ensures
        match claim_at(parts, arc, n) {
            Some(k) => 0 <= k < n && parts[k].from <= arc <= parts[k].to,
            None => forall|k: int| 0 <= k < n ==> !((#[trigger] parts[k]).from <= arc <= parts[k].to),
        },
    decreases n,
{
    if n > 0 {
        lemma_claim_at(parts, arc, n - 1);
    }
}

proof fn lemma_nearest_claim(parts: Seq<Part>, arc: int, n: int)
    ensures
        n > 0 ==> nearest_claim(parts, arc, n) is Some,
        nearest_claim(parts, arc, n) is Some ==> {
            let k = nearest_claim(parts, arc, n)->0;
            &&& 0 <= k < n
            &&& forall|i: int| 0 <= i < n ==> gap_to(parts[k], arc) <= gap_to(#[trigger] parts[i], arc)
        },
    decreases n,
{
    if n > 0 {
        lemma_nearest_claim(parts, arc, n - 1);
    }
}

/// An arc inside a claim belongs to a claim holding it; one in a filled gap
/// belongs to the nearest claim.
pub proof fn an_arc_belongs_to_its_claim(parts: Seq<Part>, arc: int)
    requires
        parts.len() > 0,
    ensures
        exists|k: int|
            {
                &&& 0 <= k < parts.len()
                &&& owner_of(parts, arc) == (#[trigger] parts[k]).source
                &&& parts[k].from <= arc <= parts[k].to || forall|i: int|
                    0 <= i < parts.len() ==> gap_to(parts[k], arc) <= gap_to(#[trigger] parts[i], arc)
            },
{
    let n = parts.len() as int;
    lemma_claim_at(parts, arc, n);
    lemma_nearest_claim(parts, arc, n);
    match claim_at(parts, arc, n) {
        Some(k) => {
            assert(owner_of(parts, arc) == parts[k].source);
        },
        None => {
            let k = nearest_claim(parts, arc, n)->0;
            assert(owner_of(parts, arc) == parts[k].source);
        },
    }
}

/// Merges claims in order of their start across the gaps a corner leaves.
pub fn merge_spans(parts: &Vec<Part>, corner: i64) -> (out: Vec<(i64, i64)>)
    ensures
        out@ == spans_of(parts@, corner as int, parts@.len() as int),
{
    let mut out: Vec<(i64, i64)> = Vec::new();
    let mut i: usize = 0;
    while i < parts.len()
        invariant
            i <= parts@.len(),
            out@ == spans_of(parts@, corner as int, i as int),
        decreases parts@.len() - i,
    {
        let p: Part = parts[i];
        let n: usize = out.len();
        if n > 0 && p.from as i128 - out[n - 1].1 as i128 <= corner as i128 {
            let (from, to): (i64, i64) = out[n - 1];
            out.set(n - 1, (from, if to < p.to { p.to } else { to }));
        } else {
            out.push((p.from, p.to));
        }
        i = i + 1;
    }
    out
}

/// Claims by where they start, those that start together in their own order.
pub fn sort_parts(parts: &Vec<Part>) -> (out: Vec<Part>)
    ensures
        out@ == by_start(parts@, parts@.len() as int),
{
    let mut out: Vec<Part> = Vec::new();
    let mut i: usize = 0;
    while i < parts.len()
        invariant
            i <= parts@.len(),
            out@ == by_start(parts@, i as int),
            out@.len() == i,
        decreases parts@.len() - i,
    {
        let p: Part = parts[i];
        let mut rank: usize = 0;
        let mut k: usize = 0;
        while k < out.len()
            invariant
                k <= out@.len(),
                rank <= k,
                rank == start_rank(out@, p.from, k as int),
            decreases out@.len() - k,
        {
            if rank == k && out[k].from <= p.from {
                rank = k + 1;
            }
            k = k + 1;
        }
        out.insert(rank, p);
        i = i + 1;
    }
    out
}

impl SideClaims {
    /// Whether the middle of two arcs is drawn.
    pub fn covers_middle(&self, a: i64, b: i64) -> (yes: bool)
        ensures
            yes == covered(self.spans@, a + b),
    {
        let twice: i128 = a as i128 + b as i128;
        let mut k: usize = 0;
        while k < self.spans.len()
            invariant
                k <= self.spans@.len(),
                twice == a + b,
                forall|i: int|
                    0 <= i < k ==> !(2 * (#[trigger] self.spans@[i]).0 <= twice <= 2 * self.spans@[i].1),
            decreases self.spans@.len() - k,
        {
            if 2 * self.spans[k].0 as i128 <= twice && twice <= 2 * self.spans[k].1 as i128 {
                assert(2 * self.spans@[k as int].0 <= twice <= 2 * self.spans@[k as int].1);
                return true;
            }
            k = k + 1;
        }
        false
    }

    /// Whether an arc is drawn.
    pub fn covers(&self, arc: i64) -> (yes: bool)
        ensures
            yes == covered(self.spans@, 2 * arc),
    {
        self.covers_middle(arc, arc)
    }

    /// The way an arc belongs to.
    pub fn owner(&self, arc: i64) -> (source: u64)
        ensures
            source == owner_of(self.parts@, arc as int),
    {
        let mut best: Option<usize> = None;
        let mut k: usize = 0;
        while k < self.parts.len()
            invariant
                k <= self.parts@.len(),
                claim_at(self.parts@, arc as int, k as int) is None,
                match nearest_claim(self.parts@, arc as int, k as int) {
                    Some(b) => best is Some && best->0 == b && b < k,
                    None => best is None,
                },
            decreases self.parts@.len() - k,
        {
            let p: Part = self.parts[k];
            if p.from <= arc && arc <= p.to {
                proof {
                    lemma_claim_stays(self.parts@, arc as int, k + 1, self.parts@.len() as int);
                }
                return p.source;
            }
            let nearer: bool = match best {
                None => true,
                Some(b) => gap_of(&p, arc) < gap_of(&self.parts[b], arc),
            };
            if nearer {
                best = Some(k);
            }
            k = k + 1;
        }
        match best {
            Some(b) => self.parts[b].source,
            None => 0,
        }
    }
}

proof fn lemma_claim_stays(parts: Seq<Part>, arc: int, n: int, m: int)
    requires
        claim_at(parts, arc, n) is Some,
        n <= m,
    ensures
        claim_at(parts, arc, m) == claim_at(parts, arc, n),
    decreases m - n,
{
    if n < m {
        lemma_claim_stays(parts, arc, n, m - 1);
    }
}

fn gap_of(p: &Part, arc: i64) -> (out: u64)
    ensures
        out == gap_to(*p, arc as int),
{
    let a: u64 = distance(p.from, arc);
    let b: u64 = distance(p.to, arc);
    if a < b {
        a
    } else {
        b
    }
}

/// Every street side a pedestrian way is attached to.
#[derive(Debug)]
pub struct Sides {
    raw: HashMap<u64, Vec<Part>>,
}

impl Sides {
    /// The claims laid to each street side, in the order they were laid.
    pub closed spec fn laid(&self, key: u64) -> Seq<Part> {
        if self.raw@.contains_key(key) {
            self.raw@[key]@
        } else {
            Seq::empty()
        }
    }

    /// Whether the claims are those of the given ways.
    pub open spec fn describes(&self, ways: Seq<Way>) -> bool {
        forall|key: u64| #[trigger] self.laid(key) == parts_of(ways, key, ways.len() as int)
    }

    fn lay(&mut self, key: u64, p: Part)
        ensures
            final(self).laid(key) == old(self).laid(key).push(p),
            forall|k: u64| k != key ==> #[trigger] final(self).laid(k) == old(self).laid(k),
    {
        broadcast use group_hash_axioms;

        let mut parts: Vec<Part> = match self.raw.remove(&key) {
            Some(parts) => parts,
            None => Vec::new(),
        };
        parts.push(p);
        self.raw.insert(key, parts);
    }
}

/// Collects what the data claims of every street side. Crosswalks and
/// staircases claim nothing.
pub fn claims_by_side(ways: &[Way]) -> (out: Sides)
    ensures
        out.describes(ways@),
{
    broadcast use group_hash_axioms;

    let mut out = Sides { raw: HashMap::new() };
    let mut w: usize = 0;
    while w < ways.len()
        invariant
            w <= ways@.len(),
            forall|key: u64| #[trigger] out.laid(key) == parts_of(ways@, key, w as int),
        decreases ways@.len() - w,
    {
        let way: &Way = &ways[w];
        if !way.crosswalk && !way.steps {
            let mut i: usize = 0;
            assert forall|key: u64| #[trigger] out.laid(key) == parts_of(ways@, key, w as int) + way_parts(
                *way,
                key,
                0,
            ) by {
                assert(parts_of(ways@, key, w as int) + way_parts(*way, key, 0) =~= parts_of(ways@, key, w as int));
            }
            while i < way.attached.len()
                invariant
                    i <= way.attached@.len(),
                    w < ways@.len(),
                    *way == ways@[w as int],
                    forall|key: u64| #[trigger]
                        out.laid(key) == parts_of(ways@, key, w as int) + way_parts(*way, key, i as int),
                decreases way.attached@.len() - i,
            {
                let a: Attachment = way.attached[i];
                let key: u64 = key_of(a.host, a.side);
                let p = Part { from: a.arc0, to: a.arc1, source: way.source };
                let ghost before = out;
                out.lay(key, p);
                proof {
                    assert forall|k: u64| #[trigger] out.laid(k) == parts_of(ways@, k, w as int) + way_parts(
                        *way,
                        k,
                        i + 1,
                    ) by {
                        assert(before.laid(k) == parts_of(ways@, k, w as int) + way_parts(*way, k, i as int));
                        if k == key {
                            assert(out.laid(k) =~= parts_of(ways@, k, w as int) + way_parts(*way, k, i as int).push(p));
                        }
                    }
                }
                i = i + 1;
            }
        }
        w = w + 1;
    }
    out
}

impl Sides {
    /// The claims to a street side, where there are any.
    pub fn claims(&self, host: u32, side: u8, corner: i64) -> (out: Option<SideClaims>)
        ensures
            ({
                let laid = self.laid(side_key(host, side));
                match out {
                    Some(c) => {
                        &&& laid.len() > 0
                        &&& c.parts@ == by_start(laid, laid.len() as int)
                        &&& c.spans@ == spans_of(c.parts@, corner as int, c.parts@.len() as int)
                    },
                    None => laid.len() == 0,
                }
            }),
    {
        broadcast use group_hash_axioms;

        let key: u64 = key_of(host, side);
        match self.raw.get(&key) {
            None => None,
            Some(laid) => {
                if laid.len() == 0 {
                    return None;
                }
                let parts: Vec<Part> = sort_parts(laid);
                let spans: Vec<(i64, i64)> = merge_spans(&parts, corner);
                Some(SideClaims { spans, parts })
            },
        }
    }
}

// ---------------------------------------------------------------------------
// Built-up streets, and which sides of which streets carry a pavement.
// ---------------------------------------------------------------------------

/// A stretch of a street at one level.
#[derive(Clone, Copy, Debug, PartialEq, Eq, Structural)]
pub struct LevelRun {
    pub from: i64,
    pub to: i64,
    pub level: i64,
    /// Whether the stretch is on the ground.
    pub grade: bool,
}

/// The steps of a run from `at` on, each as long as a station allows.
pub open spec fn steps_from(at: int, to: int) -> Seq<(i64, i64)>
    decreases to - at,
{
    if at >= to {
        Seq::empty()
    } else {
        let next = min(at + BUILT_UP_STEP_UM, to);
        seq![(at as i64, next as i64)] + steps_from(next, to)
    }
}

/// The steps of the at-grade ones of the first `n` runs.
pub open spec fn grade_steps(runs: Seq<LevelRun>, n: int) -> Seq<(i64, i64)>
    decreases n,
{
    if n <= 0 {
        Seq::empty()
    } else {
        let rest = grade_steps(runs, n - 1);
        if runs[n - 1].grade {
            rest + steps_from(runs[n - 1].from as int, runs[n - 1].to as int)
        } else {
            rest
        }
    }
}

/// The stations a street is judged at: its at-grade runs in steps.
pub fn built_up_steps(runs: &[LevelRun]) -> (out: Vec<(i64, i64)>)
    ensures
        out@ == grade_steps(runs@, runs@.len() as int),
{
    let mut out: Vec<(i64, i64)> = Vec::new();
    let mut i: usize = 0;
    while i < runs.len()
        invariant
            i <= runs@.len(),
            out@ == grade_steps(runs@, i as int),
        decreases runs@.len() - i,
    {
        let r: LevelRun = runs[i];
        if r.grade {
            let ghost before = out@;
            let mut a: i64 = r.from;
            while a < r.to
                invariant
                    before + steps_from(r.from as int, r.to as int) == out@ + steps_from(a as int, r.to as int),
                decreases r.to - a,
            {
                let b: i64 = if r.to as i128 - a as i128 > BUILT_UP_STEP_UM as i128 {
                    a + BUILT_UP_STEP_UM
                } else {
                    r.to
                };
                let ghost was = out@;
                out.push((a, b));
                assert(was + steps_from(a as int, r.to as int) =~= out@ + steps_from(b as int, r.to as int));
                a = b;
            }
            assert(out@ + steps_from(a as int, r.to as int) =~= out@);
        }
        i = i + 1;
    }
    out
}

/// The room a step has on either side: whether the buildings there were
/// surveyed, whether the street runs anywhere, and how far the walls stand.
#[derive(Clone, Copy, Debug, PartialEq, Eq, Structural)]
pub struct RoomAt {
    pub surveyed: bool,
    pub runs: bool,
    pub left: i64,
    pub right: i64,
}

/// How much of the first `n` steps was surveyed; with `walled`, only where
/// walls stand on both sides.
pub open spec fn surveyed_length(steps: Seq<(i64, i64)>, rooms: Seq<RoomAt>, reach: int, walled: bool, n: int) -> int
    decreases n,
{
    if n <= 0 {
        0
    } else {
        let r = rooms[n - 1];
        surveyed_length(steps, rooms, reach, walled, n - 1) + if r.surveyed && (!walled || (r.runs && r.left < reach
            && r.right < reach)) {
            steps[n - 1].1 - steps[n - 1].0
        } else {
            0
        }
    }
}

/// Whether walls stand on both sides over at least half of a street's surveyed
/// at-grade length.
pub open spec fn is_built_up(half: Option<i64>, runs: Seq<LevelRun>, rooms: Seq<RoomAt>) -> bool {
    let steps = grade_steps(runs, runs.len() as int);
    let n = steps.len() as int;
    &&& half is Some
    &&& surveyed_length(steps, rooms, half->0 + BUILT_UP_REACH_UM, false, n) > 0
    &&& 2 * surveyed_length(steps, rooms, half->0 + BUILT_UP_REACH_UM, true, n) >= surveyed_length(
        steps,
        rooms,
        half->0 + BUILT_UP_REACH_UM,
        false,
        n,
    )
}

pub open spec fn steps_short(steps: Seq<(i64, i64)>) -> bool {
    forall|i: int| 0 <= i < steps.len() ==> 0 <= (#[trigger] steps[i]).1 - steps[i].0 <= BUILT_UP_STEP_UM
}

proof fn lemma_steps_from(at: int, to: int)
    requires
        i64::MIN <= at,
        to <= i64::MAX,
    ensures
        steps_short(steps_from(at, to)),
    decreases to - at,
{
    if at < to {
        lemma_steps_from(min(at + BUILT_UP_STEP_UM, to), to);
    }
}

proof fn lemma_grade_steps(runs: Seq<LevelRun>, n: int)
    requires
        0 <= n <= runs.len(),
    ensures
        steps_short(grade_steps(runs, n)),
    decreases n,
{
    if n > 0 {
        lemma_grade_steps(runs, n - 1);
        lemma_steps_from(runs[n - 1].from as int, runs[n - 1].to as int);
    }
}

proof fn lemma_surveyed(steps: Seq<(i64, i64)>, rooms: Seq<RoomAt>, reach: int, n: int)
    requires
        steps_short(steps),
        0 <= n <= steps.len(),
    ensures
        0 <= surveyed_length(steps, rooms, reach, true, n) <= surveyed_length(steps, rooms, reach, false, n),
        surveyed_length(steps, rooms, reach, false, n) <= n * BUILT_UP_STEP_UM,
    decreases n,
{
    if n > 0 {
        lemma_surveyed(steps, rooms, reach, n - 1);
    }
}

/// Whether a street is a built-up one. `half` is its drawn half width, where it
/// has one; `rooms` answer at its stations.
pub fn built_up(half: Option<i64>, runs: &[LevelRun], rooms: &[RoomAt]) -> (yes: bool)
    requires
        rooms@.len() == grade_steps(runs@, runs@.len() as int).len(),
    ensures
        yes == is_built_up(half, runs@, rooms@),
{
    let half: i64 = match half {
        None => return false,
        Some(h) => h,
    };
    let reach: i128 = half as i128 + BUILT_UP_REACH_UM as i128;
    let steps: Vec<(i64, i64)> = built_up_steps(runs);
    proof {
        lemma_grade_steps(runs@, runs@.len() as int);
    }
    let mut total: i128 = 0;
    let mut walled: i128 = 0;
    let n: usize = steps.len();
    let mut i: usize = 0;
    while i < n
        invariant
            i <= n,
            n == steps@.len(),
            n == rooms@.len(),
            steps_short(steps@),
            total == surveyed_length(steps@, rooms@, reach as int, false, i as int),
            walled == surveyed_length(steps@, rooms@, reach as int, true, i as int),
            0 <= walled <= total <= i * BUILT_UP_STEP_UM,
        decreases n - i,
    {
        proof {
            lemma_surveyed(steps@, rooms@, reach as int, i + 1);
            assert(0 <= steps@[i as int].1 - steps@[i as int].0);
        }
        let r: RoomAt = rooms[i];
        let step: i128 = steps[i].1 as i128 - steps[i].0 as i128;
        if r.surveyed {
            total = total + step;
            if r.runs && (r.left as i128) < reach && (r.right as i128) < reach {
                walled = walled + step;
            }
        }
        i = i + 1;
    }
    total > 0 && 2 * walled >= total
}

/// One wall is a barn beside a mountain road: a street with walls on one side
/// only is never built-up.
pub proof fn one_wall_is_not_a_street(half: Option<i64>, runs: Seq<LevelRun>, rooms: Seq<RoomAt>)
    requires
        rooms.len() == grade_steps(runs, runs.len() as int).len(),
        half is Some,
        forall|i: int|
            0 <= i < rooms.len() ==> (#[trigger] rooms[i]).left >= half->0 + BUILT_UP_REACH_UM || rooms[i].right
                >= half->0 + BUILT_UP_REACH_UM,
    ensures
        !is_built_up(half, runs, rooms),
{
    let steps = grade_steps(runs, runs.len() as int);
    lemma_no_walls(steps, rooms, half->0 + BUILT_UP_REACH_UM, steps.len() as int);
    lemma_grade_steps(runs, runs.len() as int);
    lemma_surveyed(steps, rooms, half->0 + BUILT_UP_REACH_UM, steps.len() as int);
}

proof fn lemma_no_walls(steps: Seq<(i64, i64)>, rooms: Seq<RoomAt>, reach: int, n: int)
    requires
        0 <= n <= rooms.len(),
        forall|i: int| 0 <= i < rooms.len() ==> (#[trigger] rooms[i]).left >= reach || rooms[i].right >= reach,
    ensures
        surveyed_length(steps, rooms, reach, true, n) == 0,
    decreases n,
{
    if n > 0 {
        lemma_no_walls(steps, rooms, reach, n - 1);
    }
}

/// A street that may be given a pavement the data does not map.
#[derive(Clone, Copy, Debug, PartialEq, Eq, Structural)]
pub struct Avenue {
    pub id: u32,
    /// Whether its class could carry a pavement.
    pub synthesizes: bool,
    pub built_up: bool,
}

/// Whether the data claims a street side.
pub open spec fn is_claimed(ways: Seq<Way>, key: u64) -> bool {
    exists|w: int, i: int|
        0 <= w < ways.len() && 0 <= i < ways[w].attached@.len() && claims_pavement(ways[w]) && side_key(
            (#[trigger] ways[w].attached@[i]).host,
            ways[w].attached@[i].side,
        ) == key
}

/// Whether one of the first `n` streets is given a pavement on a side.
pub open spec fn is_synthesized(streets: Seq<Avenue>, key: u64, n: int) -> bool {
    exists|k: int|
        0 <= k < n && (#[trigger] streets[k]).synthesizes && streets[k].built_up && (side_key(streets[k].id, 0) == key
            || side_key(streets[k].id, 1) == key)
}

/// Which sides of which streets carry a pavement.
#[derive(Debug)]
pub struct PavementSides {
    keys: HashSet<u64>,
}

impl PavementSides {
    pub closed spec fn view(&self) -> Set<u64> {
        self.keys@
    }

    /// Whether a street side carries a pavement.
    pub fn contains(&self, host: u32, side: u8) -> (yes: bool)
        ensures
            yes == self@.contains(side_key(host, side)),
    {
        broadcast use group_hash_axioms;

        self.keys.contains(&key_of(host, side))
    }
}

/// The sides that carry a pavement: those the data claims, and both sides of
/// every built-up street whose class could carry one.
pub fn pavement_sides(ways: &[Way], streets: &[Avenue]) -> (out: PavementSides)
    ensures
        forall|key: u64| #[trigger]
            out@.contains(key) <==> is_claimed(ways@, key) || is_synthesized(streets@, key, streets@.len() as int),
{
    broadcast use group_hash_axioms;

    let mut keys: HashSet<u64> = HashSet::new();
    let mut w: usize = 0;
    while w < ways.len()
        invariant
            w <= ways@.len(),
            forall|key: u64| #[trigger] keys@.contains(key) <==> is_claimed(ways@.take(w as int), key),
        decreases ways@.len() - w,
    {
        let way: &Way = &ways[w];
        let ghost before = keys@;
        let counts: bool = !way.crosswalk && !way.steps;
        let mut i: usize = 0;
        if counts {
            while i < way.attached.len()
                invariant
                    i <= way.attached@.len(),
                    forall|key: u64| #[trigger]
                        keys@.contains(key) <==> before.contains(key) || exists|k: int|
                            0 <= k < i && side_key((#[trigger] way.attached@[k]).host, way.attached@[k].side) == key,
                decreases way.attached@.len() - i,
            {
                let a: Attachment = way.attached[i];
                let ghost was = keys@;
                keys.insert(key_of(a.host, a.side));
                proof {
                    assert(way.attached@[i as int] == a);
                    assert forall|key: u64| #[trigger] keys@.contains(key) <==> before.contains(key) || exists|k: int|
                        0 <= k < i + 1 && side_key((#[trigger] way.attached@[k]).host, way.attached@[k].side) == key by {
                        if keys@.contains(key) && was.contains(key) && !before.contains(key) {
                            let k = choose|k: int|
                                0 <= k < i && side_key((#[trigger] way.attached@[k]).host, way.attached@[k].side) == key;
                            assert(0 <= k < i + 1);
                        }
                    }
                }
                i = i + 1;
            }
        }
        proof {
            let now = ways@.take(w + 1);
            let then = ways@.take(w as int);
            assert forall|key: u64| #[trigger] keys@.contains(key) <==> is_claimed(now, key) by {
                if is_claimed(then, key) {
                    let (a, b) = choose|a: int, b: int|
                        0 <= a < then.len() && 0 <= b < then[a].attached@.len() && claims_pavement(then[a]) && side_key(
                            (#[trigger] then[a].attached@[b]).host,
                            then[a].attached@[b].side,
                        ) == key;
                    assert(now[a] == then[a]);
                    assert(now[a].attached@[b] == then[a].attached@[b]);
                    assert(is_claimed(now, key));
                }
                if keys@.contains(key) && !before.contains(key) {
                    let k = choose|k: int|
                        0 <= k < way.attached@.len() && side_key(
                            (#[trigger] way.attached@[k]).host,
                            way.attached@[k].side,
                        ) == key;
                    assert(now[w as int] == *way);
                    assert(now[w as int].attached@[k] == way.attached@[k]);
                }
                if is_claimed(now, key) && !is_claimed(then, key) {
                    let (a, b) = choose|a: int, b: int|
                        0 <= a < now.len() && 0 <= b < now[a].attached@.len() && claims_pavement(now[a]) && side_key(
                            (#[trigger] now[a].attached@[b]).host,
                            now[a].attached@[b].side,
                        ) == key;
                    if a < w {
                        assert(then[a] == now[a]);
                        assert(then[a].attached@[b] == now[a].attached@[b]);
                    } else {
                        assert(now[a] == *way);
                        assert(side_key(way.attached@[b].host, way.attached@[b].side) == key);
                    }
                }
            }
        }
        w = w + 1;
    }
    assert(ways@.take(ways@.len() as int) =~= ways@);
    let mut k: usize = 0;
    while k < streets.len()
        invariant
            k <= streets@.len(),
            forall|key: u64| #[trigger]
                keys@.contains(key) <==> is_claimed(ways@, key) || is_synthesized(streets@, key, k as int),
        decreases streets@.len() - k,
    {
        let s: Avenue = streets[k];
        let ghost was = keys@;
        if s.synthesizes && s.built_up {
            keys.insert(key_of(s.id, 0));
            keys.insert(key_of(s.id, 1));
        }
        proof {
            assert(streets@[k as int] == s);
            assert forall|key: u64| #[trigger] keys@.contains(key) <==> is_claimed(ways@, key) || is_synthesized(
                streets@,
                key,
                k + 1,
            ) by {
                if is_synthesized(streets@, key, k as int) {
                    let j = choose|j: int|
                        0 <= j < k && (#[trigger] streets@[j]).synthesizes && streets@[j].built_up && (side_key(
                            streets@[j].id,
                            0,
                        ) == key || side_key(streets@[j].id, 1) == key);
                    assert(0 <= j < k + 1);
                }
                assert(was.contains(key) <==> is_claimed(ways@, key) || is_synthesized(streets@, key, k as int));
            }
        }
        k = k + 1;
    }
    PavementSides { keys }
}

} // verus!
