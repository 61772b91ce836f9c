//! Taking stock of the joint graph: how many joints there are, what they stand
//! on, and how far apart the seats at one joint were.
use vstd::prelude::*;
use crate::arith::total;
use crate::synth::walkgraph::WalkGraph;

verus! {

/// A seat spread past this is counted.
pub const SPREAD_UM: u64 = 300_000;

/// How many of the widest spreads are named.
pub const WORST: usize = 10;

/// Where a spread goes among the first `n`: behind every one at least as wide.
pub open spec fn slot_for(v: Seq<(u64, u32, bool)>, x: u64, n: int) -> int
    decreases n,
{
    if n <= 0 {
        0
    } else {
        let before = slot_for(v, x, n - 1);
        if before == n - 1 && v[n - 1].0 >= x {
            n
        } else {
            before
        }
    }
}

/// The first `n` spreads, widest first.
pub open spec fn widest_first(v: Seq<(u64, u32, bool)>, n: int) -> Seq<(u64, u32, bool)>
    decreases n,
{
    if n <= 0 {
        Seq::empty()
    } else {
        let rest = widest_first(v, n - 1);
        rest.insert(slot_for(rest, v[n - 1].0, rest.len() as int), v[n - 1])
    }
}

/// The spread `tenths` of the way up, nought where there is none.
pub open spec fn spread_at(v: Seq<(u64, u32, bool)>, tenths: int) -> u64 {
    if v.len() == 0 {
        0
    } else {
        widest_first(v, v.len() as int)[((v.len() - 1) * (10 - tenths)) / 10].0
    }
}

/// How many of the first `n` spreads are past the limit; with `mixed` set, only
/// those where hosted and free bands meet.
pub open spec fn past_limit(v: Seq<(u64, u32, bool)>, mixed: bool, n: int) -> int
    decreases n,
{
    if n <= 0 {
        0
    } else {
        past_limit(v, mixed, n - 1) + if v[n - 1].0 > SPREAD_UM && (!mixed || v[n - 1].2) {
            1int
        } else {
            0
        }
    }
}

pub open spec fn falls(v: Seq<(u64, u32, bool)>) -> bool {
    forall|i: int, j: int| 0 <= i < j < v.len() ==> (#[trigger] v[i]).0 >= (#[trigger] v[j]).0
}

proof fn lemma_slot_for(v: Seq<(u64, u32, bool)>, x: u64, n: int)
    requires
        falls(v),
        0 <= n <= v.len(),
    ensures
        0 <= slot_for(v, x, n) <= n,
        forall|i: int| 0 <= i < slot_for(v, x, n) ==> (#[trigger] v[i]).0 >= x,
        forall|i: int| slot_for(v, x, n) <= i < n ==> (#[trigger] v[i]).0 < x,
    decreases n,
{
    if n > 0 {
        lemma_slot_for(v, x, n - 1);
        let r = slot_for(v, x, n - 1);
        if r < n - 1 {
            assert(v[r].0 >= v[n - 1].0);
        }
    }
}

proof fn lemma_widest_first(v: Seq<(u64, u32, bool)>, n: int)
    requires
        0 <= n <= v.len(),
    ensures
        falls(widest_first(v, n)),
        widest_first(v, n).len() == n,
        widest_first(v, n).to_multiset() == v.take(n).to_multiset(),
    decreases n,
{
    broadcast use vstd::seq_lib::group_to_multiset_ensures;

    if n == 0 {
        assert(v.take(0) =~= Seq::<(u64, u32, bool)>::empty());
    } else {
        lemma_widest_first(v, n - 1);
        let rest = widest_first(v, n - 1);
        let x = v[n - 1];
        lemma_slot_for(rest, x.0, n - 1);
        let r = slot_for(rest, x.0, n - 1);
        let all = widest_first(v, n);
        assert forall|i: int, j: int| 0 <= i < j < all.len() implies (#[trigger] all[i]).0 >= (#[trigger] all[j]).0 by {
            if i != r {
                assert(all[i] == rest[if i < r {
                    i
                } else {
                    i - 1
                }]);
            }
            if j != r {
                assert(all[j] == rest[if j < r {
                    j
                } else {
                    j - 1
                }]);
            }
        }
        vstd::seq_lib::to_multiset_insert(rest, r, x);
        assert(v.take(n) =~= v.take(n - 1).push(x));
    }
}

/// The named spreads are the widest: every spread is among those kept, or is no
/// wider than any of them.
pub proof fn the_widest_spreads_are_named(v: Seq<(u64, u32, bool)>, i: int, j: int)
    requires
        0 <= i < j < v.len(),
    ensures
        widest_first(v, v.len() as int).to_multiset() == v.to_multiset(),
        widest_first(v, v.len() as int)[i].0 >= widest_first(v, v.len() as int)[j].0,
{
    lemma_widest_first(v, v.len() as int);
    assert(v.take(v.len() as int) =~= v);
}

/// The spreads past three tenths of a metre are counted, each once; with
/// `mixed` set, those where hosted and free bands meet.
pub proof fn spreads_past_the_limit_are_counted(v: Seq<(u64, u32, bool)>, mixed: bool, ones: Seq<int>)
    requires
        ones.len() == v.len(),
        forall|i: int|
            0 <= i < v.len() ==> #[trigger] ones[i] == if v[i].0 > 300_000 && (mixed ==> v[i].2) {
                1int
            } else {
                0
            },
    ensures
        past_limit(v, mixed, v.len() as int) == total(ones),
{
    lemma_past_limit(v, mixed, ones, v.len() as int);
    assert(ones.take(v.len() as int) =~= ones);
}

proof fn lemma_past_limit(v: Seq<(u64, u32, bool)>, mixed: bool, ones: Seq<int>, n: int)
    requires
        0 <= n <= v.len() == ones.len(),
        forall|i: int|
            0 <= i < v.len() ==> #[trigger] ones[i] == if v[i].0 > 300_000 && (mixed ==> v[i].2) {
                1int
            } else {
                0
            },
    ensures
        past_limit(v, mixed, n) == total(ones.take(n)),
    decreases n,
{
    if n > 0 {
        lemma_past_limit(v, mixed, ones, n - 1);
        assert(ones.take(n).drop_last() =~= ones.take(n - 1));
        assert(ones[n - 1] == ones.take(n).last());
    }
}

/// All the way up stands the widest spread, none of the way up the narrowest,
/// and further up never a narrower one; each is one of the spreads.
pub proof fn a_spread_stands_in_its_place(v: Seq<(u64, u32, bool)>, low: int, high: int)
    requires
        v.len() > 0,
        0 <= low <= high <= 10,
    ensures
        forall|i: int| 0 <= i < v.len() ==> spread_at(v, 0) <= (#[trigger] v[i]).0 <= spread_at(v, 10),
        spread_at(v, low) <= spread_at(v, high),
        exists|i: int| 0 <= i < v.len() && (#[trigger] v[i]).0 == spread_at(v, low),
{
    broadcast use vstd::seq_lib::group_to_multiset_ensures;

    let n = v.len() as int;
    lemma_widest_first(v, n);
    let w = widest_first(v, n);
    assert(v.take(n) =~= v);
    let at_low = ((n - 1) * (10 - low)) / 10;
    let at_high = ((n - 1) * (10 - high)) / 10;
    assert(0 <= at_high <= at_low <= n - 1) by (nonlinear_arith)
        requires
            n > 0,
            0 <= low <= high <= 10,
            at_low == ((n - 1) * (10 - low)) / 10,
            at_high == ((n - 1) * (10 - high)) / 10,
    ;
    assert(((n - 1) * (10 - 10)) / 10 == 0);
    assert(((n - 1) * (10 - 0)) / 10 == n - 1);
    assert forall|i: int| 0 <= i < v.len() implies spread_at(v, 0) <= (#[trigger] v[i]).0 <= spread_at(v, 10) by {
        assert(v.contains(v[i]));
        assert(v.to_multiset().count(v[i]) > 0);
        assert(w.contains(v[i]));
        let k = choose|k: int| 0 <= k < w.len() && w[k] == v[i];
        assert(w[0].0 >= w[k].0 >= w[n - 1].0);
    }
    assert(w.contains(w[at_low]));
    assert(w.to_multiset().count(w[at_low]) > 0);
    assert(v.contains(w[at_low]));
    let i = choose|i: int| 0 <= i < v.len() && v[i] == w[at_low];
    assert(v[i].0 == spread_at(v, low));
}

/// What the graph was built of.
#[derive(Debug)]
pub struct GraphCensus {
    pub bands: usize,
    pub nodes: usize,
    pub multi: u64,
    pub multi_corridor: u64,
    pub connector_unions: u64,
    pub t_hosts: u64,
    pub street_pins: u64,
    pub out_of_reach: u64,
    pub stub_pins: u64,
    /// The seat spread at the joints of several bands.
    pub p50: u64,
    pub p90: u64,
    pub widest: u64,
    /// Joints past the limit, and those of them where hosted and free bands
    /// meet.
    pub over: usize,
    pub mixed_over: usize,
    /// The widest spreads, widest first.
    pub worst: Vec<(u64, u32, bool)>,
}

fn sort_spreads(v: &Vec<(u64, u32, bool)>) -> (out: Vec<(u64, u32, bool)>)
    ensures
        out@ == widest_first(v@, v@.len() as int),
        out@.len() == v@.len(),
{
    let mut out: Vec<(u64, u32, bool)> = Vec::new();
    let mut i: usize = 0;
    while i < v.len()
        invariant
            i <= v@.len(),
            out@ == widest_first(v@, i as int),
            out@.len() == i,
        decreases v@.len() - i,
    {
        let x: (u64, u32, bool) = v[i];
        let mut slot: usize = 0;
        let mut k: usize = 0;
        while k < out.len()
            invariant
                k <= out@.len(),
                slot <= k,
                slot == slot_for(out@, x.0, k as int),
            decreases out@.len() - k,
        {
            if slot == k && out[k].0 >= x.0 {
                slot = k + 1;
            }
            k = k + 1;
        }
        out.insert(slot, x);
        i = i + 1;
    }
    out
}

fn at_tenths(sorted: &Vec<(u64, u32, bool)>, tenths: u8) -> (out: u64)
    requires
        tenths <= 10,
    ensures
        out == (if sorted@.len() == 0 {
            0
        } else {
            sorted@[((sorted@.len() - 1) * (10 - tenths)) / 10].0
        }),
{
    let n: usize = sorted.len();
    if n == 0 {
        return 0;
    }
    let down: u8 = 10 - tenths;
    assert(0 <= (n - 1) * down <= (n - 1) * 10) by (nonlinear_arith)
        requires
            n > 0,
            0 <= down <= 10,
    ;
    let i: usize = ((n - 1) as u128 * down as u128 / 10) as usize;
    sorted[i].0
}

impl WalkGraph {
    /// Takes stock of the graph of `bands` bands.
    pub fn census(&self, bands: usize) -> (out: GraphCensus)
        ensures
            out.bands == bands,
            out.nodes == self.height@.len(),
            out.multi == self.multi,
            out.multi_corridor == self.multi_corridor,
            out.connector_unions == self.connector_unions,
            out.t_hosts == self.t_hosts,
            out.street_pins == self.street_pins,
            out.out_of_reach == self.out_of_reach,
            out.stub_pins == self.stub_pins,
            out.p50 == spread_at(self.spreads@, 5),
            out.p90 == spread_at(self.spreads@, 9),
            out.widest == spread_at(self.spreads@, 10),
            out.over == past_limit(self.spreads@, false, self.spreads@.len() as int),
            out.mixed_over == past_limit(self.spreads@, true, self.spreads@.len() as int),
            ({
                let sorted = widest_first(self.spreads@, self.spreads@.len() as int);
                out.worst@ == if sorted.len() > WORST {
                    sorted.take(WORST as int)
                } else {
                    sorted
                }
            }),
    {
        let sorted: Vec<(u64, u32, bool)> = sort_spreads(&self.spreads);
        let mut over: usize = 0;
        let mut mixed_over: usize = 0;
        let mut i: usize = 0;
        while i < self.spreads.len()
            invariant
                i <= self.spreads@.len(),
                over <= i,
                mixed_over <= i,
                over == past_limit(self.spreads@, false, i as int),
                mixed_over == past_limit(self.spreads@, true, i as int),
            decreases self.spreads@.len() - i,
        {
            let (spread, _, mixed) = self.spreads[i];
            if spread > SPREAD_UM {
                over = over + 1;
                if mixed {
                    mixed_over = mixed_over + 1;
                }
            }
            i = i + 1;
        }
        let kept: usize = if sorted.len() > WORST { WORST } else { sorted.len() };
        let mut worst: Vec<(u64, u32, bool)> = Vec::new();
        let mut k: usize = 0;
        while k < kept
            invariant
                k <= kept <= sorted@.len(),
                worst@ == sorted@.take(k as int),
            decreases kept - k,
        {
            worst.push(sorted[k]);
            k = k + 1;
            assert(worst@ =~= sorted@.take(k as int));
        }
        assert(sorted@.take(sorted@.len() as int) =~= sorted@);
        GraphCensus {
            bands,
            nodes: self.height.len(),
            multi: self.multi,
            multi_corridor: self.multi_corridor,
            connector_unions: self.connector_unions,
            t_hosts: self.t_hosts,
            street_pins: self.street_pins,
            out_of_reach: self.out_of_reach,
            stub_pins: self.stub_pins,
            p50: at_tenths(&sorted, 5),
            p90: at_tenths(&sorted, 9),
            widest: at_tenths(&sorted, 10),
            over,
            mixed_over,
            worst,
        }
    }
}

} // verus!
