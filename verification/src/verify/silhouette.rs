//! Silhouettes: the edges of drawn meshes that no second triangle shares, and
//! the chains they make.
//!
//! Vertices are named by their position on the integer plan lattice, so meshes
//! that meet along a shared boundary weld.
use vstd::prelude::*;

verus! {

/// A vertex position on the plan lattice.
#[derive(Clone, Copy, Debug, PartialEq, Eq, Structural)]
pub struct Key {
    pub x: i64,
    pub y: i64,
}

/// A silhouette edge between two lattice positions.
#[derive(Clone, Copy, Debug, PartialEq, Eq, Structural)]
pub struct SilEdge {
    pub a: Key,
    pub b: Key,
}

/// One edge of a chain, walked from its first vertex to its second or back.
#[derive(Clone, Copy, Debug, PartialEq, Eq, Structural)]
pub struct Step {
    pub edge: usize,
    pub forward: bool,
}

pub open spec fn precedes(p: Key, q: Key) -> bool {
    p.x < q.x || (p.x == q.x && p.y < q.y)
}

/// Whether an edge ends at a position.
pub open spec fn touches(e: SilEdge, k: Key) -> bool {
    e.a == k || e.b == k
}

/// Where a step starts.
pub open spec fn tail(edges: Seq<SilEdge>, s: Step) -> Key {
    if s.forward {
        edges[s.edge as int].a
    } else {
        edges[s.edge as int].b
    }
}

/// Where a step arrives.
pub open spec fn head(edges: Seq<SilEdge>, s: Step) -> Key {
    if s.forward {
        edges[s.edge as int].b
    } else {
        edges[s.edge as int].a
    }
}

/// The first unused edge at a position, from edge `i` on.
pub open spec fn first_at(edges: Seq<SilEdge>, used: Seq<bool>, here: Key, i: int) -> Option<int>
    decreases edges.len() - i,
{
    if i < 0 || i >= edges.len() {
        None
    } else if !used[i] && touches(edges[i], here) {
        Some(i)
    } else {
        first_at(edges, used, here, i + 1)
    }
}

/// The step that walks edge `e` away from `here`.
pub open spec fn step_from(edges: Seq<SilEdge>, here: Key, e: int) -> Step {
    Step { edge: e as usize, forward: edges[e].a == here }
}

/// The walk from `here` along edge `e` and on along the first unused edge at
/// each position reached, at most `fuel` edges long.
pub open spec fn walk_steps(edges: Seq<SilEdge>, used: Seq<bool>, here: Key, e: int, fuel: int) -> Seq<Step>
    decreases fuel,
{
    if fuel <= 0 {
        Seq::empty()
    } else {
        let s = step_from(edges, here, e);
        let now = used.update(e, true);
        let next = head(edges, s);
        match first_at(edges, now, next, 0) {
            None => seq![s],
            Some(n) => seq![s] + walk_steps(edges, now, next, n, fuel - 1),
        }
    }
}

/// The edges used once that walk is done.
pub open spec fn walk_used(edges: Seq<SilEdge>, used: Seq<bool>, here: Key, e: int, fuel: int) -> Seq<bool>
    decreases fuel,
{
    if fuel <= 0 {
        used
    } else {
        let s = step_from(edges, here, e);
        let now = used.update(e, true);
        let next = head(edges, s);
        match first_at(edges, now, next, 0) {
            None => now,
            Some(n) => walk_used(edges, now, next, n, fuel - 1),
        }
    }
}

/// Chains found so far, and the edges they use.
pub struct Walked {
    pub chains: Seq<Seq<Step>>,
    pub used: Seq<bool>,
}

/// After the chain from `here` along `e`.
pub open spec fn walked_from(edges: Seq<SilEdge>, w: Walked, here: Key, e: int) -> Walked {
    Walked {
        chains: w.chains.push(walk_steps(edges, w.used, here, e, edges.len() as int)),
        used: walk_used(edges, w.used, here, e, edges.len() as int),
    }
}

pub open spec fn nothing_walked(edges: Seq<SilEdge>) -> Walked {
    Walked { chains: Seq::empty(), used: Seq::new(edges.len(), |i: int| false) }
}

/// After the open chains that start at the first `n` given positions.
pub open spec fn open_walked(edges: Seq<SilEdge>, starts: Seq<Key>, n: int) -> Walked
    decreases n,
{
    if n <= 0 {
        nothing_walked(edges)
    } else {
        let w = open_walked(edges, starts, n - 1);
        match first_at(edges, w.used, starts[n - 1], 0) {
            None => w,
            Some(e) => walked_from(edges, w, starts[n - 1], e),
        }
    }
}

/// After the loops that the first `n` edges still begin.
pub open spec fn loops_walked(edges: Seq<SilEdge>, w: Walked, n: int) -> Walked
    decreases n,
{
    if n <= 0 {
        w
    } else {
        let before = loops_walked(edges, w, n - 1);
        if before.used[n - 1] {
            before
        } else {
            walked_from(edges, before, edges[n - 1].a, n - 1)
        }
    }
}

/// How many ends the first `n` edges have at a position.
pub open spec fn degree(edges: Seq<SilEdge>, k: Key, n: int) -> int
    decreases n,
{
    if n <= 0 {
        0
    } else {
        degree(edges, k, n - 1) + (if edges[n - 1].a == k {
            1int
        } else {
            0
        }) + (if edges[n - 1].b == k {
            1int
        } else {
            0
        })
    }
}

pub open spec fn is_end(edges: Seq<SilEdge>, k: Key) -> bool {
    degree(edges, k, edges.len() as int) == 1
}

/// The chain ends, in position order: every position with exactly one edge.
pub open spec fn are_ends(edges: Seq<SilEdge>, starts: Seq<Key>) -> bool {
    &&& forall|i: int, j: int| 0 <= i < j < starts.len() ==> precedes(#[trigger] starts[i], #[trigger] starts[j])
    &&& forall|i: int| 0 <= i < starts.len() ==> is_end(edges, #[trigger] starts[i])
    &&& forall|k: Key| is_end(edges, k) ==> #[trigger] starts.contains(k)
}

/// Every chain of a silhouette: the open ones first, from their ends in
/// position order, then the loops.
pub open spec fn all_walked(edges: Seq<SilEdge>, starts: Seq<Key>) -> Walked {
    loops_walked(edges, open_walked(edges, starts, starts.len() as int), edges.len() as int)
}

/// The edges of the first `n` chains, in walking order.
pub open spec fn flat(chains: Seq<Seq<Step>>, n: int) -> Seq<int>
    decreases n,
{
    if n <= 0 {
        Seq::empty()
    } else {
        flat(chains, n - 1) + edge_ids(chains[n - 1])
    }
}

pub open spec fn edge_ids(steps: Seq<Step>) -> Seq<int> {
    Seq::new(steps.len(), |i: int| steps[i].edge as int)
}

/// The chains and the used marks agree: every used edge stands in exactly one
/// chain, once.
pub open spec fn consistent(edges: Seq<SilEdge>, w: Walked) -> bool {
    let f = flat(w.chains, w.chains.len() as int);
    &&& w.used.len() == edges.len()
    &&& f.no_duplicates()
    &&& forall|i: int| #[trigger] f.contains(i) ==> 0 <= i < edges.len() && w.used[i]
    &&& forall|i: int| 0 <= i < edges.len() && w.used[i] ==> #[trigger] f.contains(i)
}

proof fn lemma_first_at(edges: Seq<SilEdge>, used: Seq<bool>, here: Key, i: int)
    requires
        0 <= i <= edges.len(),
    ensures
        match first_at(edges, used, here, i) {
            Some(n) => i <= n < edges.len() && !used[n] && touches(edges[n], here) && forall|k: int|
                i <= k < n ==> used[k] || !touches(#[trigger] edges[k], here),
            None => forall|k: int| i <= k < edges.len() ==> used[k] || !touches(#[trigger] edges[k], here),
        },
    decreases edges.len() - i,
{
    if i < edges.len() && !(!used[i] && touches(edges[i], here)) {
        lemma_first_at(edges, used, here, i + 1);
    }
}

/// A walk uses exactly its own edges, each once and each unused before, and
/// each step begins where the one before it arrived.
proof fn lemma_walk(edges: Seq<SilEdge>, used: Seq<bool>, here: Key, e: int, fuel: int)
    requires
        used.len() == edges.len(),
        edges.len() <= usize::MAX,
        0 <= e < edges.len(),
        !used[e],
        touches(edges[e], here),
    ensures
        ({
            let s = walk_steps(edges, used, here, e, fuel);
            let ids = edge_ids(s);
            let after = walk_used(edges, used, here, e, fuel);
            &&& after.len() == used.len()
            &&& fuel > 0 ==> s.len() > 0 && s[0] == step_from(edges, here, e) && tail(edges, s[0]) == here
            &&& ids.no_duplicates()
            &&& forall|k: int| 0 <= k < ids.len() ==> 0 <= #[trigger] ids[k] < edges.len() && !used[ids[k]]
            &&& forall|i: int| 0 <= i < edges.len() ==> #[trigger] after[i] == (used[i] || ids.contains(i))
            &&& forall|k: int| 0 <= k < s.len() - 1 ==> head(edges, #[trigger] s[k]) == tail(edges, s[k + 1])
        }),
    decreases fuel,
{
    if fuel > 0 {
        let s0 = step_from(edges, here, e);
        let now = used.update(e, true);
        let next = head(edges, s0);
        let s = walk_steps(edges, used, here, e, fuel);
        let ids = edge_ids(s);
        let after = walk_used(edges, used, here, e, fuel);
        lemma_first_at(edges, now, next, 0);
        match first_at(edges, now, next, 0) {
            None => {
                assert(ids =~= seq![e]);
                assert forall|i: int| 0 <= i < edges.len() implies #[trigger] after[i] == (used[i] || ids.contains(i)) by {
                    assert(ids[0] == e);
                }
            },
            Some(n) => {
                lemma_walk(edges, now, next, n, fuel - 1);
                let rest = walk_steps(edges, now, next, n, fuel - 1);
                let rest_ids = edge_ids(rest);
                assert(ids =~= seq![e] + rest_ids);
                assert forall|i: int, j: int| 0 <= i < ids.len() && 0 <= j < ids.len() && i != j implies ids[i] != ids[j] by {
                    if i > 0 {
                        assert(ids[i] == rest_ids[i - 1]);
                        assert(!now[rest_ids[i - 1]]);
                    }
                    if j > 0 {
                        assert(ids[j] == rest_ids[j - 1]);
                        assert(!now[rest_ids[j - 1]]);
                    }
                }
                assert forall|k: int| 0 <= k < ids.len() implies 0 <= #[trigger] ids[k] < edges.len() && !used[ids[k]] by {
                    if k > 0 {
                        assert(ids[k] == rest_ids[k - 1]);
                        assert(!now[rest_ids[k - 1]]);
                    }
                }
                assert forall|i: int| 0 <= i < edges.len() implies #[trigger] after[i] == (used[i] || ids.contains(i)) by {
                    assert(after[i] == (now[i] || rest_ids.contains(i)));
                    if rest_ids.contains(i) {
                        let k = choose|k: int| 0 <= k < rest_ids.len() && rest_ids[k] == i;
                        assert(ids[k + 1] == i);
                    }
                    if ids.contains(i) && i != e {
                        let k = choose|k: int| 0 <= k < ids.len() && ids[k] == i;
                        assert(rest_ids[k - 1] == i);
                    }
                    assert(ids[0] == e);
                }
                assert forall|k: int| 0 <= k < s.len() - 1 implies head(edges, #[trigger] s[k]) == tail(edges, s[k + 1]) by {
                    if k == 0 {
                        assert(s[1] == rest[0]);
                    } else {
                        assert(s[k] == rest[k - 1]);
                        assert(s[k + 1] == rest[k]);
                        assert(head(edges, rest[k - 1]) == tail(edges, rest[k - 1 + 1]));
                    }
                }
            },
        }
    }
}

proof fn lemma_flat_prefix(chains: Seq<Seq<Step>>, c: Seq<Step>, n: int)
    requires
        0 <= n <= chains.len(),
    ensures
        flat(chains.push(c), n) == flat(chains, n),
    decreases n,
{
    if n > 0 {
        lemma_flat_prefix(chains, c, n - 1);
    }
}

proof fn lemma_walked_from(edges: Seq<SilEdge>, w: Walked, here: Key, e: int)
    requires
        consistent(edges, w),
        edges.len() <= usize::MAX,
        0 <= e < edges.len(),
        !w.used[e],
        touches(edges[e], here),
    ensures
        consistent(edges, walked_from(edges, w, here, e)),
        walked_from(edges, w, here, e).used[e],
        forall|i: int| 0 <= i < edges.len() && w.used[i] ==> #[trigger] walked_from(edges, w, here, e).used[i],
{
    let fuel = edges.len() as int;
    lemma_walk(edges, w.used, here, e, fuel);
    let s = walk_steps(edges, w.used, here, e, fuel);
    let ids = edge_ids(s);
    let next = walked_from(edges, w, here, e);
    lemma_flat_prefix(w.chains, s, w.chains.len() as int);
    let before = flat(w.chains, w.chains.len() as int);
    let f = flat(next.chains, next.chains.len() as int);
    assert(f == before + ids);
    assert forall|i: int, j: int| 0 <= i < f.len() && 0 <= j < f.len() && i != j implies f[i] != f[j] by {
        if i < before.len() && j < before.len() {
            assert(before[i] != before[j]);
        } else if i < before.len() {
            assert(before.contains(before[i]));
            assert(!w.used[ids[j - before.len()]]);
        } else if j < before.len() {
            assert(before.contains(before[j]));
            assert(!w.used[ids[i - before.len()]]);
        } else {
            assert(ids[i - before.len()] != ids[j - before.len()]);
        }
    }
    assert forall|i: int| #[trigger] f.contains(i) implies 0 <= i < edges.len() && next.used[i] by {
        let k = choose|k: int| 0 <= k < f.len() && f[k] == i;
        if k < before.len() {
            assert(before[k] == i);
            assert(before.contains(i));
        } else {
            assert(ids[k - before.len()] == i);
            assert(ids.contains(i));
        }
    }
    assert forall|i: int| 0 <= i < edges.len() && next.used[i] implies #[trigger] f.contains(i) by {
        if w.used[i] {
            assert(before.contains(i));
            let k = choose|k: int| 0 <= k < before.len() && before[k] == i;
            assert(f[k] == i);
        } else {
            assert(ids.contains(i));
            let k = choose|k: int| 0 <= k < ids.len() && ids[k] == i;
            assert(f[before.len() + k] == i);
        }
    }
    assert(ids.contains(e)) by {
        assert(ids[0] == e);
    }
}

proof fn lemma_open_walked(edges: Seq<SilEdge>, starts: Seq<Key>, n: int)
    requires
        0 <= n <= starts.len(),
        edges.len() <= usize::MAX,
    ensures
        consistent(edges, open_walked(edges, starts, n)),
    decreases n,
{
    if n > 0 {
        lemma_open_walked(edges, starts, n - 1);
        let w = open_walked(edges, starts, n - 1);
        lemma_first_at(edges, w.used, starts[n - 1], 0);
        if let Some(e) = first_at(edges, w.used, starts[n - 1], 0) {
            lemma_walked_from(edges, w, starts[n - 1], e);
        }
    }
}

proof fn lemma_loops_walked(edges: Seq<SilEdge>, w: Walked, n: int)
    requires
        consistent(edges, w),
        edges.len() <= usize::MAX,
        0 <= n <= edges.len(),
    ensures
        consistent(edges, loops_walked(edges, w, n)),
        forall|i: int| 0 <= i < n ==> #[trigger] loops_walked(edges, w, n).used[i],
    decreases n,
{
    if n > 0 {
        lemma_loops_walked(edges, w, n - 1);
        let before = loops_walked(edges, w, n - 1);
        if !before.used[n - 1] {
            lemma_walked_from(edges, before, edges[n - 1].a, n - 1);
        }
    }
}

/// Every silhouette edge is walked exactly once: the chains together hold each
/// edge, and none twice.
pub proof fn every_edge_is_walked_once(edges: Seq<SilEdge>, starts: Seq<Key>)
    requires
        edges.len() <= usize::MAX,
    ensures
        ({
            let chains = all_walked(edges, starts).chains;
            let f = flat(chains, chains.len() as int);
            &&& f.no_duplicates()
            &&& forall|i: int| #[trigger] f.contains(i) <==> 0 <= i < edges.len()
        }),
{
    let open = open_walked(edges, starts, starts.len() as int);
    lemma_open_walked(edges, starts, starts.len() as int);
    lemma_loops_walked(edges, open, edges.len() as int);
    let w = all_walked(edges, starts);
    assert forall|i: int| 0 <= i < edges.len() implies #[trigger] flat(w.chains, w.chains.len() as int).contains(i) by {
        assert(w.used[i]);
    }
}

/// Consecutive edges of a walk meet: each step begins where the one before it
/// arrived.
pub proof fn a_walk_is_connected(edges: Seq<SilEdge>, used: Seq<bool>, here: Key, e: int)
    requires
        used.len() == edges.len(),
        edges.len() <= usize::MAX,
        0 <= e < edges.len(),
        !used[e],
        touches(edges[e], here),
    ensures
        ({
            let s = walk_steps(edges, used, here, e, edges.len() as int);
            &&& s.len() > 0
            &&& tail(edges, s[0]) == here
            &&& forall|k: int| 0 <= k < s.len() - 1 ==> head(edges, #[trigger] s[k]) == tail(edges, s[k + 1])
        }),
{
    lemma_walk(edges, used, here, e, edges.len() as int);
}

// ---------------------------------------------------------------------------
// The walk itself.
// ---------------------------------------------------------------------------

/// How many of the first `n` marks are unset.
spec fn unset(used: Seq<bool>, n: int) -> int
    decreases n,
{
    if n <= 0 {
        0
    } else {
        unset(used, n - 1) + if used[n - 1] {
            0int
        } else {
            1
        }
    }
}

proof fn lemma_unset_update(used: Seq<bool>, e: int, n: int)
    requires
        0 <= e < used.len(),
        !used[e],
        0 <= n <= used.len(),
    ensures
        unset(used.update(e, true), n) == unset(used, n) - if e < n {
            1int
        } else {
            0
        },
    decreases n,
{
    if n > 0 {
        lemma_unset_update(used, e, n - 1);
    }
}

proof fn lemma_unset_bounds(used: Seq<bool>, n: int)
    requires
        0 <= n <= used.len(),
    ensures
        0 <= unset(used, n) <= n,
        forall|e: int| 0 <= e < n && !used[e] ==> unset(used, n) > 0,
    decreases n,
{
    if n > 0 {
        lemma_unset_bounds(used, n - 1);
    }
}

fn find_at(edges: &[SilEdge], used: &Vec<bool>, here: Key) -> (out: Option<usize>)
    requires
        used@.len() == edges@.len(),
    ensures
        match first_at(edges@, used@, here, 0) {
            Some(n) => out is Some && out->0 == n && 0 <= n < edges@.len(),
            None => out is None,
        },
{
    let mut i: usize = 0;
    while i < edges.len()
        invariant
            i <= edges@.len(),
            used@.len() == edges@.len(),
            first_at(edges@, used@, here, 0) == first_at(edges@, used@, here, i as int),
        decreases edges@.len() - i,
    {
        if !used[i] && (edges[i].a == here || edges[i].b == here) {
            return Some(i);
        }
        i = i + 1;
    }
    None
}

fn walk(edges: &[SilEdge], used: &mut Vec<bool>, from: Key, first: usize) -> (out: Vec<Step>)
    requires
        old(used)@.len() == edges@.len(),
        first < edges@.len(),
        !old(used)@[first as int],
        touches(edges@[first as int], from),
    ensures
        out@ == walk_steps(edges@, old(used)@, from, first as int, edges@.len() as int),
        final(used)@ == walk_used(edges@, old(used)@, from, first as int, edges@.len() as int),
        final(used)@.len() == old(used)@.len(),
{
    let ghost start = used@;
    let ghost whole = walk_steps(edges@, start, from, first as int, edges@.len() as int);
    let ghost whole_used = walk_used(edges@, start, from, first as int, edges@.len() as int);
    let mut steps: Vec<Step> = Vec::new();
    let mut here: Key = from;
    let mut e: usize = first;
    let ghost mut fuel = edges@.len() as int;
    let mut going: bool = true;
    proof {
        lemma_unset_bounds(used@, used@.len() as int);
        assert(steps@ + walk_steps(edges@, used@, here, e as int, fuel) =~= whole);
    }
    while going
        invariant
            used@.len() == edges@.len(),
            start.len() == edges@.len(),
            going ==> e < edges@.len() && !used@[e as int] && touches(edges@[e as int], here),
            going ==> whole == steps@ + walk_steps(edges@, used@, here, e as int, fuel),
            going ==> whole_used == walk_used(edges@, used@, here, e as int, fuel),
            going ==> fuel >= unset(used@, used@.len() as int),
            !going ==> whole == steps@ && whole_used == used@,
        decreases unset(used@, used@.len() as int), if going { 1int } else { 0 },
    {
        let edge: SilEdge = edges[e];
        let forward: bool = edge.a == here;
        let next: Key = if forward { edge.b } else { edge.a };
        let ghost before = used@;
        let ghost done = steps@;
        used.set(e, true);
        steps.push(Step { edge: e, forward });
        proof {
            lemma_unset_bounds(before, before.len() as int);
            lemma_unset_update(before, e as int, before.len() as int);
            lemma_unset_bounds(used@, used@.len() as int);
            lemma_first_at(edges@, used@, next, 0);
            assert(used@ == before.update(e as int, true));
            assert(step_from(edges@, here, e as int) == (Step { edge: e, forward }));
        }
        match find_at(edges, used, next) {
            None => {
                proof {
                    assert(walk_steps(edges@, before, here, e as int, fuel) == seq![Step { edge: e, forward }]);
                    assert(done + seq![Step { edge: e, forward }] =~= steps@);
                }
                going = false;
            },
            Some(n) => {
                proof {
                    let rest = walk_steps(edges@, used@, next, n as int, fuel - 1);
                    assert(walk_steps(edges@, before, here, e as int, fuel) == seq![Step { edge: e, forward }] + rest);
                    assert(done + (seq![Step { edge: e, forward }] + rest) =~= steps@ + rest);
                    fuel = fuel - 1;
                }
                here = next;
                e = n;
            },
        }
    }
    steps
}

/// Whether a position is a chain end.
fn is_chain_end(edges: &[SilEdge], k: Key) -> (end: bool)
    ensures
        end == is_end(edges@, k),
{
    let mut count: u128 = 0;
    let mut i: usize = 0;
    while i < edges.len()
        invariant
            i <= edges@.len(),
            count == degree(edges@, k, i as int),
            count <= 2 * i,
        decreases edges@.len() - i,
    {
        if edges[i].a == k {
            count = count + 1;
        }
        if edges[i].b == k {
            count = count + 1;
        }
        i = i + 1;
    }
    count == 1
}

/// Inserts a position into an ordered list, once.
fn insert_ordered(list: &mut Vec<Key>, k: Key)
    requires
        forall|i: int, j: int| 0 <= i < j < old(list)@.len() ==> precedes(#[trigger] old(list)@[i], #[trigger] old(list)@[j]),
        old(list)@.len() < usize::MAX,
    ensures
        forall|i: int, j: int|
            0 <= i < j < final(list)@.len() ==> precedes(#[trigger] final(list)@[i], #[trigger] final(list)@[j]),
        forall|q: Key| #[trigger] final(list)@.contains(q) <==> old(list)@.contains(q) || q == k,
        final(list)@.len() <= old(list)@.len() + 1,
{
    let ghost before = list@;
    let mut at: usize = 0;
    while at < list.len() && (list[at].x < k.x || (list[at].x == k.x && list[at].y < k.y))
        invariant
            at <= list@.len(),
            list@ == before,
            forall|i: int| 0 <= i < at ==> precedes(#[trigger] before[i], k),
        decreases list@.len() - at,
    {
        at = at + 1;
    }
    if at < list.len() && list[at] == k {
        assert(before[at as int] == k);
        return;
    }
    list.insert(at, k);
    proof {
        let after = list@;
        assert(after == before.insert(at as int, k));
        assert forall|i: int, j: int| 0 <= i < j < after.len() implies precedes(#[trigger] after[i], #[trigger] after[j]) by {
            if at < before.len() {
                assert(precedes(k, before[at as int]));
            }
            let a = if i < at {
                i
            } else {
                i - 1
            };
            let b = if j < at {
                j
            } else {
                j - 1
            };
            if i == at {
                if b > at {
                    assert(precedes(before[at as int], before[b]));
                }
            } else if j != at {
                assert(precedes(before[a], before[b]));
            }
        }
        assert forall|q: Key| #[trigger] after.contains(q) <==> before.contains(q) || q == k by {
            if before.contains(q) {
                let i = choose|i: int| 0 <= i < before.len() && before[i] == q;
                if i < at {
                    assert(after[i] == q);
                } else {
                    assert(after[i + 1] == q);
                }
            }
            if q == k {
                assert(after[at as int] == k);
            }
            if after.contains(q) && q != k {
                let i = choose|i: int| 0 <= i < after.len() && after[i] == q;
                if i < at {
                    assert(before[i] == q);
                } else {
                    assert(before[i - 1] == q);
                }
            }
        }
    }
}

proof fn lemma_degree_zero(edges: Seq<SilEdge>, k: Key, n: int)
    requires
        0 <= n <= edges.len(),
        forall|i: int| 0 <= i < n ==> !touches(#[trigger] edges[i], k),
    ensures
        degree(edges, k, n) == 0,
    decreases n,
{
    if n > 0 {
        lemma_degree_zero(edges, k, n - 1);
    }
}

/// The chain ends of a silhouette, in position order.
fn chain_ends(edges: &[SilEdge]) -> (starts: Vec<Key>)
    requires
        2 * edges@.len() < usize::MAX,
    ensures
        are_ends(edges@, starts@),
{
    let mut starts: Vec<Key> = Vec::new();
    let mut i: usize = 0;
    while i < edges.len()
        invariant
            i <= edges@.len(),
            2 * edges@.len() < usize::MAX,
            starts@.len() <= 2 * i,
            forall|p: int, q: int| 0 <= p < q < starts@.len() ==> precedes(#[trigger] starts@[p], #[trigger] starts@[q]),
            forall|k: Key| #[trigger] starts@.contains(k) ==> is_end(edges@, k),
            forall|j: int| 0 <= j < i && is_end(edges@, (#[trigger] edges@[j]).a) ==> starts@.contains(edges@[j].a),
            forall|j: int| 0 <= j < i && is_end(edges@, (#[trigger] edges@[j]).b) ==> starts@.contains(edges@[j].b),
        decreases edges@.len() - i,
    {
        let e: SilEdge = edges[i];
        if is_chain_end(edges, e.a) {
            insert_ordered(&mut starts, e.a);
        }
        if is_chain_end(edges, e.b) {
            insert_ordered(&mut starts, e.b);
        }
        i = i + 1;
    }
    proof {
        assert forall|i: int| 0 <= i < starts@.len() implies is_end(edges@, #[trigger] starts@[i]) by {
            assert(starts@.contains(starts@[i]));
        }
        assert forall|k: Key| is_end(edges@, k) implies #[trigger] starts@.contains(k) by {
            if forall|j: int| 0 <= j < edges@.len() ==> !touches(#[trigger] edges@[j], k) {
                lemma_degree_zero(edges@, k, edges@.len() as int);
            } else {
                let j = choose|j: int| 0 <= j < edges@.len() && touches(#[trigger] edges@[j], k);
                assert(starts@.contains(edges@[j].a) || starts@.contains(edges@[j].b));
            }
        }
    }
    starts
}

/// A silhouette chain: its steps, and whether it is a loop. Open chains are
/// never loops, even one that ends where it began.
#[derive(Debug)]
pub struct Chain {
    pub steps: Vec<Step>,
    pub is_loop: bool,
}

pub open spec fn chain_views(chains: Seq<Chain>) -> Seq<Seq<Step>> {
    Seq::new(chains.len(), |i: int| chains[i].steps@)
}

/// The silhouette of one mesh as chains. Open chains first (each from one end
/// to the other), then the closed loops; every edge is used exactly once.
pub fn chains(edges: &[SilEdge]) -> (out: Vec<Chain>)
    requires
        2 * edges@.len() < usize::MAX,
    ensures
        exists|starts: Seq<Key>|
            {
                &&& #[trigger] are_ends(edges@, starts)
                &&& chain_views(out@) == all_walked(edges@, starts).chains
                &&& forall|i: int|
                    0 <= i < out@.len() ==> ((#[trigger] out@[i]).is_loop <==> i >= open_walked(
                        edges@,
                        starts,
                        starts.len() as int,
                    ).chains.len())
            },
{
    let starts: Vec<Key> = chain_ends(edges);
    let mut used: Vec<bool> = Vec::new();
    let mut i: usize = 0;
    while i < edges.len()
        invariant
            i <= edges@.len(),
            used@ == Seq::new(i as nat, |k: int| false),
        decreases edges@.len() - i,
    {
        used.push(false);
        assert(used@ =~= Seq::new((i + 1) as nat, |k: int| false));
        i = i + 1;
    }
    let mut out: Vec<Chain> = Vec::new();
    assert(chain_views(out@) =~= nothing_walked(edges@).chains);
    let mut i: usize = 0;
    while i < starts.len()
        invariant
            i <= starts@.len(),
            used@.len() == edges@.len(),
            used@ == open_walked(edges@, starts@, i as int).used,
            chain_views(out@) == open_walked(edges@, starts@, i as int).chains,
            forall|k: int| 0 <= k < out@.len() ==> !(#[trigger] out@[k]).is_loop,
        decreases starts@.len() - i,
    {
        let k: Key = starts[i];
        proof {
            lemma_first_at(edges@, used@, k, 0);
        }
        if let Some(e) = find_at(edges, &used, k) {
            let ghost w = open_walked(edges@, starts@, i as int);
            let steps: Vec<Step> = walk(edges, &mut used, k, e);
            let ghost before = chain_views(out@);
            let ghost s = steps@;
            out.push(Chain { steps, is_loop: false });
            assert(chain_views(out@) =~= before.push(s));
        }
        i = i + 1;
    }
    let ghost open = open_walked(edges@, starts@, starts@.len() as int);
    let opened: usize = out.len();
    assert(chain_views(out@).len() == out@.len());
    let mut i: usize = 0;
    while i < edges.len()
        invariant
            i <= edges@.len(),
            used@.len() == edges@.len(),
            opened == open.chains.len(),
            opened <= out@.len(),
            used@ == loops_walked(edges@, open, i as int).used,
            chain_views(out@) == loops_walked(edges@, open, i as int).chains,
            forall|k: int| 0 <= k < out@.len() ==> ((#[trigger] out@[k]).is_loop <==> k >= opened),
        decreases edges@.len() - i,
    {
        if !used[i] {
            let steps: Vec<Step> = walk(edges, &mut used, edges[i].a, i);
            let ghost before = chain_views(out@);
            let ghost s = steps@;
            out.push(Chain { steps, is_loop: true });
            assert(chain_views(out@) =~= before.push(s));
        }
        i = i + 1;
    }
    assert(are_ends(edges@, starts@));
    out
}

// ---------------------------------------------------------------------------
// Which edges are silhouette.
// ---------------------------------------------------------------------------

/// A triangle on the plan lattice.
#[derive(Clone, Copy, Debug, PartialEq, Eq, Structural)]
pub struct Tri {
    pub a: Key,
    pub b: Key,
    pub c: Key,
}

/// Edge `k` (0, 1 or 2) of a triangle, in its own direction.
pub open spec fn tri_edge(t: Tri, k: int) -> SilEdge {
    if k == 0 {
        SilEdge { a: t.a, b: t.b }
    } else if k == 1 {
        SilEdge { a: t.b, b: t.c }
    } else {
        SilEdge { a: t.c, b: t.a }
    }
}

pub open spec fn same_edge(p: SilEdge, q: SilEdge) -> bool {
    p == q || (p.a == q.b && p.b == q.a)
}

/// How many of the first `n` triangle edges (three per triangle) are this one,
/// in either direction.
pub open spec fn edge_uses(tris: Seq<Tri>, e: SilEdge, n: int) -> int
    decreases n,
{
    if n <= 0 {
        0
    } else {
        edge_uses(tris, e, n - 1) + if same_edge(tri_edge(tris[(n - 1) / 3], (n - 1) % 3), e) {
            1int
        } else {
            0
        }
    }
}

/// The silhouette edges among the first `n` triangle edges, in order: those no
/// other triangle of the set shares.
pub open spec fn silhouette_of(tris: Seq<Tri>, n: int) -> Seq<(int, int)>
    decreases n,
{
    if n <= 0 {
        Seq::empty()
    } else {
        let rest = silhouette_of(tris, n - 1);
        let t = (n - 1) / 3;
        let k = (n - 1) % 3;
        if edge_uses(tris, tri_edge(tris[t], k), 3 * tris.len() as int) == 1 {
            rest.push((t, k))
        } else {
            rest
        }
    }
}

fn tri_edge_of(t: &Tri, k: usize) -> (e: SilEdge)
    ensures
        e == tri_edge(*t, k as int),
{
    if k == 0 {
        SilEdge { a: t.a, b: t.b }
    } else if k == 1 {
        SilEdge { a: t.b, b: t.c }
    } else {
        SilEdge { a: t.c, b: t.a }
    }
}

fn is_silhouette(tris: &[Tri], e: SilEdge) -> (yes: bool)
    ensures
        yes == (edge_uses(tris@, e, 3 * tris@.len() as int) == 1),
{
    let mut uses: u128 = 0;
    let mut t: usize = 0;
    while t < tris.len()
        invariant
            t <= tris@.len(),
            uses == edge_uses(tris@, e, 3 * t as int),
            uses <= 3 * t,
        decreases tris@.len() - t,
    {
        let mut k: usize = 0;
        while k < 3
            invariant
                t < tris@.len(),
                k <= 3,
                uses == edge_uses(tris@, e, 3 * t + k),
                uses <= 3 * t + k,
            decreases 3 - k,
        {
            let f: SilEdge = tri_edge_of(&tris[t], k);
            assert((3 * t + k + 1 - 1) / 3 == t && (3 * t + k + 1 - 1) % 3 == k);
            if f == e || (f.a == e.b && f.b == e.a) {
                uses = uses + 1;
            }
            k = k + 1;
        }
        t = t + 1;
    }
    uses == 1
}

/// The silhouette of a set of meshes, as (triangle, edge) pairs: every edge no
/// other triangle in the set shares.
pub fn silhouette(tris: &[Tri]) -> (out: Vec<(usize, usize)>)
    ensures
        out@.len() == silhouette_of(tris@, 3 * tris@.len() as int).len(),
        forall|i: int|
            0 <= i < out@.len() ==> (#[trigger] out@[i]).0 == silhouette_of(tris@, 3 * tris@.len() as int)[i].0 && out@[i].1
                == silhouette_of(tris@, 3 * tris@.len() as int)[i].1,
{
    let mut out: Vec<(usize, usize)> = Vec::new();
    let mut t: usize = 0;
    while t < tris.len()
        invariant
            t <= tris@.len(),
            out@.len() == silhouette_of(tris@, 3 * t as int).len(),
            forall|i: int|
                0 <= i < out@.len() ==> (#[trigger] out@[i]).0 == silhouette_of(tris@, 3 * t as int)[i].0 && out@[i].1
                    == silhouette_of(tris@, 3 * t as int)[i].1,
        decreases tris@.len() - t,
    {
        let mut k: usize = 0;
        while k < 3
            invariant
                t < tris@.len(),
                k <= 3,
                out@.len() == silhouette_of(tris@, 3 * t + k).len(),
                forall|i: int|
                    0 <= i < out@.len() ==> (#[trigger] out@[i]).0 == silhouette_of(tris@, 3 * t + k)[i].0 && out@[i].1
                        == silhouette_of(tris@, 3 * t + k)[i].1,
            decreases 3 - k,
        {
            let e: SilEdge = tri_edge_of(&tris[t], k);
            assert((3 * t + k + 1 - 1) / 3 == t && (3 * t + k + 1 - 1) % 3 == k);
            let ghost before = out@;
            if is_silhouette(tris, e) {
                out.push((t, k));
            }
            k = k + 1;
        }
        t = t + 1;
    }
    out
}

proof fn lemma_two_uses(tris: Seq<Tri>, e: SilEdge, i: int, j: int, n: int)
    requires
        0 <= i < j,
        n <= 3 * tris.len(),
        i < n ==> same_edge(tri_edge(tris[i / 3], i % 3), e),
        j < n ==> same_edge(tri_edge(tris[j / 3], j % 3), e),
    ensures
        edge_uses(tris, e, n) >= (if i < n {
            1int
        } else {
            0
        }) + (if j < n {
            1int
        } else {
            0
        }),
    decreases n,
{
    if n > 0 {
        lemma_two_uses(tris, e, i, j, n - 1);
    }
}

/// Meshes that meet along a boundary weld: an edge two triangles share, in
/// either direction, is not silhouette.
pub proof fn a_shared_edge_is_not_silhouette(tris: Seq<Tri>, i: int, j: int)
    requires
        0 <= i < j < 3 * tris.len(),
        same_edge(tri_edge(tris[i / 3], i % 3), tri_edge(tris[j / 3], j % 3)),
    ensures
        edge_uses(tris, tri_edge(tris[i / 3], i % 3), 3 * tris.len() as int) != 1,
        edge_uses(tris, tri_edge(tris[j / 3], j % 3), 3 * tris.len() as int) != 1,
{
    lemma_two_uses(tris, tri_edge(tris[i / 3], i % 3), i, j, 3 * tris.len() as int);
    lemma_two_uses(tris, tri_edge(tris[j / 3], j % 3), i, j, 3 * tris.len() as int);
}

/// Whether two triangle sides join the same two positions.
pub open spec fn joins_the_same(p: Tri, k: int, q: Tri, l: int) -> bool {
    let a = if k == 0 {
        (p.a, p.b)
    } else if k == 1 {
        (p.b, p.c)
    } else {
        (p.c, p.a)
    };
    let b = if l == 0 {
        (q.a, q.b)
    } else if l == 1 {
        (q.b, q.c)
    } else {
        (q.c, q.a)
    };
    a == b || (a.0 == b.1 && a.1 == b.0)
}

/// A side of a triangle is silhouette exactly where no other side of any triangle
/// joins the same two positions.
pub proof fn a_side_is_silhouette_where_no_other_joins_it(tris: Seq<Tri>, i: int)
    requires
        0 <= i < 3 * tris.len(),
    ensures
        silhouette_of(tris, 3 * tris.len() as int).contains((i / 3, i % 3)) <==> forall|j: int|
            0 <= j < 3 * tris.len() && j != i ==> !#[trigger] joins_the_same(
                tris[j / 3],
                j % 3,
                tris[i / 3],
                i % 3,
            ),
{
    let n = 3 * tris.len() as int;
    let e = tri_edge(tris[i / 3], i % 3);
    lemma_listed_where_used_once(tris, n, i);
    if forall|j: int| 0 <= j < n && j != i ==> !#[trigger] joins_the_same(tris[j / 3], j % 3, tris[i / 3], i % 3) {
        lemma_used_once(tris, i, n);
    } else {
        let j = choose|j: int|
            0 <= j < n && j != i && #[trigger] joins_the_same(tris[j / 3], j % 3, tris[i / 3], i % 3);
        if j < i {
            a_shared_edge_is_not_silhouette(tris, j, i);
        } else {
            a_shared_edge_is_not_silhouette(tris, i, j);
        }
    }
}

proof fn lemma_used_once(tris: Seq<Tri>, i: int, n: int)
    requires
        0 <= i,
        0 <= n <= 3 * tris.len(),
        forall|j: int|
            0 <= j < 3 * tris.len() && j != i ==> !#[trigger] joins_the_same(tris[j / 3], j % 3, tris[i / 3], i % 3),
    ensures
        edge_uses(tris, tri_edge(tris[i / 3], i % 3), n) == if i < n {
            1int
        } else {
            0
        },
    decreases n,
{
    if n > 0 {
        lemma_used_once(tris, i, n - 1);
        let j = n - 1;
        if j != i {
            assert(!joins_the_same(tris[j / 3], j % 3, tris[i / 3], i % 3));
        }
    }
}

proof fn lemma_listed_where_used_once(tris: Seq<Tri>, n: int, i: int)
    requires
        0 <= n <= 3 * tris.len(),
        0 <= i,
    ensures
        silhouette_of(tris, n).contains((i / 3, i % 3)) <==> i < n && edge_uses(
            tris,
            tri_edge(tris[i / 3], i % 3),
            3 * tris.len() as int,
        ) == 1,
    decreases n,
{
    let all = silhouette_of(tris, n);
    if n > 0 {
        lemma_listed_where_used_once(tris, n - 1, i);
        let rest = silhouette_of(tris, n - 1);
        let t = (n - 1) / 3;
        let k = (n - 1) % 3;
        if edge_uses(tris, tri_edge(tris[t], k), 3 * tris.len() as int) == 1 {
            assert(all[rest.len() as int] == (t, k));
            if rest.contains((i / 3, i % 3)) {
                let p = choose|p: int| 0 <= p < rest.len() && rest[p] == (i / 3, i % 3);
                assert(all[p] == rest[p]);
            }
            if all.contains((i / 3, i % 3)) {
                let p = choose|p: int| 0 <= p < all.len() && all[p] == (i / 3, i % 3);
                if p < rest.len() {
                    assert(rest[p] == all[p]);
                } else {
                    assert(i == n - 1);
                }
            }
        }
    } else {
        assert(all.len() == 0);
    }
}

/// The sides are listed triangle by triangle, each triangle's in turn.
pub proof fn silhouette_sides_are_listed_in_turn(tris: Seq<Tri>, n: int)
    requires
        0 <= n <= 3 * tris.len(),
    ensures
        forall|i: int|
            0 <= i < silhouette_of(tris, n).len() ==> 0 <= 3 * (#[trigger] silhouette_of(tris, n)[i]).0 + silhouette_of(
                tris,
                n,
            )[i].1 < n && 0 <= silhouette_of(tris, n)[i].1 < 3,
        forall|i: int, j: int|
            0 <= i < j < silhouette_of(tris, n).len() ==> 3 * (#[trigger] silhouette_of(tris, n)[i]).0 + silhouette_of(
                tris,
                n,
            )[i].1 < 3 * (#[trigger] silhouette_of(tris, n)[j]).0 + silhouette_of(tris, n)[j].1,
    decreases n,
{
    if n > 0 {
        silhouette_sides_are_listed_in_turn(tris, n - 1);
        let rest = silhouette_of(tris, n - 1);
        let all = silhouette_of(tris, n);
        let last = ((n - 1) / 3, (n - 1) % 3);
        assert(3 * last.0 + last.1 == n - 1);
        assert forall|i: int| 0 <= i < all.len() implies 0 <= 3 * (#[trigger] all[i]).0 + all[i].1 < n && 0 <= all[i].1
            < 3 by {
            if i < rest.len() {
                assert(all[i] == rest[i]);
            } else {
                assert(all[i] == last);
            }
        }
        assert forall|i: int, j: int| 0 <= i < j < all.len() implies 3 * (#[trigger] all[i]).0 + all[i].1 < 3 * (
        #[trigger] all[j]).0 + all[j].1 by {
            assert(all[i] == rest[i]);
            if j < rest.len() {
                assert(all[j] == rest[j]);
            } else {
                assert(all[j] == last);
            }
        }
    }
}

/// A position is a chain end where one edge touches it, and with one end only.
pub proof fn a_chain_end_is_touched_once(edges: Seq<SilEdge>, k: Key, i: int)
    requires
        0 <= i < edges.len(),
        edges[i].a == k || edges[i].b == k,
    ensures
        is_end(edges, k) <==> edges[i].a != edges[i].b && forall|j: int|
            0 <= j < edges.len() && j != i ==> (#[trigger] edges[j]).a != k && edges[j].b != k,
{
    lemma_degree(edges, k, i, edges.len() as int);
}

proof fn lemma_degree(edges: Seq<SilEdge>, k: Key, i: int, n: int)
    requires
        0 <= i < edges.len(),
        0 <= n <= edges.len(),
        edges[i].a == k || edges[i].b == k,
    ensures
        degree(edges, k, n) >= 0,
        i < n ==> degree(edges, k, n) >= 1,
        i < n && edges[i].a == edges[i].b ==> degree(edges, k, n) >= 2,
        forall|j: int|
            0 <= j < n && j != i && i < n && ((#[trigger] edges[j]).a == k || edges[j].b == k) ==> degree(edges, k, n) >= 2,
        forall|j: int| 0 <= j < n && ((#[trigger] edges[j]).a == k || edges[j].b == k) ==> degree(edges, k, n) >= 1,
        (forall|j: int| 0 <= j < n && j != i ==> (#[trigger] edges[j]).a != k && edges[j].b != k) && edges[i].a
            != edges[i].b ==> degree(edges, k, n) == if i < n {
            1int
        } else {
            0
        },
    decreases n,
{
    if n > 0 {
        lemma_degree(edges, k, i, n - 1);
        let last = edges[n - 1];
    }
}

/// A walk goes on until no unused edge touches where it has arrived.
pub proof fn a_walk_goes_on_until_nothing_is_left(edges: Seq<SilEdge>, used: Seq<bool>, here: Key, e: int)
    requires
        used.len() == edges.len(),
        edges.len() <= usize::MAX,
        0 <= e < edges.len(),
        !used[e],
        edges[e].a == here || edges[e].b == here,
    ensures
        ({
            let s = walk_steps(edges, used, here, e, edges.len() as int);
            let after = walk_used(edges, used, here, e, edges.len() as int);
            let last = edges[s.last().edge as int];
            let at = if s.last().forward {
                last.b
            } else {
                last.a
            };
            &&& s.len() > 0
            &&& forall|i: int|
                0 <= i < edges.len() && !#[trigger] after[i] ==> edges[i].a != at && edges[i].b != at
        }),
{
    lemma_unset_bounds(used, used.len() as int);
    lemma_walk_exhausts(edges, used, here, e, edges.len() as int);
}

proof fn lemma_walk_exhausts(edges: Seq<SilEdge>, used: Seq<bool>, here: Key, e: int, fuel: int)
    requires
        used.len() == edges.len(),
        edges.len() <= usize::MAX,
        0 <= e < edges.len(),
        !used[e],
        touches(edges[e], here),
        unset(used, used.len() as int) <= fuel,
        fuel > 0,
    ensures
        ({
            let s = walk_steps(edges, used, here, e, fuel);
            let after = walk_used(edges, used, here, e, fuel);
            &&& s.len() > 0
            &&& forall|i: int|
                0 <= i < edges.len() && !#[trigger] after[i] ==> !touches(edges[i], head(edges, s.last()))
        }),
    decreases fuel,
{
    let s = step_from(edges, here, e);
    let now = used.update(e, true);
    let next = head(edges, s);
    lemma_first_at(edges, now, next, 0);
    lemma_unset_update(used, e, used.len() as int);
    lemma_unset_bounds(now, now.len() as int);
    lemma_first_from(edges, now, next, 0);
    match first_at(edges, now, next, 0) {
        None => {
            let all = walk_steps(edges, used, here, e, fuel);
            assert(all == seq![s]);
            assert(all.last() == s);
            assert(walk_used(edges, used, here, e, fuel) == now);
        },
        Some(n) => {
            lemma_walk_exhausts(edges, now, next, n, fuel - 1);
            let rest = walk_steps(edges, now, next, n, fuel - 1);
            let all = walk_steps(edges, used, here, e, fuel);
            assert(all == seq![s] + rest);
            assert(all.last() == rest.last());
            assert(walk_used(edges, used, here, e, fuel) == walk_used(edges, now, next, n, fuel - 1));
        },
    }
}

/// A walk takes the first edge it finds: of the unused ones where it stands, the
/// one with the least number.
pub proof fn a_walk_takes_the_first_edge(edges: Seq<SilEdge>, used: Seq<bool>, here: Key)
    requires
        used.len() == edges.len(),
    ensures
        match first_at(edges, used, here, 0) {
            Some(e) => {
                &&& 0 <= e < edges.len() && !used[e] && (edges[e].a == here || edges[e].b == here)
                &&& forall|i: int| 0 <= i < e && !#[trigger] used[i] ==> edges[i].a != here && edges[i].b != here
            },
            None => forall|i: int|
                0 <= i < edges.len() && !#[trigger] used[i] ==> edges[i].a != here && edges[i].b != here,
        },
{
    lemma_first_from(edges, used, here, 0);
}

proof fn lemma_first_from(edges: Seq<SilEdge>, used: Seq<bool>, here: Key, k: int)
    requires
        used.len() == edges.len(),
        0 <= k <= edges.len(),
    ensures
        match first_at(edges, used, here, k) {
            Some(e) => {
                &&& k <= e < edges.len() && !used[e] && touches(edges[e], here)
                &&& forall|i: int| k <= i < e && !#[trigger] used[i] ==> !touches(edges[i], here)
            },
            None => forall|i: int| k <= i < edges.len() && !#[trigger] used[i] ==> !touches(edges[i], here),
        },
    decreases edges.len() - k,
{
    if k < edges.len() {
        lemma_first_from(edges, used, here, k + 1);
    }
}

/// The open chains begin at the chain ends, in their order.
pub proof fn every_open_chain_begins_at_an_end(edges: Seq<SilEdge>, starts: Seq<Key>, n: int)
    requires
        0 <= n <= starts.len(),
        edges.len() <= usize::MAX,
    ensures
        ({
            let chains = open_walked(edges, starts, n).chains;
            &&& chains.len() <= n
            &&& forall|c: int|
                0 <= c < chains.len() ==> (#[trigger] chains[c]).len() > 0 && exists|i: int|
                    0 <= i < n && #[trigger] starts[i] == tail(edges, chains[c][0])
        }),
    decreases n,
{
    if n > 0 {
        every_open_chain_begins_at_an_end(edges, starts, n - 1);
        lemma_open_walked(edges, starts, n - 1);
        let w = open_walked(edges, starts, n - 1);
        let chains = open_walked(edges, starts, n).chains;
        a_walk_takes_the_first_edge(edges, w.used, starts[n - 1]);
        match first_at(edges, w.used, starts[n - 1], 0) {
            None => {},
            Some(e) => {
                a_walk_is_connected(edges, w.used, starts[n - 1], e);
                assert forall|c: int| 0 <= c < chains.len() implies (#[trigger] chains[c]).len() > 0 && exists|i: int|
                    0 <= i < n && #[trigger] starts[i] == tail(edges, chains[c][0]) by {
                    if c < w.chains.len() {
                        assert(chains[c] == w.chains[c]);
                    } else {
                        assert(starts[n - 1] == tail(edges, chains[c][0]));
                    }
                }
            },
        }
    }
}

} // verus!
