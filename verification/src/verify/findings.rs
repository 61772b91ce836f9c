//! What a check finds place by place, and what its tally makes of it.
use vstd::prelude::*;

use crate::verify::{
    offered, past_count, ranked, scored, the_worst_offenders_are_kept, worse, Offender, Scores, Sense,
};

verus! {

/// What is found at one place: a sample, and an offender where it is past the
/// threshold.
pub struct Finding {
    pub sample: int,
    pub offender: Option<Offender>,
}

/// A finding that is an offender where its value is above a threshold.
pub open spec fn above(value: int, threshold: int, o: Offender) -> Option<Finding> {
    Some(
        Finding {
            sample: value,
            offender: if value > threshold {
                Some(o)
            } else {
                None
            },
        },
    )
}

/// A finding that is an offender where its value is below a threshold.
pub open spec fn below(value: int, threshold: int, o: Offender) -> Option<Finding> {
    Some(
        Finding {
            sample: value,
            offender: if value < threshold {
                Some(o)
            } else {
                None
            },
        },
    )
}

/// The scores after the first `n` findings.
pub open spec fn gathered(s: Scores, found: Seq<Option<Finding>>, n: int) -> Scores
    decreases n,
{
    if n <= 0 {
        s
    } else {
        let rest = gathered(s, found, n - 1);
        match found[n - 1] {
            Some(f) => scored(rest, f.sample, f.offender),
            None => rest,
        }
    }
}

/// The scores after every row of findings of the first `n`.
pub open spec fn gathered_rows(s: Scores, rows: Seq<Seq<Option<Finding>>>, n: int) -> Scores
    decreases n,
{
    if n <= 0 {
        s
    } else {
        gathered(gathered_rows(s, rows, n - 1), rows[n - 1], rows[n - 1].len() as int)
    }
}

/// How many of the first `n` places had a finding.
pub open spec fn found_by(found: Seq<Option<Finding>>, n: int) -> int
    decreases n,
{
    if n <= 0 {
        0
    } else {
        found_by(found, n - 1) + if found[n - 1] is Some {
            1int
        } else {
            0
        }
    }
}

/// Every finding is a sample, in order, behind what was there; and nothing else
/// is.
pub proof fn every_finding_is_a_sample(s: Scores, found: Seq<Option<Finding>>, n: int, i: int)
    requires
        0 <= n <= found.len(),
    ensures
        ({
            let all = gathered(s, found, n).samples;
            &&& all.len() == s.samples.len() + found_by(found, n)
            &&& all.take(s.samples.len() as int) == s.samples
            &&& 0 <= found_by(found, n) <= n
            &&& 0 <= i < n ==> (found[i] matches Some(f) ==> {
                let k = s.samples.len() + found_by(found, i);
                0 <= found_by(found, i) < found_by(found, n) && all[k] == f.sample
            })
        }),
        gathered(s, found, n).sense == s.sense,
        gathered(s, found, n).keep == s.keep,
    decreases n,
{
    if n > 0 {
        every_finding_is_a_sample(s, found, n - 1, i);
        every_finding_is_a_sample(s, found, n - 1, n - 1);
        let was = gathered(s, found, n - 1).samples;
        let all = gathered(s, found, n).samples;
        assert(all.take(s.samples.len() as int) =~= was.take(s.samples.len() as int));
    } else {
        assert(s.samples.take(s.samples.len() as int) =~= s.samples);
    }
}

/// An offender that is not kept is no worse than any that is.
pub proof fn an_offender_is_kept_or_outdone(s: Scores, found: Seq<Option<Finding>>, n: int, i: int)
    requires
        0 <= i < n <= found.len(),
        0 <= s.keep,
        s.worst.len() <= s.keep,
        ranked(s.sense, s.worst),
        found[i] matches Some(f) && f.offender is Some,
    ensures
        ({
            let worst = gathered(s, found, n).worst;
            let o = found[i]->0.offender->0;
            &&& ranked(s.sense, worst)
            &&& worst.len() <= s.keep
            &&& worst.contains(o) || (worst.len() == s.keep && forall|j: int|
                0 <= j < worst.len() ==> !worse(s.sense, o.value as int, (#[trigger] worst[j]).value as int))
        }),
    decreases n,
{
    lemma_ranked(s, found, n - 1);
    every_finding_is_a_sample(s, found, n - 1, 0);
    let was = gathered(s, found, n - 1);
    let now = gathered(s, found, n);
    let o = found[i]->0.offender->0;
    if i < n - 1 {
        an_offender_is_kept_or_outdone(s, found, n - 1, i);
    }
    if let Some(f) = found[n - 1] {
        if let Some(x) = f.offender {
            the_worst_offenders_are_kept(s.sense, s.keep, was.worst, x);
            lemma_offered_len(s.sense, s.keep, was.worst, x);
            lemma_kept_where_there_is_room(s.sense, s.keep, was.worst, x, o);
            if i < n - 1 {
                if was.worst.contains(o) {
                    let k = choose|k: int| 0 <= k < was.worst.len() && was.worst[k] == o;
                    assert(was.worst[k] == o);
                } else {
                    assert forall|j: int| 0 <= j < now.worst.len() implies !worse(
                        s.sense,
                        o.value as int,
                        (#[trigger] now.worst[j]).value as int,
                    ) by {
                        lemma_offered_from(s.sense, s.keep, was.worst, x, j);
                        if now.worst[j] == x && !was.worst.contains(x) {
                            lemma_outdone(s.sense, s.keep, was.worst, x, o, j);
                        } else {
                            let k = choose|k: int| 0 <= k < was.worst.len() && was.worst[k] == now.worst[j];
                            assert(!worse(s.sense, o.value as int, was.worst[k].value as int));
                        }
                    }
                }
            }
        }
    }
}

proof fn lemma_ranked(s: Scores, found: Seq<Option<Finding>>, n: int)
    requires
        0 <= n <= found.len(),
        0 <= s.keep,
        s.worst.len() <= s.keep,
        ranked(s.sense, s.worst),
    ensures
        ranked(s.sense, gathered(s, found, n).worst),
        gathered(s, found, n).worst.len() <= s.keep,
    decreases n,
{
    if n > 0 {
        lemma_ranked(s, found, n - 1);
        every_finding_is_a_sample(s, found, n - 1, 0);
        if let Some(f) = found[n - 1] {
            if let Some(x) = f.offender {
                the_worst_offenders_are_kept(s.sense, s.keep, gathered(s, found, n - 1).worst, x);
            }
        }
    }
}

proof fn lemma_offered_len(sense: Sense, keep: int, list: Seq<Offender>, o: Offender)
    requires
        0 <= keep,
        list.len() <= keep,
        ranked(sense, list),
    ensures
        offered(sense, keep, list, o).len() == if list.len() < keep {
            list.len() as int + 1
        } else {
            keep
        },
{
    crate::verify::lemma_rank_of(sense, list, o.value as int, list.len() as int);
}

proof fn lemma_kept_where_there_is_room(sense: Sense, keep: int, list: Seq<Offender>, x: Offender, o: Offender)
    requires
        0 <= keep,
        list.len() <= keep,
        ranked(sense, list),
    ensures
        list.len() < keep && (o == x || list.contains(o)) ==> offered(sense, keep, list, x).contains(o),
{
    crate::verify::lemma_rank_of(sense, list, x.value as int, list.len() as int);
    let r = crate::verify::rank_of(sense, list, x.value as int, list.len() as int);
    let all = offered(sense, keep, list, x);
    if list.len() < keep {
        assert(all[r] == x);
        if list.contains(o) {
            let k = choose|k: int| 0 <= k < list.len() && list[k] == o;
            assert(all[if k < r {
                k
            } else {
                k + 1
            }] == o);
        }
    }
}

proof fn lemma_offered_from(sense: Sense, keep: int, list: Seq<Offender>, o: Offender, j: int)
    requires
        0 <= keep,
        list.len() <= keep,
        ranked(sense, list),
        0 <= j < offered(sense, keep, list, o).len(),
    ensures
        offered(sense, keep, list, o)[j] == o || list.contains(offered(sense, keep, list, o)[j]),
{
    crate::verify::lemma_rank_of(sense, list, o.value as int, list.len() as int);
    let r = crate::verify::rank_of(sense, list, o.value as int, list.len() as int);
    let x = offered(sense, keep, list, o)[j];
    if j < r {
        assert(x == list[j]);
    } else if j > r {
        assert(x == list[j - 1]);
    }
}

/// Where a full list lets an offender in, it stands before what it pushed out,
/// which was no better than one already outdone.
proof fn lemma_outdone(sense: Sense, keep: int, list: Seq<Offender>, x: Offender, o: Offender, j: int)
    requires
        0 <= keep,
        list.len() == keep,
        ranked(sense, list),
        0 <= j < offered(sense, keep, list, x).len(),
        offered(sense, keep, list, x)[j] == x,
        !list.contains(x),
        forall|k: int| 0 <= k < list.len() ==> !worse(sense, o.value as int, (#[trigger] list[k]).value as int),
    ensures
        !worse(sense, o.value as int, x.value as int),
{
    crate::verify::lemma_rank_of(sense, list, x.value as int, list.len() as int);
    let r = crate::verify::rank_of(sense, list, x.value as int, list.len() as int);
    if j < r {
        assert(offered(sense, keep, list, x)[j] == list[j]);
        assert(false);
    } else if j > r {
        assert(offered(sense, keep, list, x)[j] == list[j - 1]);
        assert(false);
    }
    assert(r < list.len());
    assert(worse(sense, x.value as int, list[r].value as int));
    assert(!worse(sense, o.value as int, list[r].value as int));
}

/// What is counted past a threshold is every sample past it, each once.
pub proof fn every_sample_past_the_threshold_is_counted(sense: Sense, threshold: int, samples: Seq<int>, ones: Seq<int>)
    requires
        ones.len() == samples.len(),
        forall|i: int|
            0 <= i < samples.len() ==> #[trigger] ones[i] == if (sense == Sense::HigherIsWorse && samples[i] > threshold)
                || (sense == Sense::LowerIsWorse && samples[i] < threshold) {
                1int
            } else {
                0
            },
    ensures
        past_count(sense, threshold, samples, samples.len() as int) == crate::arith::total(ones),
{
    lemma_past_count(sense, threshold, samples, ones, samples.len() as int);
    assert(ones.take(samples.len() as int) =~= ones);
}

proof fn lemma_past_count(sense: Sense, threshold: int, samples: Seq<int>, ones: Seq<int>, n: int)
    requires
        0 <= n <= samples.len() == ones.len(),
        forall|i: int|
            0 <= i < samples.len() ==> #[trigger] ones[i] == if (sense == Sense::HigherIsWorse && samples[i] > threshold)
                || (sense == Sense::LowerIsWorse && samples[i] < threshold) {
                1int
            } else {
                0
            },
    ensures
        past_count(sense, threshold, samples, n) == crate::arith::total(ones.take(n)),
    decreases n,
{
    if n > 0 {
        lemma_past_count(sense, threshold, samples, ones, n - 1);
        assert(ones.take(n).drop_last() =~= ones.take(n - 1));
        assert(ones.take(n).last() == ones[n - 1]);
    }
}

/// The scores after every row of every sheet of findings of the first `n`.
pub open spec fn gathered_sheets(s: Scores, sheets: Seq<Seq<Seq<Option<Finding>>>>, n: int) -> Scores
    decreases n,
{
    if n <= 0 {
        s
    } else {
        gathered_rows(gathered_sheets(s, sheets, n - 1), sheets[n - 1], sheets[n - 1].len() as int)
    }
}

} // verus!
