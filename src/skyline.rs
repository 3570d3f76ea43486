//! Pareto pruning for the award-calendar search. Scores and costs enter as
//! integer keys whose order is the order of the amounts they stand for.
use vstd::prelude::*;

verus! {

/// Candidate `k` comes before candidate `j`: a higher score; or an equal
/// score and a lower cost; or equal score and cost and an earlier position.
pub open spec fn precedes(scores: Seq<i64>, costs: Seq<i64>, k: int, j: int) -> bool {
    scores[k] > scores[j] || (scores[k] == scores[j] && (costs[k] < costs[j] || (costs[k] == costs[j]
        && k < j)))
}

/// Candidate `j` is on the skyline: every candidate before it costs
/// strictly more.
pub open spec fn on_skyline(scores: Seq<i64>, costs: Seq<i64>, j: int) -> bool {
    forall|k: int| 0 <= k < scores.len() && #[trigger] precedes(scores, costs, k, j) ==> costs[k] > costs[j]
}

/// `r` lists exactly the candidates on the skyline, highest score first.
pub open spec fn is_skyline(scores: Seq<i64>, costs: Seq<i64>, r: Seq<usize>) -> bool {
    &&& forall|t: int| 0 <= t < r.len() ==> (#[trigger] r[t]) < scores.len() && on_skyline(scores, costs, r[t] as int)
    &&& forall|j: int| 0 <= j < scores.len() && on_skyline(scores, costs, j) ==> #[trigger] r.contains(j as usize)
    &&& forall|t: int, u: int| 0 <= t < u < r.len() ==> precedes(scores, costs, #[trigger] r[t] as int, #[trigger] r[u] as int)
}

/// One candidate is at least as good as another: no lower score and no
/// higher cost.
pub open spec fn dominates(scores: Seq<i64>, costs: Seq<i64>, a: int, b: int) -> bool {
    scores[a] >= scores[b] && costs[a] <= costs[b]
}

/// Orders the candidates by score, highest first (equal scores by cost,
/// lowest first, then by position), and keeps each one that costs strictly
/// less than all before it. Returns the positions of the kept candidates in
/// that order: scores and costs strictly fall along it, and no kept
/// candidate is at least as good as another.
pub fn skyline(scores: &Vec<i64>, costs: &Vec<i64>) -> (r: Vec<usize>)
    requires
        scores@.len() == costs@.len(),
    ensures
        is_skyline(scores@, costs@, r@),
        forall|t: int, u: int|
            0 <= t < u < r@.len() ==> scores@[#[trigger] r@[t] as int] > scores@[#[trigger] r@[u] as int]
                && costs@[r@[t] as int] > costs@[r@[u] as int],
        forall|t: int, u: int|
            0 <= t < r@.len() && 0 <= u < r@.len() && t != u ==> !dominates(scores@, costs@, #[trigger] r@[t] as int, #[trigger] r@[u] as int),
{
    let n = scores.len();
    let mut out: Vec<usize> = Vec::new();
    let mut j: usize = 0;
    while j < n
        invariant
            n == scores@.len(),
            n == costs@.len(),
            0 <= j <= n,
            forall|t: int| 0 <= t < out@.len() ==> (#[trigger] out@[t]) < j && on_skyline(scores@, costs@, out@[t] as int),
            forall|i: int| 0 <= i < j && on_skyline(scores@, costs@, i) ==> #[trigger] out@.contains(i as usize),
            forall|t: int, u: int| 0 <= t < u < out@.len() ==> precedes(scores@, costs@, #[trigger] out@[t] as int, #[trigger] out@[u] as int),
        decreases n - j,
    {
        let mut keep = true;
        let mut k: usize = 0;
        while k < n
            invariant
                n == scores@.len(),
                n == costs@.len(),
                0 <= j < n,
                0 <= k <= n,
                keep ==> forall|m: int| 0 <= m < k && #[trigger] precedes(scores@, costs@, m, j as int) ==> costs@[m] > costs@[j as int],
                !keep ==> exists|m: int| 0 <= m < k && #[trigger] precedes(scores@, costs@, m, j as int) && costs@[m] <= costs@[j as int],
                forall|t: int| 0 <= t < out@.len() ==> (#[trigger] out@[t]) < j && on_skyline(scores@, costs@, out@[t] as int),
                forall|i: int| 0 <= i < j && on_skyline(scores@, costs@, i) ==> #[trigger] out@.contains(i as usize),
                forall|t: int, u: int| 0 <= t < u < out@.len() ==> precedes(scores@, costs@, #[trigger] out@[t] as int, #[trigger] out@[u] as int),
            decreases n - k,
        {
            let before = scores[k] > scores[j] || (scores[k] == scores[j] && (costs[k] < costs[j] || (costs[k] == costs[j] && k < j)));
            assert(before == precedes(scores@, costs@, k as int, j as int));
            if before && costs[k] <= costs[j] {
                keep = false;
            }
            k = k + 1;
        }
        if keep {
            let mut p: usize = 0;
            while p < out.len() && !(scores[j] > scores[out[p]] || (scores[j] == scores[out[p]] && (costs[j] < costs[out[p]] || (costs[j] == costs[out[p]] && j < out[p]))))
                invariant
                    n == scores@.len(),
                    0 <= j < n,
                    0 <= p <= out@.len(),
                    forall|t: int| 0 <= t < out@.len() ==> (#[trigger] out@[t]) < j,
                    forall|t: int| 0 <= t < p ==> precedes(scores@, costs@, #[trigger] out@[t] as int, j as int),
                    n == costs@.len(),
                forall|t: int| 0 <= t < out@.len() ==> (#[trigger] out@[t]) < j && on_skyline(scores@, costs@, out@[t] as int),
                forall|i: int| 0 <= i < j && on_skyline(scores@, costs@, i) ==> #[trigger] out@.contains(i as usize),
                forall|t: int, u: int| 0 <= t < u < out@.len() ==> precedes(scores@, costs@, #[trigger] out@[t] as int, #[trigger] out@[u] as int),
                decreases out@.len() - p,
            {
                p = p + 1;
            }
            proof {
                assert forall|t: int| p <= t < out@.len() implies precedes(scores@, costs@, j as int, #[trigger] out@[t] as int) by {
                    if t > p {
                        assert(precedes(scores@, costs@, out@[p as int] as int, out@[t] as int));
                    }
                }
            }
            let ghost old_out = out@;
            out.insert(p, j);
            proof {
                assert forall|i: int| 0 <= i < j + 1 && on_skyline(scores@, costs@, i) implies #[trigger] out@.contains(i as usize) by {
                    if i < j {
                        assert(old_out.contains(i as usize));
                        let t = choose|t: int| 0 <= t < old_out.len() && old_out[t] == i as usize;
                        if t < p {
                            assert(out@[t] == i as usize);
                        } else {
                            assert(out@[t + 1] == i as usize);
                        }
                    } else {
                        assert(out@[p as int] == j);
                    }
                }
                assert forall|t: int, u: int| 0 <= t < u < out@.len() implies precedes(scores@, costs@, #[trigger] out@[t] as int, #[trigger] out@[u] as int) by {
                    if u < p {
                        assert(out@[t] == old_out[t] && out@[u] == old_out[u]);
                    } else if u == p {
                        assert(out@[t] == old_out[t]);
                    } else if t < p {
                        assert(out@[t] == old_out[t] && out@[u] == old_out[u - 1]);
                    } else if t == p {
                        assert(out@[u] == old_out[u - 1]);
                    } else {
                        assert(out@[t] == old_out[t - 1] && out@[u] == old_out[u - 1]);
                    }
                }
                assert forall|t: int| 0 <= t < out@.len() implies (#[trigger] out@[t]) < j + 1 && on_skyline(scores@, costs@, out@[t] as int) by {
                    if t < p {
                        assert(out@[t] == old_out[t]);
                    } else if t > p {
                        assert(out@[t] == old_out[t - 1]);
                    }
                }
            }
        } else {
            proof {
                assert forall|i: int| 0 <= i < j + 1 && on_skyline(scores@, costs@, i) implies #[trigger] out@.contains(i as usize) by {
                    if i == j {
                        let m = choose|m: int| 0 <= m < n && #[trigger] precedes(scores@, costs@, m, j as int) && costs@[m] <= costs@[j as int];
                        assert(!on_skyline(scores@, costs@, i));
                    }
                }
            }
        }
        j = j + 1;
    }
    proof {
        lemma_skyline_cost_falls(scores@, costs@, out@);
        lemma_skyline_no_domination(scores@, costs@, out@);
    }
    out
}

/// Along a skyline both the score and the cost strictly fall.
pub proof fn lemma_skyline_cost_falls(scores: Seq<i64>, costs: Seq<i64>, r: Seq<usize>)
    requires
        scores.len() == costs.len(),
        is_skyline(scores, costs, r),
    ensures
        forall|t: int, u: int|
            0 <= t < u < r.len() ==> scores[#[trigger] r[t] as int] > scores[#[trigger] r[u] as int]
                && costs[r[t] as int] > costs[r[u] as int],
{
    assert forall|t: int, u: int| 0 <= t < u < r.len() implies scores[#[trigger] r[t] as int]
        > scores[#[trigger] r[u] as int] && costs[r[t] as int] > costs[r[u] as int] by {
        assert(precedes(scores, costs, r[t] as int, r[u] as int));
        assert(on_skyline(scores, costs, r[u] as int));
    }
}

/// No entry of a skyline is at least as good as another entry.
pub proof fn lemma_skyline_no_domination(scores: Seq<i64>, costs: Seq<i64>, r: Seq<usize>)
    requires
        scores.len() == costs.len(),
        is_skyline(scores, costs, r),
    ensures
        forall|t: int, u: int|
            0 <= t < r.len() && 0 <= u < r.len() && t != u ==> !dominates(scores, costs, #[trigger] r[t] as int, #[trigger] r[u] as int),
{
    assert forall|t: int, u: int| 0 <= t < r.len() && 0 <= u < r.len() && t != u implies !dominates(scores, costs, #[trigger] r[t] as int, #[trigger] r[u] as int) by {
        let (a, b) = if t < u { (t, u) } else { (u, t) };
        assert(precedes(scores, costs, r[a] as int, r[b] as int));
        assert(on_skyline(scores, costs, r[b] as int));
    }
}

/// A partial result reached at one search key: its score, running budget
/// shortfall, peak budget required (all as order keys) and award-free
/// months in a row.
#[derive(Clone, Copy, Debug, PartialEq, Eq, Structural)]
pub struct Reached {
    pub score: i64,
    pub shortfall: i64,
    pub required: i64,
    pub idle_months: u64,
}

/// `a` makes `b` redundant: no lower score, and no higher shortfall, peak
/// budget or award-free streak.
pub open spec fn covers(a: Reached, b: Reached) -> bool {
    &&& a.score >= b.score
    &&& a.shortfall <= b.shortfall
    &&& a.required <= b.required
    &&& a.idle_months <= b.idle_months
}

/// The results kept at one search key, at most one per score.
pub struct ParetoMemo {
    entries: Vec<Reached>,
}

impl ParetoMemo {
    pub closed spec fn view(&self) -> Seq<Reached> {
        self.entries@
    }

    /// No two kept results share a score.
    pub open spec fn wf(&self) -> bool {
        forall|a: int, b: int| 0 <= a < b < self@.len() ==> (#[trigger] self@[a]).score != (#[trigger] self@[b]).score
    }

    pub fn new() -> (r: ParetoMemo)
        ensures
            r.wf(),
            r@ == Seq::<Reached>::empty(),
    {
        ParetoMemo { entries: Vec::new() }
    }

    /// Offers a new result: it is discarded when a kept result covers it;
    /// otherwise it is kept, in place of the result of equal score if there
    /// is one. Returns whether it was kept.
    pub fn offer(&mut self, e: Reached) -> (kept: bool)
        requires
            old(self).wf(),
        ensures
            final(self).wf(),
            kept == !exists|k: int| 0 <= k < old(self)@.len() && covers(#[trigger] old(self)@[k], e),
            !kept ==> final(self)@ == old(self)@,
            kept ==> (exists|k: int| 0 <= k < old(self)@.len() && (#[trigger] old(self)@[k]).score == e.score && final(self)@ == old(self)@.update(k, e))
                || ((forall|k: int| 0 <= k < old(self)@.len() ==> (#[trigger] old(self)@[k]).score != e.score) && final(self)@ == old(self)@.push(e)),
    {
        let mut i: usize = 0;
        let mut same: Option<usize> = None;
        while i < self.entries.len()
            invariant
                self.wf(),
                self@ == old(self)@,
                0 <= i <= self@.len(),
                forall|k: int| 0 <= k < i ==> !covers(#[trigger] self@[k], e),
                same matches Some(x) ==> x < i && self@[x as int].score == e.score,
                same is None ==> forall|k: int| 0 <= k < i ==> (#[trigger] self@[k]).score != e.score,
            decreases self@.len() - i,
        {
            let c = self.entries[i];
            if c.score >= e.score && c.shortfall <= e.shortfall && c.required <= e.required && c.idle_months <= e.idle_months {
                assert(covers(self@[i as int], e));
                return false;
            }
            if c.score == e.score {
                same = Some(i);
            }
            i = i + 1;
        }
        match same {
            Some(x) => {
                self.entries.set(x, e);
                assert forall|a: int, b: int| 0 <= a < b < self@.len() implies (#[trigger] self@[a]).score != (#[trigger] self@[b]).score by {
                    if a != x && b != x {
                        assert(old(self)@[a] == self@[a] && old(self)@[b] == self@[b]);
                    } else if a == x {
                        assert(old(self)@[b] == self@[b]);
                        assert(old(self)@[a].score == e.score);
                    } else {
                        assert(old(self)@[a] == self@[a]);
                        assert(old(self)@[b].score == e.score);
                    }
                }
            },
            None => {
                self.entries.push(e);
                assert forall|a: int, b: int| 0 <= a < b < self@.len() implies (#[trigger] self@[a]).score != (#[trigger] self@[b]).score by {
                    if b < old(self)@.len() {
                        assert(old(self)@[a] == self@[a] && old(self)@[b] == self@[b]);
                    } else {
                        assert(old(self)@[a] == self@[a]);
                    }
                }
            },
        }
        true
    }
}

} // verus!
