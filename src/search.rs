//! Bookkeeping of the rate and duration search: how often a particle's
//! cached award calendar is recomputed.
use vstd::arithmetic::div_mod::{lemma_fundamental_div_mod, lemma_fundamental_div_mod_converse};
use vstd::prelude::*;

verus! {

/// Advances the countdown of a cached award calendar by one evaluation. At
/// zero the calendar is recomputed and the countdown restarts at `period`;
/// otherwise the cached calendar is reused and the countdown drops by one.
/// Returns whether to recompute, and the new countdown.
pub fn tick_ttl(ttl: usize, period: usize) -> (r: (bool, usize))
    ensures
        r == (if ttl == 0 {
            (true, period)
        } else {
            (false, (ttl - 1) as usize)
        }),
{
    if ttl == 0 {
        (true, period)
    } else {
        (false, ttl - 1)
    }
}

/// The countdown before evaluation `k` (counting from 0) of a calendar
/// cached with countdown `period`.
pub open spec fn countdown(period: nat, k: nat) -> nat
    decreases k,
{
    if k == 0 {
        period
    } else {
        let c = countdown(period, (k - 1) as nat);
        if c == 0 {
            period
        } else {
            (c - 1) as nat
        }
    }
}

/// A calendar cached with countdown `period` is reused for `period`
/// evaluations and recomputed at the next: evaluation `k` (counting from 0)
/// recomputes it exactly when `k % (period + 1) == period`.
pub proof fn lemma_refresh_period(period: nat, k: nat)
    ensures
        countdown(period, k) == period - k % (period + 1),
        (countdown(period, k) == 0) == (k % (period + 1) == period),
    decreases k,
{
    let m = (period + 1) as int;
    if k == 0 {
        lemma_fundamental_div_mod_converse(0, m, 0, 0);
    } else {
        lemma_refresh_period(period, (k - 1) as nat);
        let r = ((k - 1) as int) % m;
        let q = ((k - 1) as int) / m;
        lemma_fundamental_div_mod((k - 1) as int, m);
        if r + 1 < m {
            lemma_fundamental_div_mod_converse(k as int, m, q, r + 1);
        } else {
            assert(k as int == (q + 1) * m + 0) by (nonlinear_arith)
                requires
                    (k - 1) as int == m * q + r,
                    r + 1 == m,
            ;
            lemma_fundamental_div_mod_converse(k as int, m, q + 1, 0);
        }
    }
}

} // verus!
