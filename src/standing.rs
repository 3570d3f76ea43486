//! A customer's standing from month to month: missed payments ("marks"),
//! bankruptcy, and the award streaks that scale happiness. The monetary
//! side of a month (capital, interest, award costs) is computed by the
//! caller; this module decides what each month does to the standing and
//! which happiness rules apply.
use vstd::prelude::*;

verus! {

/// Missed payments after which a customer is bankrupt.
pub const MARKS_LIMIT: u8 = 3;

/// Awards in a row beyond which the streak no longer grows.
pub const STREAK_CAP: u8 = 5;

/// Award-free months in a row that go unpunished.
pub const IDLE_GRACE: u64 = 3;

/// How the month's loan payment went.
#[derive(Clone, Copy, Debug, PartialEq, Eq, Structural)]
pub enum Payment {
    /// The repayment period is over: nothing was due.
    NotDue,
    /// Interest and amortization were covered by the customer's capital.
    Paid,
    /// Capital did not cover interest and amortization.
    Missed,
}

/// What a missed payment does to happiness.
#[derive(Clone, Copy, Debug, PartialEq, Eq, Structural)]
pub enum MarkEffect {
    /// No payment was missed.
    Clear,
    /// A payment was missed: happiness drops by 50.
    Penalty,
    /// The last allowed payment was missed: happiness becomes -500 and the
    /// customer takes no further part.
    Bankrupt,
}

/// What the month's award slot does to happiness.
#[derive(Clone, Copy, Debug, PartialEq, Eq, Structural)]
pub enum AwardEffect {
    /// The customer went bankrupt this month: the award step is skipped.
    Skipped,
    /// An award was given. Its happiness is scaled by -1 when `repeated`
    /// (the last three awards, this one included, are the same award), and
    /// otherwise by `1 - 0.2 * streak`, where `streak` counts the awards in a
    /// row before this one.
    Granted { repeated: bool, streak: u8 },
    /// No award was given. When `penalty_months` is not zero, happiness drops
    /// by `500 * penalty_months`.
    Idle { penalty_months: u64 },
}

/// The decisions of one month.
#[derive(Clone, Copy, Debug, PartialEq, Eq, Structural)]
pub struct MonthEffect {
    pub mark: MarkEffect,
    pub award: AwardEffect,
}

/// A customer's standing between months.
#[derive(Clone, Copy, Debug, PartialEq, Eq, Structural)]
pub struct Standing {
    pub marks: u8,
    pub awards_in_a_row: u8,
    pub last_award: Option<u8>,
    pub award_before_last: Option<u8>,
    pub months_without_award: u64,
    pub bankrupt: bool,
}

impl Standing {
    /// The standing of a customer before the first month.
    pub fn new() -> (r: Standing)
        ensures
            r == Standing::fresh(),
            r.wf(),
    {
        Standing {
            marks: 0,
            awards_in_a_row: 0,
            last_award: None,
            award_before_last: None,
            months_without_award: 0,
            bankrupt: false,
        }
    }

    pub open spec fn fresh() -> Standing {
        Standing {
            marks: 0,
            awards_in_a_row: 0,
            last_award: None,
            award_before_last: None,
            months_without_award: 0,
            bankrupt: false,
        }
    }

    /// Marks stay within the limit, the streak within its cap, and the
    /// customer is bankrupt exactly when the marks reached the limit.
    pub open spec fn wf(&self) -> bool {
        &&& self.marks <= MARKS_LIMIT
        &&& self.awards_in_a_row <= STREAK_CAP
        &&& self.bankrupt == (self.marks == MARKS_LIMIT)
    }
}

/// One month of the standing: the payment outcome first, then the award
/// slot, which is skipped in the month the customer goes bankrupt.
pub open spec fn month_step(s: Standing, payment: Payment, award: Option<u8>) -> (Standing, MonthEffect) {
    let marks: u8 = if payment == Payment::Missed {
        (s.marks + 1) as u8
    } else {
        s.marks
    };
    let mark = if payment == Payment::Missed {
        if marks >= MARKS_LIMIT {
            MarkEffect::Bankrupt
        } else {
            MarkEffect::Penalty
        }
    } else {
        MarkEffect::Clear
    };
    if mark == MarkEffect::Bankrupt {
        (Standing { marks, bankrupt: true, ..s }, MonthEffect { mark, award: AwardEffect::Skipped })
    } else {
        match award {
            Some(id) => {
                let repeated = s.last_award == Some(id) && s.award_before_last == Some(id);
                let streak = if s.awards_in_a_row + 1 <= STREAK_CAP {
                    (s.awards_in_a_row + 1) as u8
                } else {
                    STREAK_CAP
                };
                (
                    Standing {
                        marks,
                        awards_in_a_row: streak,
                        last_award: Some(id),
                        award_before_last: s.last_award,
                        months_without_award: 0,
                        bankrupt: false,
                    },
                    MonthEffect {
                        mark,
                        award: AwardEffect::Granted { repeated, streak: s.awards_in_a_row },
                    },
                )
            },
            None => {
                let idle = (s.months_without_award + 1) as u64;
                let streak = if s.awards_in_a_row > 0 {
                    (s.awards_in_a_row - 1) as u8
                } else {
                    0
                };
                (
                    Standing { marks, awards_in_a_row: streak, months_without_award: idle, ..s },
                    MonthEffect {
                        mark,
                        award: AwardEffect::Idle {
                            penalty_months: if idle > IDLE_GRACE {
                                idle
                            } else {
                                0
                            },
                        },
                    },
                )
            },
        }
    }
}

/// Decides one month for a customer who is not bankrupt.
pub fn next_month(s: &Standing, payment: Payment, award: Option<u8>) -> (r: (Standing, MonthEffect))
    requires
        s.wf(),
        !s.bankrupt,
        s.months_without_award < u64::MAX,
    ensures
        r == month_step(*s, payment, award),
        r.0.wf(),
{
    let marks: u8 = if payment == Payment::Missed {
        s.marks + 1
    } else {
        s.marks
    };
    let mark = if payment == Payment::Missed {
        if marks >= MARKS_LIMIT {
            MarkEffect::Bankrupt
        } else {
            MarkEffect::Penalty
        }
    } else {
        MarkEffect::Clear
    };
    if mark == MarkEffect::Bankrupt {
        return (Standing { marks, bankrupt: true, ..*s }, MonthEffect { mark, award: AwardEffect::Skipped });
    }
    match award {
        Some(id) => {
            let repeated = s.last_award == Some(id) && s.award_before_last == Some(id);
            let streak: u8 = if s.awards_in_a_row + 1 <= STREAK_CAP {
                s.awards_in_a_row + 1
            } else {
                STREAK_CAP
            };
            (
                Standing {
                    marks,
                    awards_in_a_row: streak,
                    last_award: Some(id),
                    award_before_last: s.last_award,
                    months_without_award: 0,
                    bankrupt: false,
                },
                MonthEffect { mark, award: AwardEffect::Granted { repeated, streak: s.awards_in_a_row } },
            )
        },
        None => {
            let idle: u64 = s.months_without_award + 1;
            let streak: u8 = if s.awards_in_a_row > 0 {
                s.awards_in_a_row - 1
            } else {
                0
            };
            let penalty_months: u64 = if idle > IDLE_GRACE {
                idle
            } else {
                0
            };
            (
                Standing { marks, awards_in_a_row: streak, months_without_award: idle, ..*s },
                MonthEffect { mark, award: AwardEffect::Idle { penalty_months } },
            )
        },
    }
}

/// The effects of consecutive months from standing `s`, one per month, up to
/// and including the month in which the customer goes bankrupt.
pub open spec fn run(s: Standing, events: Seq<(Payment, Option<u8>)>) -> Seq<MonthEffect>
    decreases events.len(),
{
    if events.len() == 0 || s.bankrupt {
        Seq::empty()
    } else {
        let (next, effect) = month_step(s, events[0].0, events[0].1);
        seq![effect] + run(next, events.drop_first())
    }
}

/// Runs the standing of a fresh customer through consecutive months and
/// returns each month's effects; the list ends early, with the month of
/// bankruptcy, when the customer goes bankrupt.
pub fn simulate_standing(events: &Vec<(Payment, Option<u8>)>) -> (r: Vec<MonthEffect>)
    ensures
        r@ == run(Standing::fresh(), events@),
{
    let mut s = Standing::new();
    let mut out: Vec<MonthEffect> = Vec::new();
    let mut i: usize = 0;
    assert(events@.skip(0) =~= events@);
    assert(out@ + run(s, events@) =~= run(s, events@));
    while i < events.len()
        invariant
            0 <= i <= events@.len(),
            s.wf(),
            s.months_without_award <= i,
            run(Standing::fresh(), events@) == out@ + run(s, events@.skip(i as int)),
        ensures
            i == events@.len() || s.bankrupt,
            run(Standing::fresh(), events@) == out@ + run(s, events@.skip(i as int)),
        decreases events@.len() - i,
    {
        if s.bankrupt {
            break;
        }
        let (payment, award) = events[i];
        let (next, effect) = next_month(&s, payment, award);
        assert(events@.skip(i as int).drop_first() =~= events@.skip(i as int + 1));
        assert(events@.skip(i as int)[0] == events@[i as int]);
        out.push(effect);
        assert(run(Standing::fresh(), events@) =~= out@ + run(next, events@.skip(i as int + 1)));
        s = next;
        i = i + 1;
    }
    assert(run(s, events@.skip(i as int)) == Seq::<MonthEffect>::empty());
    assert(out@ + run(s, events@.skip(i as int)) =~= out@);
    out
}

/// What a run yields depends on the starting standing and the months'
/// events alone: equal inputs give equal effects.
pub proof fn lemma_run_deterministic(
    s1: Standing,
    s2: Standing,
    e1: Seq<(Payment, Option<u8>)>,
    e2: Seq<(Payment, Option<u8>)>,
)
    requires
        s1 == s2,
        e1 == e2,
    ensures
        run(s1, e1) == run(s2, e2),
{
}

/// A customer who misses every payment goes bankrupt in the third month and
/// takes part in no later month: two penalties, then bankruptcy with that
/// month's award step skipped, which leaves happiness at exactly -500.
pub proof fn lemma_missed_payments_bankrupt(events: Seq<(Payment, Option<u8>)>)
    requires
        events.len() >= 3,
        forall|i: int| 0 <= i < events.len() ==> (#[trigger] events[i]).0 == Payment::Missed,
    ensures
        run(Standing::fresh(), events).len() == 3,
        run(Standing::fresh(), events)[0].mark == MarkEffect::Penalty,
        run(Standing::fresh(), events)[1].mark == MarkEffect::Penalty,
        run(Standing::fresh(), events)[2] == (MonthEffect {
            mark: MarkEffect::Bankrupt,
            award: AwardEffect::Skipped,
        }),
{
    let s0 = Standing::fresh();
    let e1 = events.drop_first();
    let e2 = e1.drop_first();
    let e3 = e2.drop_first();
    assert(events[0].0 == Payment::Missed);
    assert(e1[0] == events[1]);
    assert(e2[0] == events[2]);
    let (s1, f0) = month_step(s0, events[0].0, events[0].1);
    let (s2, f1) = month_step(s1, e1[0].0, e1[0].1);
    let (s3, f2) = month_step(s2, e2[0].0, e2[0].1);
    assert(s1.marks == 1 && !s1.bankrupt);
    assert(s2.marks == 2 && !s2.bankrupt);
    assert(s3.bankrupt);
    assert(run(s3, e3) == Seq::<MonthEffect>::empty());
    assert(run(s2, e2) =~= seq![f2]);
    assert(run(s1, e1) =~= seq![f1, f2]);
    assert(run(s0, events) =~= seq![f0, f1, f2]);
}

/// Missed payments among `events`.
pub open spec fn missed_count(events: Seq<(Payment, Option<u8>)>) -> nat
    decreases events.len(),
{
    if events.len() == 0 {
        0
    } else {
        (if events[0].0 == Payment::Missed {
            1nat
        } else {
            0nat
        }) + missed_count(events.drop_first())
    }
}

/// Bankruptcy comes exactly with the missed payment that brings the marks to
/// the limit, and a run stops early only at bankruptcy: month `i` bankrupts
/// the customer if and only if its payment is missed and the marks so far,
/// this one included, reach the limit.
pub proof fn lemma_bankrupt_exactly_at_limit(s: Standing, events: Seq<(Payment, Option<u8>)>)
    requires
        s.wf(),
        !s.bankrupt,
    ensures
        forall|i: int|
            0 <= i < run(s, events).len() ==> ((#[trigger] run(s, events)[i]).mark == MarkEffect::Bankrupt)
                == (events[i].0 == Payment::Missed && s.marks + missed_count(events.take(i + 1))
                == MARKS_LIMIT),
        run(s, events).len() == events.len() || (run(s, events).len() > 0 && run(s, events).last().mark
            == MarkEffect::Bankrupt),
        run(s, events).len() <= events.len(),
    decreases events.len(),
{
    if events.len() > 0 {
        let (next, f) = month_step(s, events[0].0, events[0].1);
        let rest = events.drop_first();
        let r = run(s, events);
        let missed0: nat = if events[0].0 == Payment::Missed { 1 } else { 0 };
        assert(events.take(1).drop_first() =~= Seq::<(Payment, Option<u8>)>::empty());
        assert(missed_count(events.take(1)) == missed0 + missed_count(events.take(1).drop_first()));
        assert(missed_count(Seq::<(Payment, Option<u8>)>::empty()) == 0);
        if f.mark == MarkEffect::Bankrupt {
            assert(run(next, rest) == Seq::<MonthEffect>::empty());
            assert(r =~= seq![f]);
        } else {
            lemma_bankrupt_exactly_at_limit(next, rest);
            let q = run(next, rest);
            assert(r == seq![f] + q);
            assert forall|i: int| 0 <= i < r.len() implies ((#[trigger] r[i]).mark == MarkEffect::Bankrupt)
                == (events[i].0 == Payment::Missed && s.marks + missed_count(events.take(i + 1))
                == MARKS_LIMIT) by {
                if i > 0 {
                    assert(r[i] == q[i - 1]);
                    assert(events[i] == rest[i - 1]);
                    assert(events.take(i + 1).drop_first() =~= rest.take(i));
                    assert(missed_count(events.take(i + 1)) == missed0 + missed_count(rest.take(i)));
                }
            }
            if q.len() > 0 {
                assert(r.last() == q.last());
            }
        }
    }
}

proof fn lemma_run_len(s: Standing, events: Seq<(Payment, Option<u8>)>)
    ensures
        run(s, events).len() <= events.len(),
    decreases events.len(),
{
    if events.len() > 0 && !s.bankrupt {
        let (next, f) = month_step(s, events[0].0, events[0].1);
        lemma_run_len(next, events.drop_first());
    }
}

/// Months after the one in which the customer goes bankrupt do not matter:
/// events that agree up to and including that month give the same run.
pub proof fn lemma_run_ignores_after_bankruptcy(
    s: Standing,
    e1: Seq<(Payment, Option<u8>)>,
    e2: Seq<(Payment, Option<u8>)>,
)
    requires
        run(s, e1).len() > 0,
        run(s, e1).last().mark == MarkEffect::Bankrupt,
        e2.len() >= run(s, e1).len(),
        forall|i: int| 0 <= i < run(s, e1).len() ==> #[trigger] e1[i] == e2[i],
    ensures
        run(s, e2) == run(s, e1),
    decreases e1.len(),
{
    let r1 = run(s, e1);
    lemma_run_len(s, e1);
    assert(e1[0] == e2[0]);
    let (next, f) = month_step(s, e1[0].0, e1[0].1);
    if f.mark == MarkEffect::Bankrupt {
        assert(run(next, e1.drop_first()) == Seq::<MonthEffect>::empty());
        assert(run(next, e2.drop_first()) == Seq::<MonthEffect>::empty());
    } else {
        let q1 = run(next, e1.drop_first());
        assert(r1 == seq![f] + q1);
        if q1.len() == 0 {
            assert(r1 =~= seq![f]);
        }
        assert(q1.last() == r1.last());
        assert forall|i: int| 0 <= i < q1.len() implies #[trigger] e1.drop_first()[i] == e2.drop_first()[i] by {
            assert(e1[i + 1] == e2[i + 1]);
        }
        lemma_run_ignores_after_bankruptcy(next, e1.drop_first(), e2.drop_first());
    }
}

} // verus!
