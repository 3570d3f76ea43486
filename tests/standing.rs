use loke::standing::{
    next_month, simulate_standing, AwardEffect, MarkEffect, MonthEffect, Payment, Standing,
};

#[test]
fn fresh_standing_is_clear() {
    let s = Standing::new();
    assert_eq!(s.marks, 0);
    assert_eq!(s.awards_in_a_row, 0);
    assert_eq!(s.last_award, None);
    assert_eq!(s.award_before_last, None);
    assert_eq!(s.months_without_award, 0);
    assert!(!s.bankrupt);
}

#[test]
fn three_missed_payments_bankrupt_in_third_month() {
    let events = vec![(Payment::Missed, Some(1u8)); 6];
    let effects = simulate_standing(&events);
    assert_eq!(effects.len(), 3);
    assert_eq!(effects[0].mark, MarkEffect::Penalty);
    assert_eq!(effects[1].mark, MarkEffect::Penalty);
    assert_eq!(
        effects[2],
        MonthEffect {
            mark: MarkEffect::Bankrupt,
            award: AwardEffect::Skipped
        }
    );
}

#[test]
fn marks_need_not_be_consecutive() {
    let events = vec![
        (Payment::Missed, None),
        (Payment::Paid, None),
        (Payment::Missed, None),
        (Payment::NotDue, None),
        (Payment::Missed, None),
        (Payment::Paid, None),
    ];
    let effects = simulate_standing(&events);
    assert_eq!(effects.len(), 5);
    assert_eq!(effects[4].mark, MarkEffect::Bankrupt);
    assert_eq!(effects[3].mark, MarkEffect::Clear);
}

#[test]
fn award_streak_grows_and_caps() {
    let events: Vec<(Payment, Option<u8>)> = (0..7u8)
        .map(|i| (Payment::Paid, Some(i % 2 + 1)))
        .collect();
    let effects = simulate_standing(&events);
    let streaks: Vec<u8> = effects
        .iter()
        .map(|e| match e.award {
            AwardEffect::Granted { repeated, streak } => {
                assert!(!repeated);
                streak
            }
            _ => panic!("an award was given"),
        })
        .collect();
    assert_eq!(streaks, vec![0, 1, 2, 3, 4, 5, 5]);
}

#[test]
fn third_equal_award_in_a_row_is_repeated() {
    let events = vec![
        (Payment::Paid, Some(4u8)),
        (Payment::Paid, None),
        (Payment::Paid, Some(4u8)),
        (Payment::Paid, Some(4u8)),
        (Payment::Paid, Some(4u8)),
        (Payment::Paid, Some(2u8)),
    ];
    let effects = simulate_standing(&events);
    assert_eq!(effects[0].award, AwardEffect::Granted { repeated: false, streak: 0 });
    assert_eq!(effects[1].award, AwardEffect::Idle { penalty_months: 0 });
    assert_eq!(effects[2].award, AwardEffect::Granted { repeated: false, streak: 0 });
    assert_eq!(effects[3].award, AwardEffect::Granted { repeated: true, streak: 1 });
    assert_eq!(effects[4].award, AwardEffect::Granted { repeated: true, streak: 2 });
    assert_eq!(effects[5].award, AwardEffect::Granted { repeated: false, streak: 3 });
}

#[test]
fn award_free_months_are_penalized_after_three() {
    let events = vec![(Payment::NotDue, None); 6];
    let effects = simulate_standing(&events);
    let penalties: Vec<u64> = effects
        .iter()
        .map(|e| match e.award {
            AwardEffect::Idle { penalty_months } => penalty_months,
            _ => panic!("no award was given"),
        })
        .collect();
    assert_eq!(penalties, vec![0, 0, 0, 4, 5, 6]);
}

#[test]
fn award_resets_idle_streak_and_idle_month_decays_award_streak() {
    let s = Standing::new();
    let (s, _) = next_month(&s, Payment::Paid, None);
    let (s, _) = next_month(&s, Payment::Paid, None);
    assert_eq!(s.months_without_award, 2);
    let (s, e) = next_month(&s, Payment::Paid, Some(3));
    assert_eq!(e.award, AwardEffect::Granted { repeated: false, streak: 0 });
    assert_eq!(s.months_without_award, 0);
    let (s, _) = next_month(&s, Payment::Paid, Some(5));
    assert_eq!(s.awards_in_a_row, 2);
    assert_eq!(s.last_award, Some(5));
    assert_eq!(s.award_before_last, Some(3));
    let (s, e) = next_month(&s, Payment::Missed, None);
    assert_eq!(e.mark, MarkEffect::Penalty);
    assert_eq!(s.awards_in_a_row, 1);
    assert_eq!(s.marks, 1);
}

#[test]
fn same_events_give_same_effects() {
    let events = vec![
        (Payment::Paid, Some(2u8)),
        (Payment::Missed, None),
        (Payment::Paid, Some(2u8)),
        (Payment::NotDue, None),
    ];
    assert_eq!(simulate_standing(&events), simulate_standing(&events.clone()));
}

#[test]
fn months_after_bankruptcy_do_not_matter() {
    let mut a = vec![(Payment::Missed, None); 3];
    a.extend(vec![(Payment::Paid, Some(1u8)); 4]);
    let mut b = vec![(Payment::Missed, None); 3];
    b.extend(vec![(Payment::NotDue, None); 2]);
    assert_eq!(simulate_standing(&a), simulate_standing(&b));
    assert_eq!(simulate_standing(&a).len(), 3);
}
