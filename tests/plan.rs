use loke::plan::{
    action_for, check_submission, duration_allowed, month_actions, months_limit_multiplier,
    months_limit_of_lowercase, non_zero_u8_max, rebate_of, EntryShape, InterestRebate,
    SubmissionError,
};

#[test]
fn action_for_award_and_skip() {
    let a = action_for(Some("Cashback"));
    assert_eq!((a.type_, a.award), ("Award", "Cashback"));
    let s = action_for(None);
    assert_eq!((s.type_, s.award), ("Skip", "None"));
}

#[test]
fn month_actions_per_customer() {
    let calendars = vec![
        vec![None, Some("Movie"), None],
        vec![Some("NoInterestRate"), None],
    ];
    let m1 = month_actions(&calendars, 1);
    assert_eq!((m1[0].type_, m1[0].award), ("Award", "Movie"));
    assert_eq!((m1[1].type_, m1[1].award), ("Skip", "None"));
    let m0 = month_actions(&calendars, 0);
    assert_eq!((m0[1].type_, m0[1].award), ("Award", "NoInterestRate"));
    // Past the end of a calendar, the customer skips.
    let m2 = month_actions(&calendars, 2);
    assert_eq!((m2[1].type_, m2[1].award), ("Skip", "None"));
}

#[test]
fn months_limit_by_personality() {
    assert_eq!(months_limit_of_lowercase("conservative"), Some(1));
    assert_eq!(months_limit_of_lowercase("risktaker"), Some(2));
    assert_eq!(months_limit_of_lowercase("innovative"), Some(3));
    assert_eq!(months_limit_of_lowercase("practical"), Some(4));
    assert_eq!(months_limit_of_lowercase("spontaneous"), Some(5));
    assert_eq!(months_limit_of_lowercase("Practical"), None);
    assert_eq!(months_limit_of_lowercase("reckless"), None);
}

#[test]
fn months_limit_ignores_case() {
    assert_eq!(months_limit_multiplier("RiskTaker"), Some(2));
    assert_eq!(months_limit_multiplier("SPONTANEOUS"), Some(5));
    assert_eq!(months_limit_multiplier("Conservative"), Some(1));
    assert_eq!(months_limit_multiplier("Unknown"), None);
}

#[test]
fn rebates_of_the_relief_awards() {
    assert_eq!(rebate_of("NoInterestRate"), InterestRebate::Full);
    assert_eq!(rebate_of("HalfInterestRate"), InterestRebate::Half);
    assert_eq!(rebate_of("Cashback"), InterestRebate::Zero);
    assert_eq!(rebate_of("nointerestrate"), InterestRebate::Zero);
}

#[test]
fn duration_limits() {
    assert!(duration_allowed(12, 1, 12));
    assert!(!duration_allowed(13, 1, 12));
    assert!(duration_allowed(60, 5, 12));
    assert!(!duration_allowed(1, 0, 12));
    assert!(duration_allowed(usize::MAX, usize::MAX, 2));
}

fn entry(calendar_len: usize, known_customer: bool, months: usize) -> EntryShape {
    EntryShape {
        calendar_len,
        known_customer,
        months,
        limit_multiplier: 2,
    }
}

#[test]
fn submission_checks_in_order() {
    assert_eq!(check_submission(&vec![], 12), Err(SubmissionError::Empty));
    assert_eq!(
        check_submission(&vec![entry(11, false, 99), entry(13, true, 1)], 12),
        Err(SubmissionError::CalendarTooLong)
    );
    assert_eq!(
        check_submission(&vec![entry(12, false, 99), entry(11, true, 1)], 12),
        Err(SubmissionError::CalendarTooShort)
    );
    assert_eq!(
        check_submission(&vec![entry(12, true, 99), entry(12, false, 1)], 12),
        Err(SubmissionError::UnknownCustomer)
    );
    assert_eq!(
        check_submission(&vec![entry(12, true, 24), entry(12, true, 25)], 12),
        Err(SubmissionError::DurationTooLong)
    );
    assert_eq!(
        check_submission(&vec![entry(12, true, 24), entry(12, true, 0)], 12),
        Ok(())
    );
}

#[test]
fn unassigned_award_id() {
    assert_eq!(non_zero_u8_max(), 255);
}
