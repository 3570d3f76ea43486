use loke::schedule::{alternating_calendar, distinct_pairs, key_count, key_index};

#[test]
fn key_index_layout() {
    assert_eq!(key_count(12), 312);
    assert_eq!(key_index(false, 0, 0, false, 12), 0);
    assert_eq!(key_index(false, 5, 0, false, 12), 5);
    assert_eq!(key_index(false, 0, 0, true, 12), 13);
    assert_eq!(key_index(false, 0, 1, false, 12), 26);
    assert_eq!(key_index(true, 0, 0, false, 12), 156);
    assert_eq!(key_index(true, 12, 5, true, 12), 311);
}

#[test]
fn key_indices_are_distinct() {
    let mut seen = vec![false; key_count(4)];
    for force in [false, true] {
        for streak in 0..6u8 {
            for equal in [false, true] {
                for month in 0..=4usize {
                    let k = key_index(force, month, streak, equal, 4);
                    assert!(!seen[k]);
                    seen[k] = true;
                }
            }
        }
    }
    assert!(seen.iter().all(|&b| b));
}

#[test]
fn alternating_calendar_every_fourth_month() {
    let c = alternating_calendar(16, 2, 5);
    let expected = vec![
        None,
        None,
        None,
        Some(2),
        None,
        None,
        None,
        Some(5),
        None,
        None,
        None,
        Some(2),
        None,
        None,
        None,
        Some(5),
    ];
    assert_eq!(c, expected);
    assert_eq!(alternating_calendar(3, 1, 2), vec![None, None, None]);
    assert_eq!(alternating_calendar(0, 1, 2), vec![]);
}

#[test]
fn distinct_pairs_in_order() {
    assert_eq!(
        distinct_pairs(3),
        vec![(1, 0), (2, 0), (0, 1), (2, 1), (0, 2), (1, 2)]
    );
    assert_eq!(distinct_pairs(6).len(), 30);
    assert_eq!(distinct_pairs(1), vec![]);
}
