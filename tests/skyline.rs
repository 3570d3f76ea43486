use loke::skyline::{skyline, ParetoMemo, Reached};

#[test]
fn skyline_keeps_strictly_cheaper_as_score_falls() {
    let scores = vec![10, 30, 20, 40, 25];
    let costs = vec![1, 7, 9, 8, 3];
    // By score: 40 (cost 8), 30 (7), 25 (3), 20 (9), 10 (1).
    assert_eq!(skyline(&scores, &costs), vec![3, 1, 4, 0]);
}

#[test]
fn skyline_entries_do_not_dominate_each_other() {
    let scores = vec![5, 9, 3, 7, 1, 8];
    let costs = vec![4, 9, 2, 6, 2, 10];
    let r = skyline(&scores, &costs);
    for &a in &r {
        for &b in &r {
            if a != b {
                assert!(!(scores[a] >= scores[b] && costs[a] <= costs[b]));
            }
        }
    }
    assert_eq!(r, vec![1, 3, 0, 2]);
}

#[test]
fn skyline_equal_scores_keep_only_the_cheapest() {
    let scores = vec![5, 5, 5];
    let costs = vec![3, 4, 1];
    assert_eq!(skyline(&scores, &costs), vec![2]);
    // The dearer of two equal scores is dominated, whatever its position.
    assert_eq!(skyline(&vec![5, 5], &vec![10, 8]), vec![1]);
    assert_eq!(skyline(&vec![5, 5], &vec![8, 10]), vec![0]);
    // Of exact duplicates the first is kept.
    assert_eq!(skyline(&vec![5, 5], &vec![8, 8]), vec![0]);
}

#[test]
fn skyline_of_nothing_is_empty() {
    assert_eq!(skyline(&vec![], &vec![]), Vec::<usize>::new());
}

fn reached(score: i64, shortfall: i64, required: i64, idle_months: u64) -> Reached {
    Reached {
        score,
        shortfall,
        required,
        idle_months,
    }
}

#[test]
fn memo_discards_covered_results() {
    let mut memo = ParetoMemo::new();
    assert!(memo.offer(reached(10, 5, 5, 1)));
    assert!(!memo.offer(reached(10, 5, 5, 1)));
    assert!(!memo.offer(reached(8, 6, 5, 2)));
    assert!(memo.offer(reached(12, 6, 5, 2)));
    assert!(memo.offer(reached(8, 4, 5, 2)));
    assert!(memo.offer(reached(9, 5, 5, 0)));
}

#[test]
fn memo_replaces_result_of_equal_score() {
    let mut memo = ParetoMemo::new();
    assert!(memo.offer(reached(10, 5, 5, 1)));
    // Equal score and lower shortfall: kept, in place of the first.
    assert!(memo.offer(reached(10, 3, 6, 1)));
    // The first entry would cover this one; its replacement does not.
    assert!(memo.offer(reached(9, 5, 5, 1)));
}

#[test]
fn skyline_of_one_candidate_keeps_it() {
    assert_eq!(skyline(&vec![-7], &vec![3]), vec![0]);
}
