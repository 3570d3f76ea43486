use loke::budget::{backtrack, gcd, reduce_by_gcd};

/// Fills the multi-choice allocation table over a reduced instance the way
/// the planner does, and reads the selection back with the library.
fn knapsack<T: Clone>(items: Vec<Vec<(T, f64, usize)>>, budget: usize) -> (Vec<T>, f64) {
    if budget == 0 {
        return (Vec::new(), 0.0);
    }
    let costs: Vec<Vec<usize>> = items
        .iter()
        .map(|c| c.iter().map(|x| x.2).collect())
        .collect();
    let reduced = reduce_by_gcd(&costs, budget);
    let budget = reduced.budget;
    let mut score = vec![vec![0.0f64; budget + 1]; items.len() + 1];
    let mut choice: Vec<Vec<Option<(usize, usize)>>> = vec![vec![None; budget + 1]; items.len() + 1];
    for i in 0..items.len() {
        for b in 0..=budget {
            if score[i][b] > score[i + 1][b] {
                score[i + 1][b] = score[i][b];
                choice[i + 1][b] = choice[i][b];
            }
        }
        for (variant, (_, s, _)) in items[i].iter().enumerate() {
            let cost = reduced.costs[i][variant];
            if budget < cost {
                continue;
            }
            for b in 0..=budget - cost {
                let cand = score[i][b] + s;
                if cand > score[i + 1][b + cost] {
                    score[i + 1][b + cost] = cand;
                    choice[i + 1][b + cost] = Some((i, variant));
                }
            }
        }
    }
    let picks = backtrack(&choice, &reduced.costs, budget);
    (
        picks.iter().map(|&(c, v)| items[c][v].0.clone()).collect(),
        score[items.len()][budget],
    )
}

#[test]
fn test_knapsack() {
    assert_eq!(knapsack(vec![vec![(1, 1.23, 1)]], 2), (vec![1], 1.23));
    assert_eq!(
        knapsack(vec![vec![(1, 1.23, 1)], vec![(2, 2.23, 1)]], 2),
        (vec![2, 1], 3.46)
    );
    assert_eq!(
        knapsack(
            vec![vec![(0, 5.0, 9)], vec![(1, 1.23, 10)], vec![(2, 2.23, 10)]],
            20
        ),
        (vec![2, 0], 7.23)
    );
    // Only the variant of cost 1 fits a budget of 2: buying the one of cost 9
    // as well would overspend it.
    assert_eq!(
        knapsack(
            vec![vec![(1, 1.23, 10)], vec![(0, 5.0, 9)], vec![(2, 2.23, 1)]],
            2
        ),
        (vec![2], 2.23)
    );
    assert_eq!(
        knapsack(
            vec![vec![(0, 5.0, 9)], vec![(2, 2.23, 10)], vec![(1, 1.23, 10)]],
            20
        ),
        (vec![2, 0], 7.23)
    );
}

#[test]
fn knapsack_scaled_instance_selects_the_same() {
    let base = knapsack(
        vec![vec![(0, 5.0, 9)], vec![(1, 1.23, 10)], vec![(2, 2.23, 10)]],
        20,
    );
    let scaled = knapsack(
        vec![vec![(0, 5.0, 90)], vec![(1, 1.23, 100)], vec![(2, 2.23, 100)]],
        200,
    );
    assert_eq!(base, (vec![2, 0], 7.23));
    assert_eq!(scaled, base);
}

#[test]
fn knapsack_zero_budget_selects_nothing() {
    assert_eq!(knapsack(vec![vec![(0, 5.0, 9)]], 0), (vec![], 0.0));
    assert_eq!(knapsack(vec![vec![(0, 5.0, 0)]], 0), (vec![], 0.0));
}

#[test]
fn gcd_values() {
    assert_eq!(gcd(12, 18), 6);
    assert_eq!(gcd(0, 7), 7);
    assert_eq!(gcd(7, 0), 7);
    assert_eq!(gcd(0, 0), 0);
    assert_eq!(gcd(17, 5), 1);
}

#[test]
fn reduction_divides_by_common_unit() {
    let r = reduce_by_gcd(&vec![vec![30, 60], vec![90]], 120);
    assert_eq!(r.unit, 30);
    assert_eq!(r.budget, 4);
    assert_eq!(r.costs, vec![vec![1, 2], vec![3]]);
}

#[test]
fn reduction_is_invariant_under_scaling() {
    let a = reduce_by_gcd(&vec![vec![9], vec![10], vec![10]], 20);
    let b = reduce_by_gcd(&vec![vec![27], vec![30], vec![30]], 60);
    assert_eq!(a.unit, 1);
    assert_eq!(b.unit, 3);
    assert_eq!(a.budget, b.budget);
    assert_eq!(a.costs, b.costs);
}

#[test]
fn reduction_of_all_zero_instance_uses_unit_one() {
    let r = reduce_by_gcd(&vec![vec![0, 0]], 0);
    assert_eq!(r.unit, 1);
    assert_eq!(r.budget, 0);
    assert_eq!(r.costs, vec![vec![0, 0]]);
}

#[test]
fn backtrack_stops_at_inconsistent_pointer() {
    // Row 2, budget 3 points at category 1, variant 0 (cost 2), which leads to
    // row 1, budget 1, pointing at category 0, variant 0 whose cost 5 does not fit.
    let costs = vec![vec![5], vec![2]];
    let mut choice: Vec<Vec<Option<(usize, usize)>>> = vec![vec![None; 4]; 3];
    choice[2][3] = Some((1, 0));
    choice[1][1] = Some((0, 0));
    assert_eq!(backtrack(&choice, &costs, 3), vec![(1, 0)]);
    // A pointer to a later category is never followed.
    choice[2][3] = Some((2, 0));
    assert_eq!(backtrack(&choice, &costs, 3), vec![]);
}

#[test]
fn reduction_without_categories_keeps_budget_unit() {
    let r = reduce_by_gcd(&vec![], 35);
    assert_eq!(r.unit, 35);
    assert_eq!(r.budget, 1);
    assert!(r.costs.is_empty());
}

#[test]
fn backtrack_of_empty_table_selects_nothing() {
    let choice: Vec<Vec<Option<(usize, usize)>>> = vec![vec![None; 3]];
    assert_eq!(backtrack(&choice, &vec![], 2), vec![]);
    assert_eq!(backtrack(&vec![], &vec![vec![1]], 2), vec![]);
}
