//! Integer side of the budget allocation: reducing a multi-choice knapsack
//! instance by the greatest common divisor of its costs and budget, and
//! reading the chosen variants back out of the filled table.
use vstd::arithmetic::div_mod::{
    lemma_div_multiples_vanish, lemma_fundamental_div_mod, lemma_fundamental_div_mod_converse,
};
use vstd::prelude::*;

verus! {

/// Greatest common divisor by Euclid's algorithm, with `gcd(0, y) == y`.
pub open spec fn gcd_spec(x: nat, y: nat) -> nat
    decreases x,
{
    if x == 0 {
        y
    } else {
        gcd_spec(y % x, x)
    }
}

/// Greatest common divisor of `x` and `y` (`gcd(0, 0) == 0`).
pub fn gcd(x: usize, y: usize) -> (r: usize)
    ensures
        r == gcd_spec(x as nat, y as nat),
{
    let mut a: usize = x;
    let mut b: usize = y;
    while a != 0
        invariant
            gcd_spec(a as nat, b as nat) == gcd_spec(x as nat, y as nat),
        decreases a,
    {
        let t: usize = b % a;
        b = a;
        a = t;
    }
    b
}

/// `g` divides `x`: some natural multiple of `g` is `x` (only `0` divides `0`).
pub open spec fn divides(g: nat, x: nat) -> bool {
    exists|k: nat| x == #[trigger] (g * k)
}

proof fn lemma_divides_by_witness(g: nat, x: nat, k: nat)
    requires
        x == g * k,
    ensures
        divides(g, x),
{
}

proof fn lemma_divides_trans(g: nat, a: nat, b: nat)
    requires
        divides(g, a),
        divides(a, b),
    ensures
        divides(g, b),
{
    let k1: nat = choose|k: nat| a == #[trigger] (g * k);
    let k2: nat = choose|k: nat| b == #[trigger] (a * k);
    assert(b == g * (k1 * k2)) by (nonlinear_arith)
        requires
            a == g * k1,
            b == a * k2,
    ;
    lemma_divides_by_witness(g, b, k1 * k2);
}

/// The greatest common divisor divides both arguments.
pub proof fn lemma_gcd_divides(x: nat, y: nat)
    ensures
        divides(gcd_spec(x, y), x),
        divides(gcd_spec(x, y), y),
    decreases x,
{
    let g = gcd_spec(x, y);
    if x == 0 {
        lemma_divides_by_witness(y, 0, 0);
        lemma_divides_by_witness(y, y, 1);
    } else {
        lemma_gcd_divides(y % x, x);
        let kr: nat = choose|k: nat| y % x == #[trigger] (g * k);
        let kx: nat = choose|k: nat| x == #[trigger] (g * k);
        let q: nat = y / x;
        lemma_fundamental_div_mod(y as int, x as int);
        assert(y == g * (q * kx + kr)) by (nonlinear_arith)
            requires
                y == x * q + y % x,
                y % x == g * kr,
                x == g * kx,
        ;
        lemma_divides_by_witness(g, y, q * kx + kr);
    }
}

/// Every common divisor of both arguments divides their greatest common
/// divisor.
pub proof fn lemma_gcd_greatest(x: nat, y: nat, d: nat)
    requires
        divides(d, x),
        divides(d, y),
    ensures
        divides(d, gcd_spec(x, y)),
    decreases x,
{
    if x > 0 {
        let kx: nat = choose|k: nat| x == #[trigger] (d * k);
        let ky: nat = choose|k: nat| y == #[trigger] (d * k);
        let q: int = (y / x) as int;
        let r: int = (y % x) as int;
        lemma_fundamental_div_mod(y as int, x as int);
        assert(d > 0) by (nonlinear_arith)
            requires
                x == d * kx,
                x > 0,
        ;
        let kr: int = ky - kx * q;
        assert(r == d * kr) by (nonlinear_arith)
            requires
                y == x * q + r,
                x == d * kx,
                y == d * ky,
                kr == ky - kx * q,
        ;
        assert(kr >= 0) by (nonlinear_arith)
            requires
                r == d * kr,
                r >= 0,
                d > 0,
        ;
        lemma_divides_by_witness(d, y % x, kr as nat);
        lemma_gcd_greatest(y % x, x, d);
    }
}

/// Scaling both arguments by `k` scales their greatest common divisor by `k`.
pub proof fn lemma_gcd_scale(k: nat, x: nat, y: nat)
    ensures
        gcd_spec(k * x, k * y) == k * gcd_spec(x, y),
    decreases x,
{
    if x == 0 {
        assert(k * x == 0);
    } else if k == 0 {
        assert(k * x == 0 && k * y == 0);
        assert(k * gcd_spec(x, y) == 0);
    } else {
        let q: int = (y / x) as int;
        let r: int = (y % x) as int;
        lemma_fundamental_div_mod(y as int, x as int);
        assert(k * y == q * (k * x) + k * r && 0 <= k * r < k * x) by (nonlinear_arith)
            requires
                y == x * q + r,
                0 <= r < x,
                k > 0,
        ;
        lemma_fundamental_div_mod_converse((k * y) as int, (k * x) as int, q, k * r);
        assert((k * y) % (k * x) == k * (y % x));
        lemma_gcd_scale(k, y % x, x);
    }
}

/// Folds `gcd` over one row of costs, starting from `d`.
pub open spec fn gcd_row(d: nat, row: Seq<usize>) -> nat
    decreases row.len(),
{
    if row.len() == 0 {
        d
    } else {
        gcd_spec(gcd_row(d, row.drop_last()), row.last() as nat)
    }
}

/// Folds `gcd` over every row of costs, starting from `d`.
pub open spec fn gcd_rows(d: nat, rows: Seq<Seq<usize>>) -> nat
    decreases rows.len(),
{
    if rows.len() == 0 {
        d
    } else {
        gcd_row(gcd_rows(d, rows.drop_last()), rows.last())
    }
}

/// The plain integer view of a table of costs.
pub open spec fn cost_table(costs: Seq<Vec<usize>>) -> Seq<Seq<usize>> {
    costs.map_values(|row: Vec<usize>| row@)
}

/// The unit that a knapsack instance is reduced by: the greatest common
/// divisor of the budget and all costs, or `1` when all of them are zero.
pub open spec fn reduction_unit(rows: Seq<Seq<usize>>, budget: nat) -> nat {
    let g = gcd_rows(budget, rows);
    if g == 0 {
        1
    } else {
        g
    }
}

proof fn lemma_gcd_row_divides(d: nat, row: Seq<usize>)
    ensures
        divides(gcd_row(d, row), d),
        forall|j: int| 0 <= j < row.len() ==> divides(gcd_row(d, row), #[trigger] row[j] as nat),
    decreases row.len(),
{
    if row.len() == 0 {
        lemma_divides_by_witness(d, d, 1);
    } else {
        let prev = gcd_row(d, row.drop_last());
        let g = gcd_row(d, row);
        lemma_gcd_row_divides(d, row.drop_last());
        lemma_gcd_divides(prev, row.last() as nat);
        lemma_divides_trans(g, prev, d);
        assert forall|j: int| 0 <= j < row.len() implies divides(g, #[trigger] row[j] as nat) by {
            if j < row.len() - 1 {
                assert(row[j] == row.drop_last()[j]);
                lemma_divides_trans(g, prev, row[j] as nat);
            }
        }
    }
}

proof fn lemma_gcd_rows_divides(d: nat, rows: Seq<Seq<usize>>)
    ensures
        divides(gcd_rows(d, rows), d),
        forall|i: int, j: int|
            0 <= i < rows.len() && 0 <= j < rows[i].len() ==> divides(
                gcd_rows(d, rows),
                #[trigger] rows[i][j] as nat,
            ),
    decreases rows.len(),
{
    if rows.len() == 0 {
        lemma_divides_by_witness(d, d, 1);
    } else {
        let prev = gcd_rows(d, rows.drop_last());
        let g = gcd_rows(d, rows);
        lemma_gcd_rows_divides(d, rows.drop_last());
        lemma_gcd_row_divides(prev, rows.last());
        lemma_divides_trans(g, prev, d);
        assert forall|i: int, j: int| 0 <= i < rows.len() && 0 <= j < rows[i].len() implies divides(
            g,
            #[trigger] rows[i][j] as nat,
        ) by {
            if i < rows.len() - 1 {
                assert(rows[i] == rows.drop_last()[i]);
                lemma_divides_trans(g, prev, rows[i][j] as nat);
            }
        }
    }
}

/// Every cost and the budget are exact multiples of the reduction unit.
pub proof fn lemma_unit_divides(rows: Seq<Seq<usize>>, budget: nat)
    ensures
        reduction_unit(rows, budget) > 0,
        divides(reduction_unit(rows, budget), budget),
        forall|i: int, j: int|
            0 <= i < rows.len() && 0 <= j < rows[i].len() ==> divides(
                reduction_unit(rows, budget),
                #[trigger] rows[i][j] as nat,
            ),
{
    lemma_gcd_rows_divides(budget, rows);
    let g = gcd_rows(budget, rows);
    if g == 0 {
        lemma_divides_by_witness(1, budget, budget);
        assert forall|i: int, j: int| 0 <= i < rows.len() && 0 <= j < rows[i].len() implies divides(
            1,
            #[trigger] rows[i][j] as nat,
        ) by {
            lemma_divides_by_witness(1, rows[i][j] as nat, rows[i][j] as nat);
        }
    }
}

/// Dividing an exact multiple of `u` by `u` and multiplying back is exact.
pub proof fn lemma_div_exact(u: nat, x: nat)
    requires
        u > 0,
        divides(u, x),
    ensures
        (x / u) * u == x,
{
    let k: nat = choose|k: nat| x == #[trigger] (u * k);
    lemma_div_multiples_vanish(k as int, u as int);
    assert(k * u == u * k) by (nonlinear_arith);
}

/// `scaled` is `rows` with every entry multiplied by `k`.
pub open spec fn is_scaled_table(rows: Seq<Seq<usize>>, scaled: Seq<Seq<usize>>, k: nat) -> bool {
    &&& scaled.len() == rows.len()
    &&& forall|i: int| 0 <= i < rows.len() ==> (#[trigger] scaled[i]).len() == rows[i].len()
    &&& forall|i: int, j: int|
        0 <= i < rows.len() && 0 <= j < rows[i].len() ==> #[trigger] scaled[i][j] == k * rows[i][j]
}

proof fn lemma_gcd_row_scale(k: nat, d: nat, row: Seq<usize>, scaled: Seq<usize>)
    requires
        scaled.len() == row.len(),
        forall|j: int| 0 <= j < row.len() ==> #[trigger] scaled[j] == k * row[j],
    ensures
        gcd_row(k * d, scaled) == k * gcd_row(d, row),
    decreases row.len(),
{
    if row.len() > 0 {
        lemma_gcd_row_scale(k, d, row.drop_last(), scaled.drop_last());
        lemma_gcd_scale(k, gcd_row(d, row.drop_last()), row.last() as nat);
    }
}

proof fn lemma_gcd_rows_scale(k: nat, d: nat, rows: Seq<Seq<usize>>, scaled: Seq<Seq<usize>>)
    requires
        is_scaled_table(rows, scaled, k),
    ensures
        gcd_rows(k * d, scaled) == k * gcd_rows(d, rows),
    decreases rows.len(),
{
    if rows.len() > 0 {
        let last = rows.len() - 1;
        assert(is_scaled_table(rows.drop_last(), scaled.drop_last(), k)) by {
            assert forall|i: int, j: int|
                0 <= i < rows.drop_last().len() && 0 <= j < rows.drop_last()[i].len() implies #[trigger] scaled.drop_last()[i][j]
                == k * rows.drop_last()[i][j] by {
                assert(scaled[i][j] == k * rows[i][j]);
            }
        }
        lemma_gcd_rows_scale(k, d, rows.drop_last(), scaled.drop_last());
        assert forall|j: int| 0 <= j < rows.last().len() implies #[trigger] scaled.last()[j] == k
            * rows.last()[j] by {
            assert(scaled[last][j] == k * rows[last][j]);
        }
        lemma_gcd_row_scale(k, gcd_rows(d, rows.drop_last()), rows.last(), scaled.last());
    }
}

proof fn lemma_scaled_quotient(k: nat, u: nat, x: nat)
    requires
        k > 0,
        u > 0,
        divides(u, x),
    ensures
        (k * x) / (k * u) == x / u,
{
    let m: nat = choose|m: nat| x == #[trigger] (u * m);
    assert(k * x == (k * u) * m) by (nonlinear_arith)
        requires
            x == u * m,
    ;
    assert(k * u > 0) by (nonlinear_arith)
        requires
            k > 0,
            u > 0,
    ;
    lemma_div_multiples_vanish(m as int, (k * u) as int);
    lemma_div_multiples_vanish(m as int, u as int);
}

/// Scaling every cost and the budget by one positive factor leaves the
/// reduced instance unchanged: the unit grows by that factor, and the reduced
/// budget and every reduced cost stay the same.
pub proof fn lemma_reduction_scale_invariant(
    rows: Seq<Seq<usize>>,
    budget: nat,
    k: nat,
    scaled: Seq<Seq<usize>>,
)
    requires
        k > 0,
        is_scaled_table(rows, scaled, k),
    ensures
        (k * budget) / reduction_unit(scaled, k * budget) == budget / reduction_unit(rows, budget),
        forall|i: int, j: int|
            0 <= i < rows.len() && 0 <= j < rows[i].len() ==> #[trigger] scaled[i][j] as nat
                / reduction_unit(scaled, k * budget) == rows[i][j] as nat / reduction_unit(
                rows,
                budget,
            ),
{
    lemma_gcd_rows_scale(k, budget, rows, scaled);
    lemma_unit_divides(rows, budget);
    let g = gcd_rows(budget, rows);
    let u = reduction_unit(rows, budget);
    if g == 0 {
        lemma_gcd_rows_divides(budget, rows);
        assert(k * g == 0) by (nonlinear_arith)
            requires
                g == 0,
        ;
        let b0: nat = choose|m: nat| budget == #[trigger] (g * m);
        assert(budget == 0) by (nonlinear_arith)
            requires
                budget == g * b0,
                g == 0,
        ;
        assert(k * budget == 0) by (nonlinear_arith)
            requires
                budget == 0,
        ;
        assert forall|i: int, j: int| 0 <= i < rows.len() && 0 <= j < rows[i].len() implies #[trigger] scaled[i][j] as nat
            / reduction_unit(scaled, k * budget) == rows[i][j] as nat / u by {
            assert(scaled[i][j] == k * rows[i][j]);
            assert(divides(g, rows[i][j] as nat));
            let c0: nat = choose|m: nat| rows[i][j] as nat == #[trigger] (g * m);
            assert(rows[i][j] == 0) by (nonlinear_arith)
                requires
                    rows[i][j] as nat == g * c0,
                    g == 0,
            ;
            assert(k * rows[i][j] == 0) by (nonlinear_arith)
                requires
                    rows[i][j] == 0,
            ;
        }
    } else {
        assert(k * g > 0) by (nonlinear_arith)
            requires
                k > 0,
                g > 0,
        ;
        lemma_scaled_quotient(k, u, budget);
        assert forall|i: int, j: int| 0 <= i < rows.len() && 0 <= j < rows[i].len() implies #[trigger] scaled[i][j] as nat
            / reduction_unit(scaled, k * budget) == rows[i][j] as nat / u by {
            assert(scaled[i][j] == k * rows[i][j]);
            assert(divides(u, rows[i][j] as nat));
            lemma_scaled_quotient(k, u, rows[i][j] as nat);
        }
    }
}

/// A knapsack instance with every cost and the budget divided by `unit`.
pub struct ReducedInstance {
    pub unit: usize,
    pub costs: Vec<Vec<usize>>,
    pub budget: usize,
}

/// Divides every cost and the budget by their greatest common divisor (by
/// `1` when all of them are zero), which shrinks the allocation table
/// without changing which selections fit the budget.
pub fn reduce_by_gcd(costs: &Vec<Vec<usize>>, budget: usize) -> (r: ReducedInstance)
    ensures
        r.unit == reduction_unit(cost_table(costs@), budget as nat),
        r.budget == budget / r.unit,
        r.budget * r.unit == budget,
        r.costs@.len() == costs@.len(),
        forall|i: int| 0 <= i < costs@.len() ==> (#[trigger] r.costs@[i])@.len() == costs@[i]@.len(),
        forall|i: int, j: int|
            0 <= i < costs@.len() && 0 <= j < costs@[i]@.len() ==> #[trigger] r.costs@[i]@[j]
                == costs@[i]@[j] / r.unit && r.costs@[i]@[j] * r.unit == costs@[i]@[j],
{
    let ghost rows = cost_table(costs@);
    let mut d: usize = budget;
    let mut i: usize = 0;
    while i < costs.len()
        invariant
            rows == cost_table(costs@),
            0 <= i <= costs@.len(),
            d == gcd_rows(budget as nat, rows.take(i as int)),
        decreases costs@.len() - i,
    {
        let row = &costs[i];
        let ghost before = d as nat;
        let mut j: usize = 0;
        while j < row.len()
            invariant
                rows == cost_table(costs@),
                0 <= i < costs@.len(),
                row == costs@[i as int],
                0 <= j <= row@.len(),
                before == gcd_rows(budget as nat, rows.take(i as int)),
                d == gcd_row(before, row@.take(j as int)),
            decreases row@.len() - j,
        {
            assert(row@.take(j as int + 1).drop_last() =~= row@.take(j as int));
            d = gcd(d, row[j]);
            j = j + 1;
        }
        assert(row@.take(j as int) =~= row@);
        assert(rows.take(i as int + 1).drop_last() =~= rows.take(i as int));
        assert(rows.take(i as int + 1).last() == rows[i as int]);
        i = i + 1;
    }
    assert(rows.take(i as int) =~= rows);
    let unit: usize = if d == 0 {
        1
    } else {
        d
    };
    proof {
        lemma_unit_divides(rows, budget as nat);
        lemma_div_exact(unit as nat, budget as nat);
    }
    let mut reduced: Vec<Vec<usize>> = Vec::new();
    let mut i: usize = 0;
    while i < costs.len()
        invariant
            rows == cost_table(costs@),
            unit == reduction_unit(rows, budget as nat),
            unit > 0,
            forall|a: int, b: int|
                0 <= a < rows.len() && 0 <= b < rows[a].len() ==> divides(
                    unit as nat,
                    #[trigger] rows[a][b] as nat,
                ),
            0 <= i <= costs@.len(),
            reduced@.len() == i,
            forall|a: int| 0 <= a < i ==> (#[trigger] reduced@[a])@.len() == costs@[a]@.len(),
            forall|a: int, b: int|
                0 <= a < i && 0 <= b < costs@[a]@.len() ==> #[trigger] reduced@[a]@[b]
                    == costs@[a]@[b] / unit && reduced@[a]@[b] * unit == costs@[a]@[b],
        decreases costs@.len() - i,
    {
        let row = &costs[i];
        let mut out: Vec<usize> = Vec::new();
        let mut j: usize = 0;
        while j < row.len()
            invariant
                rows == cost_table(costs@),
                unit > 0,
                forall|a: int, b: int|
                    0 <= a < rows.len() && 0 <= b < rows[a].len() ==> divides(
                        unit as nat,
                        #[trigger] rows[a][b] as nat,
                    ),
                0 <= i < costs@.len(),
                row == costs@[i as int],
                0 <= j <= row@.len(),
                out@.len() == j,
                forall|b: int|
                    0 <= b < j ==> #[trigger] out@[b] == row@[b] / unit && out@[b] * unit
                        == row@[b],
            decreases row@.len() - j,
        {
            proof {
                assert(rows[i as int][j as int] == row@[j as int]);
                lemma_div_exact(unit as nat, row@[j as int] as nat);
            }
            out.push(row[j] / unit);
            j = j + 1;
        }
        reduced.push(out);
        i = i + 1;
    }
    ReducedInstance { unit, costs: reduced, budget: budget / unit }
}

/// The plain view of an allocation table of back-pointers: entry `[row][b]`
/// names the last category and variant chosen among the first `row`
/// categories within budget `b`, or nothing when none was chosen.
pub open spec fn choice_table(choices: Seq<Vec<Option<(usize, usize)>>>) -> Seq<
    Seq<Option<(usize, usize)>>,
> {
    choices.map_values(|row: Vec<Option<(usize, usize)>>| row@)
}

/// The selection read back from entry `[row][b]`: follow each back-pointer
/// to the row of its category with that variant's cost taken off the
/// budget, and stop at an empty entry or at one that does not point to an
/// earlier category whose variant fits.
pub open spec fn chain(
    choices: Seq<Seq<Option<(usize, usize)>>>,
    costs: Seq<Seq<usize>>,
    row: nat,
    b: nat,
) -> Seq<(usize, usize)>
    decreases row,
{
    if row < choices.len() && b < choices[row as int].len() {
        match choices[row as int][b as int] {
            Some((c, v)) => {
                if c < row && c < costs.len() && v < costs[c as int].len() && costs[c as int][v as int]
                    <= b {
                    seq![(c, v)] + chain(choices, costs, c as nat, (b - costs[c as int][v as int]) as nat)
                } else {
                    Seq::empty()
                }
            },
            None => Seq::empty(),
        }
    } else {
        Seq::empty()
    }
}

/// Sum of the costs of the chosen variants.
pub open spec fn total_cost(picks: Seq<(usize, usize)>, costs: Seq<Seq<usize>>) -> nat
    decreases picks.len(),
{
    if picks.len() == 0 {
        0
    } else {
        costs[picks[0].0 as int][picks[0].1 as int] as nat + total_cost(picks.drop_first(), costs)
    }
}

/// A selection is feasible below `row` within `b`: each pick names a real
/// variant, categories strictly decrease (so each is chosen at most once),
/// all are below `row`, and the costs add up to at most `b`.
pub open spec fn feasible(picks: Seq<(usize, usize)>, costs: Seq<Seq<usize>>, row: nat, b: nat) -> bool {
    &&& forall|k: int|
        0 <= k < picks.len() ==> (#[trigger] picks[k]).0 < costs.len() && picks[k].0 < row
            && picks[k].1 < costs[picks[k].0 as int].len()
    &&& forall|k: int, l: int| 0 <= k < l < picks.len() ==> (#[trigger] picks[k]).0 > (#[trigger] picks[l]).0
    &&& total_cost(picks, costs) <= b
}

/// Whatever the table holds, the selection read back from it is feasible.
pub proof fn lemma_chain_feasible(
    choices: Seq<Seq<Option<(usize, usize)>>>,
    costs: Seq<Seq<usize>>,
    row: nat,
    b: nat,
)
    ensures
        feasible(chain(choices, costs, row, b), costs, row, b),
    decreases row,
{
    let p = chain(choices, costs, row, b);
    if p.len() > 0 {
        let (c, v) = choices[row as int][b as int].unwrap();
        let rest_b = (b - costs[c as int][v as int]) as nat;
        let rest = chain(choices, costs, c as nat, rest_b);
        lemma_chain_feasible(choices, costs, c as nat, rest_b);
        assert(p == seq![(c, v)] + rest);
        assert(p.drop_first() =~= rest);
        assert forall|k: int, l: int| 0 <= k < l < p.len() implies (#[trigger] p[k]).0 > (
        #[trigger] p[l]).0 by {
            if k > 0 {
                assert(p[k] == rest[k - 1]);
            }
            assert(p[l] == rest[l - 1]);
        }
        assert forall|k: int| 0 <= k < p.len() implies (#[trigger] p[k]).0 < costs.len() && p[k].0
            < row && p[k].1 < costs[p[k].0 as int].len() by {
            if k > 0 {
                assert(p[k] == rest[k - 1]);
            }
        }
    }
}

/// Reads the chosen variants back out of a filled allocation table, from
/// entry `[costs.len()][budget]`, latest category first.
pub fn backtrack(choices: &Vec<Vec<Option<(usize, usize)>>>, costs: &Vec<Vec<usize>>, budget: usize) -> (picks: Vec<(usize, usize)>)
    ensures
        picks@ == chain(choice_table(choices@), cost_table(costs@), costs@.len() as nat, budget as nat),
        feasible(picks@, cost_table(costs@), costs@.len() as nat, budget as nat),
{
    let ghost table = choice_table(choices@);
    let ghost rows = cost_table(costs@);
    let ghost whole = chain(table, rows, costs@.len() as nat, budget as nat);
    let mut picks: Vec<(usize, usize)> = Vec::new();
    let mut row: usize = costs.len();
    let mut b: usize = budget;
    loop
        invariant
            table == choice_table(choices@),
            rows == cost_table(costs@),
            whole == chain(table, rows, costs@.len() as nat, budget as nat),
            whole == picks@ + chain(table, rows, row as nat, b as nat),
        ensures
            whole == picks@,
        decreases row,
    {
        if row >= choices.len() || b >= choices[row].len() {
            assert(picks@ + Seq::<(usize, usize)>::empty() =~= picks@);
            break;
        }
        match choices[row][b] {
            Some((c, v)) => {
                if c < row && c < costs.len() && v < costs[c].len() && costs[c][v] <= b {
                    let ghost next = chain(table, rows, c as nat, (b - costs[c as int][v as int]) as nat);
                    assert(rows[c as int][v as int] == costs@[c as int]@[v as int]);
                    assert(table[row as int][b as int] == choices@[row as int]@[b as int]);
                    assert(chain(table, rows, row as nat, b as nat) == seq![(c, v)] + next);
                    picks.push((c, v));
                    assert(whole =~= picks@ + next);
                    b = b - costs[c][v];
                    row = c;
                } else {
                    assert(rows.len() == costs@.len());
                    assert(c < costs@.len() ==> rows[c as int] == costs@[c as int]@);
                    assert(table[row as int][b as int] == choices@[row as int]@[b as int]);
                    assert(picks@ + Seq::<(usize, usize)>::empty() =~= picks@);
                    break;
                }
            },
            None => {
                assert(table[row as int][b as int] == choices@[row as int]@[b as int]);
                assert(picks@ + Seq::<(usize, usize)>::empty() =~= picks@);
                break;
            },
        }
    }
    proof {
        lemma_chain_feasible(table, rows, costs@.len() as nat, budget as nat);
    }
    picks
}

/// `reduced` is `rows` with every entry divided by `unit`.
pub open spec fn is_reduced_table(rows: Seq<Seq<usize>>, reduced: Seq<Seq<usize>>, unit: nat) -> bool {
    &&& reduced.len() == rows.len()
    &&& forall|i: int| 0 <= i < rows.len() ==> (#[trigger] reduced[i]).len() == rows[i].len()
    &&& forall|i: int, j: int|
        0 <= i < rows.len() && 0 <= j < rows[i].len() ==> #[trigger] reduced[i][j] == rows[i][j] as nat / unit
}

proof fn lemma_total_cost_scales(picks: Seq<(usize, usize)>, rows: Seq<Seq<usize>>, reduced: Seq<Seq<usize>>, unit: nat)
    requires
        forall|k: int|
            0 <= k < picks.len() ==> (#[trigger] picks[k]).0 < rows.len() && picks[k].1 < rows[picks[k].0 as int].len(),
        reduced.len() == rows.len(),
        forall|i: int| 0 <= i < rows.len() ==> (#[trigger] reduced[i]).len() == rows[i].len(),
        forall|i: int, j: int|
            0 <= i < rows.len() && 0 <= j < rows[i].len() ==> #[trigger] rows[i][j] == unit * reduced[i][j],
    ensures
        total_cost(picks, rows) == unit * total_cost(picks, reduced),
    decreases picks.len(),
{
    if picks.len() == 0 {
        assert(unit * 0 == 0) by (nonlinear_arith);
    } else {
        let rest = picks.drop_first();
        assert forall|k: int| 0 <= k < rest.len() implies (#[trigger] rest[k]).0 < rows.len() && rest[k].1 < rows[rest[k].0 as int].len() by {
            assert(rest[k] == picks[k + 1]);
        }
        lemma_total_cost_scales(rest, rows, reduced, unit);
        let c = reduced[picks[0].0 as int][picks[0].1 as int] as nat;
        assert(rows[picks[0].0 as int][picks[0].1 as int] == unit * c);
        assert(unit * c + unit * total_cost(rest, reduced) == unit * (c + total_cost(rest, reduced))) by (nonlinear_arith);
    }
}

/// A selection that fits the reduced budget with the reduced costs fits the
/// original budget with the original costs: the reduction never lets the
/// allocation over-commit the budget.
pub proof fn lemma_reduced_selection_within_budget(
    rows: Seq<Seq<usize>>,
    budget: nat,
    reduced: Seq<Seq<usize>>,
    picks: Seq<(usize, usize)>,
)
    requires
        is_reduced_table(rows, reduced, reduction_unit(rows, budget)),
        feasible(picks, reduced, rows.len(), budget / reduction_unit(rows, budget)),
    ensures
        total_cost(picks, rows) <= budget,
{
    let u = reduction_unit(rows, budget);
    lemma_unit_divides(rows, budget);
    assert forall|i: int, j: int| 0 <= i < rows.len() && 0 <= j < rows[i].len() implies #[trigger] rows[i][j] == u
        * reduced[i][j] by {
        assert(divides(u, rows[i][j] as nat));
        lemma_div_exact(u, rows[i][j] as nat);
        assert(reduced[i][j] == rows[i][j] as nat / u);
        assert((rows[i][j] as nat / u) * u == u * (rows[i][j] as nat / u)) by (nonlinear_arith);
    }
    assert forall|k: int| 0 <= k < picks.len() implies (#[trigger] picks[k]).0 < rows.len() && picks[k].1 < rows[picks[k].0 as int].len() by {
        assert(reduced[picks[k].0 as int].len() == rows[picks[k].0 as int].len());
    }
    lemma_total_cost_scales(picks, rows, reduced, u);
    let t = total_cost(picks, reduced);
    assert(t <= budget / u);
    lemma_div_exact(u, budget);
    assert(u * t <= u * (budget / u)) by (nonlinear_arith)
        requires
            t <= budget / u,
    ;
    assert((budget / u) * u == u * (budget / u)) by (nonlinear_arith);
}

} // verus!
