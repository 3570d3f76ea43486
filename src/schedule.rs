//! Award calendars: the compressed key under which the calendar search
//! memoizes partial results, and the alternating calendars from which the
//! budget variants of a customer are built.
use vstd::arithmetic::div_mod::lemma_fundamental_div_mod_converse;
use vstd::prelude::*;

verus! {

/// Streak values that the search key tells apart (awards in a row, 0 to 5).
pub const KEY_STREAKS: usize = 6;

/// The compressed search key as one index: forced bankruptcy, awards in a
/// row, whether the last two awards are equal, and the month.
pub open spec fn key_index_spec(
    force_bankruptcy: bool,
    month: nat,
    streak: nat,
    last_two_equal: bool,
    months_game: nat,
) -> nat {
    (((if force_bankruptcy { 1nat } else { 0nat }) * 6 + streak) * 2 + (if last_two_equal {
        1nat
    } else {
        0nat
    })) * (months_game + 1) + month
}

/// Number of distinct search keys for a game of `months_game` months.
pub open spec fn key_count_spec(months_game: nat) -> nat {
    24 * (months_game + 1)
}

/// Number of distinct search keys for a game of `months_game` months.
pub fn key_count(months_game: usize) -> (r: usize)
    requires
        key_count_spec(months_game as nat) <= usize::MAX,
    ensures
        r == key_count_spec(months_game as nat),
{
    24 * (months_game + 1)
}

/// The index of a search key, below `key_count(months_game)`.
pub fn key_index(
    force_bankruptcy: bool,
    month: usize,
    streak: u8,
    last_two_equal: bool,
    months_game: usize,
) -> (r: usize)
    requires
        month <= months_game,
        (streak as usize) < KEY_STREAKS,
        key_count_spec(months_game as nat) <= usize::MAX,
    ensures
        r == key_index_spec(force_bankruptcy, month as nat, streak as nat, last_two_equal, months_game as nat),
        r < key_count_spec(months_game as nat),
{
    let f: usize = if force_bankruptcy {
        1
    } else {
        0
    };
    let e: usize = if last_two_equal {
        1
    } else {
        0
    };
    let head: usize = (f * 6 + streak as usize) * 2 + e;
    assert(head < 24);
    assert(head * (months_game + 1) + month < 24 * (months_game + 1)) by (nonlinear_arith)
        requires
            head < 24,
            month <= months_game,
    ;
    head * (months_game + 1) + month
}

/// Different search keys of one game have different indices.
pub proof fn lemma_key_index_injective(
    f1: bool,
    m1: nat,
    s1: nat,
    e1: bool,
    f2: bool,
    m2: nat,
    s2: nat,
    e2: bool,
    months_game: nat,
)
    requires
        m1 <= months_game,
        m2 <= months_game,
        s1 < 6,
        s2 < 6,
        key_index_spec(f1, m1, s1, e1, months_game) == key_index_spec(f2, m2, s2, e2, months_game),
    ensures
        f1 == f2 && m1 == m2 && s1 == s2 && e1 == e2,
{
    let x = key_index_spec(f1, m1, s1, e1, months_game) as int;
    let d = (months_game + 1) as int;
    let h1 = ((if f1 { 1int } else { 0int }) * 6 + s1) * 2 + (if e1 { 1int } else { 0int });
    let h2 = ((if f2 { 1int } else { 0int }) * 6 + s2) * 2 + (if e2 { 1int } else { 0int });
    lemma_fundamental_div_mod_converse(x, d, h1, m1 as int);
    lemma_fundamental_div_mod_converse(x, d, h2, m2 as int);
    lemma_fundamental_div_mod_converse(h1, 2, (if f1 { 1int } else { 0int }) * 6 + s1, if e1 { 1int } else { 0int });
    lemma_fundamental_div_mod_converse(h1, 2, (if f2 { 1int } else { 0int }) * 6 + s2, if e2 { 1int } else { 0int });
    let g = (if f1 { 1int } else { 0int }) * 6 + s1;
    lemma_fundamental_div_mod_converse(g, 6, if f1 { 1int } else { 0int }, s1 as int);
    lemma_fundamental_div_mod_converse(g, 6, if f2 { 1int } else { 0int }, s2 as int);
}

/// The calendar slot of month `i`: every fourth month (the fourth, eighth,
/// ...) holds an award, alternately `first` and `second`.
pub open spec fn alternating_slot(i: int, first: u8, second: u8) -> Option<u8> {
    if i % 4 == 3 {
        if (i / 4) % 2 == 0 {
            Some(first)
        } else {
            Some(second)
        }
    } else {
        None
    }
}

/// A calendar of `months` months with an award every fourth month,
/// alternately `first` and `second`, starting with `first`.
pub fn alternating_calendar(months: usize, first: u8, second: u8) -> (r: Vec<Option<u8>>)
    ensures
        r@.len() == months,
        forall|i: int| 0 <= i < months ==> #[trigger] r@[i] == alternating_slot(i, first, second),
{
    let mut r: Vec<Option<u8>> = Vec::new();
    let mut i: usize = 0;
    while i < months
        invariant
            0 <= i <= months,
            r@.len() == i,
            forall|k: int| 0 <= k < i ==> #[trigger] r@[k] == alternating_slot(k, first, second),
        decreases months - i,
    {
        let slot = if i % 4 == 3 {
            if (i / 4) % 2 == 0 {
                Some(first)
            } else {
                Some(second)
            }
        } else {
            None
        };
        r.push(slot);
        i = i + 1;
    }
    r
}

/// Pair `p` comes before pair `q`: ordered by second element, then first.
pub open spec fn pair_before(p: (usize, usize), q: (usize, usize)) -> bool {
    p.1 < q.1 || (p.1 == q.1 && p.0 < q.0)
}

/// Every ordered pair of two different indices below `n`, ordered by second
/// element, then first.
pub fn distinct_pairs(n: usize) -> (r: Vec<(usize, usize)>)
    ensures
        forall|t: int| 0 <= t < r@.len() ==> (#[trigger] r@[t]).0 < n && r@[t].1 < n && r@[t].0 != r@[t].1,
        forall|t: int, u: int| 0 <= t < u < r@.len() ==> pair_before(#[trigger] r@[t], #[trigger] r@[u]),
        forall|a: usize, b: usize| a < n && b < n && a != b ==> #[trigger] r@.contains((a, b)),
{
    let mut r: Vec<(usize, usize)> = Vec::new();
    let mut b: usize = 0;
    while b < n
        invariant
            0 <= b <= n,
            forall|t: int| 0 <= t < r@.len() ==> (#[trigger] r@[t]).0 < n && r@[t].1 < b && r@[t].0 != r@[t].1,
            forall|t: int, u: int| 0 <= t < u < r@.len() ==> pair_before(#[trigger] r@[t], #[trigger] r@[u]),
            forall|x: usize, y: usize| x < n && y < b && x != y ==> #[trigger] r@.contains((x, y)),
        decreases n - b,
    {
        let mut a: usize = 0;
        while a < n
            invariant
                0 <= b < n,
                0 <= a <= n,
                forall|t: int| 0 <= t < r@.len() ==> (#[trigger] r@[t]).0 < n && r@[t].1 <= b && r@[t].0 != r@[t].1,
                forall|t: int| 0 <= t < r@.len() && (#[trigger] r@[t]).1 == b ==> r@[t].0 < a,
                forall|t: int, u: int| 0 <= t < u < r@.len() ==> pair_before(#[trigger] r@[t], #[trigger] r@[u]),
                forall|x: usize, y: usize| x < n && y < b && x != y ==> #[trigger] r@.contains((x, y)),
                forall|x: usize| x < a && x != b ==> #[trigger] r@.contains((x, b)),
            decreases n - a,
        {
            if a != b {
                let ghost before = r@;
                r.push((a, b));
                assert forall|x: usize, y: usize| x < n && y < b && x != y implies #[trigger] r@.contains((x, y)) by {
                    assert(before.contains((x, y)));
                    let t = choose|t: int| 0 <= t < before.len() && before[t] == (x, y);
                    assert(r@[t] == (x, y));
                }
                assert forall|x: usize| x < a + 1 && x != b implies #[trigger] r@.contains((x, b)) by {
                    if x < a {
                        assert(before.contains((x, b)));
                        let t = choose|t: int| 0 <= t < before.len() && before[t] == (x, b);
                        assert(r@[t] == (x, b));
                    } else {
                        assert(r@[before.len() as int] == (x, b));
                    }
                }
            }
            a = a + 1;
        }
        b = b + 1;
    }
    r
}

} // verus!
