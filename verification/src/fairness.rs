//! Counting the rows of coins on which a decision is `true`.
//!
//! Where every coin is fair and independent of the others, every row of
//! `len` coins is as likely as any other: the probability of a decision is
//! the share of the rows on which it is `true`.

use crate::coins::heads_run;
use crate::coins::lemma_heads_run_bound;
use crate::ratio::bit_length;
use crate::ratio::flips_at_once;
use crate::ratio::heads_for_one_over;
use crate::ratio::lemma_bit_length_bounds;
use crate::ratio::lemma_flips_at_once;
use crate::ratio::one_over_run;
use crate::ratio::ratio_run;
use crate::ratio::ratio_step_spec;
use vstd::arithmetic::power2::lemma2_to64;
use vstd::arithmetic::power2::lemma_pow2_adds;
use vstd::arithmetic::power2::lemma_pow2_pos;
use vstd::arithmetic::power2::lemma_pow2_strictly_increases;
use vstd::arithmetic::power2::lemma_pow2_unfold;
use vstd::arithmetic::power2::pow2;
use vstd::prelude::*;

verus! {

/// What `holds` says of a row that starts with `coin`, as a property of
/// the rest of the row.
pub open spec fn after_coin(holds: spec_fn(Seq<bool>) -> bool, coin: bool) -> spec_fn(
    Seq<bool>,
) -> bool {
    |rest: Seq<bool>| holds(seq![coin] + rest)
}

/// Of the `2^len` rows of `len` coins, the number of which `holds` is
/// true.
pub open spec fn count_rows(len: nat, holds: spec_fn(Seq<bool>) -> bool) -> nat
    decreases len,
{
    if len == 0 {
        if holds(Seq::empty()) {
            1
        } else {
            0
        }
    } else {
        count_rows((len - 1) as nat, after_coin(holds, false)) + count_rows(
            (len - 1) as nat,
            after_coin(holds, true),
        )
    }
}

/// Of the `2^(32 * budget)` equally likely ways in which `budget` tests
/// of up to 32 fair coins can come out, the number of ways in which a
/// decision with probability `n / d` is `true`.
///
/// A test of `c` coins shows `c` heads in `2^(32 - c)` of `2^32` ways;
/// `ratio_step_spec` says how the decision goes on after either outcome.
pub open spec fn true_weight(n: nat, d: nat, budget: nat) -> nat
    decreases budget,
{
    if n >= d {
        pow2(32 * budget)
    } else if budget == 0 {
        0
    } else {
        let c = flips_at_once(n, d);
        let heads = pow2((32 - c) as nat);
        let tails = (pow2(32) - heads) as nat;
        let left = (budget - 1) as nat;
        heads * (match ratio_step_spec(n, d, c, true) {
            Some(m) => true_weight(m, d, left),
            None => 0,
        }) + tails * (match ratio_step_spec(n, d, c, false) {
            Some(m) => true_weight(m, d, left),
            None => 0,
        })
    }
}

/// One step of `lemma_decision_is_fair`: what holds of the ways of a
/// decision with the numerator `m` holds of every `part` times as many.
proof fn lemma_fair_step(
    m: nat,
    d: nat,
    weight: nat,
    part: nat,
    ways: nat,
    slack: nat,
)
    requires
        d * weight <= m * ways,
        m * ways - d * weight <= d * slack,
    ensures
        d * (part * weight) <= part * (m * ways),
        part * (m * ways) - d * (part * weight) <= d * (part * slack),
{
    assert(d * (part * weight) == part * (d * weight)) by (nonlinear_arith);
    assert(part * (d * weight) <= part * (m * ways)) by (nonlinear_arith)
        requires
            d * weight <= m * ways,
    ;
    assert(part * (m * ways) - part * (d * weight) == part * (m * ways - d * weight))
        by (nonlinear_arith);
    assert(part * (m * ways - d * weight) <= part * (d * slack)) by (nonlinear_arith)
        requires
            m * ways - d * weight <= d * slack,
    ;
    assert(part * (d * slack) == d * (part * slack)) by (nonlinear_arith);
}

/// A decision with probability `n / d` is fair: it is `true` in no more
/// than `n` of `d` ways, and in fewer by no more than one way in
/// `2^budget`, the ways in which `budget` tests decide nothing.
pub proof fn lemma_decision_is_fair(n: nat, d: nat, budget: nat)
    requires
        n <= d,
    ensures
        d * true_weight(n, d, budget) <= n * pow2(32 * budget),
        n * pow2(32 * budget) - d * true_weight(n, d, budget) <= d * pow2(31 * budget),
    decreases budget,
{
    let ways = pow2(32 * budget);
    let slack = pow2(31 * budget);
    lemma_pow2_pos(32 * budget);
    lemma_pow2_pos(31 * budget);
    if n >= d {
    } else if budget == 0 {
        lemma2_to64();
        assert(n * pow2(0) == n && d * pow2(0) == d) by (nonlinear_arith)
            requires
                pow2(0) == 1,
        ;
        assert(d * true_weight(n, d, budget) == 0) by (nonlinear_arith)
            requires
                true_weight(n, d, budget) == 0,
        ;
    } else {
        let c = flips_at_once(n, d);
        let left = (budget - 1) as nat;
        let ways_left = pow2(32 * left);
        let slack_left = pow2(31 * left);
        let heads = pow2((32 - c) as nat);
        let half = pow2(31);
        lemma_flips_at_once(n, d);
        lemma_pow2_adds(32, 32 * left);
        lemma_pow2_adds(31, 31 * left);
        lemma_pow2_adds((32 - c) as nat, c);
        lemma_pow2_pos((32 - c) as nat);
        lemma_pow2_unfold(32);
        if c > 1 {
            lemma_pow2_strictly_increases((32 - c) as nat, 31);
        }
        assert(ways == pow2(32) * ways_left);
        assert(slack == half * slack_left);
        assert(heads <= half);
        assert(heads * pow2(c) == pow2(32));
        assert(d * (heads * slack_left) <= d * (half * slack_left)) by (nonlinear_arith)
            requires
                heads <= half,
        ;
        if c > 1 {
            let m = n * pow2(c);
            assert(m < d);
            lemma_decision_is_fair(m, d, left);
            let weight = true_weight(m, d, left);
            lemma_fair_step(m, d, weight, heads, ways_left, slack_left);
            assert(true_weight(n, d, budget) == heads * weight);
            assert(heads * (m * ways_left) == n * ways) by (nonlinear_arith)
                requires
                    m == n * pow2(c),
                    heads * pow2(c) == pow2(32),
                    ways == pow2(32) * ways_left,
            ;
        } else {
            assert(pow2(1) == 2) by {
                lemma2_to64();
            }
            assert(heads == half);
            assert(pow2(32) - heads == half);
            let doubled = 2 * n;
            assert(n * pow2(c) == doubled) by (nonlinear_arith)
                requires
                    pow2(c) == 2,
                    doubled == 2 * n,
            ;
            assert(ratio_step_spec(n, d, c, true) == Some(doubled));
            assert(half * 0 == 0) by (nonlinear_arith);
            if doubled < d {
                lemma_decision_is_fair(doubled, d, left);
                let weight = true_weight(doubled, d, left);
                lemma_fair_step(doubled, d, weight, half, ways_left, slack_left);
                assert(true_weight(n, d, budget) == half * weight + half * 0);
                assert(half * (doubled * ways_left) == n * ways) by (nonlinear_arith)
                    requires
                        doubled == 2 * n,
                        half * 2 == pow2(32),
                        ways == pow2(32) * ways_left,
                ;
            } else if doubled == d {
                assert(true_weight(n, d, budget) == half * ways_left + half * 0);
                assert(d * (half * ways_left) == n * ways) by (nonlinear_arith)
                    requires
                        d == 2 * n,
                        half * 2 == pow2(32),
                        ways == pow2(32) * ways_left,
                ;
            } else {
                let m = (doubled - d) as nat;
                lemma_decision_is_fair(m, d, left);
                let weight = true_weight(m, d, left);
                lemma_fair_step(m, d, weight, half, ways_left, slack_left);
                assert(true_weight(n, d, budget) == half * ways_left + half * weight);
                assert(d * (half * ways_left + half * weight) == half * (d * ways_left) + d * (half
                    * weight)) by (nonlinear_arith);
                assert(half * (d * ways_left) + half * (m * ways_left) == n * ways)
                    by (nonlinear_arith)
                    requires
                        m + d == 2 * n,
                        half * 2 == pow2(32),
                        ways == pow2(32) * ways_left,
                ;
            }
        }
    }
}

/// Whether a decision with probability `n / d` is `true` on a row.
pub open spec fn says_true(n: nat, d: nat, row: Seq<bool>, budget: nat) -> bool {
    match ratio_run(n, d, row, budget) {
        Some((decision, _)) => decision,
        None => false,
    }
}

/// `says_true` as a property of rows.
pub open spec fn true_on(n: nat, d: nat, budget: nat) -> spec_fn(Seq<bool>) -> bool {
    |row: Seq<bool>| says_true(n, d, row, budget)
}

/// Properties that agree on the rows of `len` coins hold of equally many
/// of them.
pub proof fn lemma_count_agrees(
    len: nat,
    p: spec_fn(Seq<bool>) -> bool,
    q: spec_fn(Seq<bool>) -> bool,
)
    requires
        forall|row: Seq<bool>| row.len() == len ==> #[trigger] p(row) == q(row),
    ensures
        count_rows(len, p) == count_rows(len, q),
    decreases len,
{
    if len == 0 {
        assert(p(Seq::empty()) == q(Seq::empty()));
    } else {
        let before = (len - 1) as nat;
        assert forall|coin: bool, rest: Seq<bool>| rest.len() == before implies #[trigger] after_coin(
            p,
            coin,
        )(rest) == after_coin(q, coin)(rest) by {
            assert(p(seq![coin] + rest) == q(seq![coin] + rest));
        }
        lemma_count_agrees(before, after_coin(p, false), after_coin(q, false));
        lemma_count_agrees(before, after_coin(p, true), after_coin(q, true));
    }
}

/// A property that holds of no row of `len` coins is counted 0 times, one
/// that holds of all of them `2^len` times.
pub proof fn lemma_count_constant(len: nat, p: spec_fn(Seq<bool>) -> bool, value: bool)
    requires
        forall|row: Seq<bool>| row.len() == len ==> #[trigger] p(row) == value,
    ensures
        count_rows(len, p) == if value {
            pow2(len)
        } else {
            0
        },
    decreases len,
{
    if len == 0 {
        assert(p(Seq::empty()) == value);
        lemma2_to64();
    } else {
        let before = (len - 1) as nat;
        assert forall|coin: bool, rest: Seq<bool>| rest.len() == before implies #[trigger] after_coin(
            p,
            coin,
        )(rest) == value by {
            assert(p(seq![coin] + rest) == value);
        }
        lemma_count_constant(before, after_coin(p, false), value);
        lemma_count_constant(before, after_coin(p, true), value);
        lemma_pow2_unfold(len);
    }
}

/// Of the rows of `len` coins, as many start with `c` heads and have a
/// rest of which `q` holds as there are rows of `len - c` coins of which
/// `q` holds.
pub proof fn lemma_count_after_heads(
    len: nat,
    c: nat,
    p: spec_fn(Seq<bool>) -> bool,
    q: spec_fn(Seq<bool>) -> bool,
)
    requires
        c <= len,
        forall|row: Seq<bool>|
            row.len() == len ==> #[trigger] p(row) == (heads_run(row) >= c && q(row.skip(c as int))),
    ensures
        count_rows(len, p) == count_rows((len - c) as nat, q),
    decreases c,
{
    if c == 0 {
        assert forall|row: Seq<bool>| row.len() == len implies #[trigger] p(row) == q(row) by {
            assert(row.skip(0) =~= row);
        }
        lemma_count_agrees(len, p, q);
    } else {
        let before = (len - 1) as nat;
        assert forall|rest: Seq<bool>| rest.len() == before implies #[trigger] after_coin(p, true)(
            rest,
        ) == false by {
            let row = seq![true] + rest;
            assert(p(row) == (heads_run(row) >= c && q(row.skip(c as int))));
            assert(row[0]);
        }
        lemma_count_constant(before, after_coin(p, true), false);
        assert forall|rest: Seq<bool>| rest.len() == before implies #[trigger] after_coin(p, false)(
            rest,
        ) == (heads_run(rest) >= c - 1 && q(rest.skip(c - 1))) by {
            let row = seq![false] + rest;
            assert(p(row) == (heads_run(row) >= c && q(row.skip(c as int))));
            assert(!row[0]);
            assert(row.skip(1) =~= rest);
            assert(row.skip(c as int) =~= rest.skip(c - 1));
        }
        lemma_count_after_heads(before, (c - 1) as nat, after_coin(p, false), q);
    }
}

/// Of the rows of `len` coins, as many start with tails and have a rest
/// of which `q` holds as there are rows of `len - 1` coins of which `q`
/// holds.
pub proof fn lemma_count_after_tails(
    len: nat,
    p: spec_fn(Seq<bool>) -> bool,
    q: spec_fn(Seq<bool>) -> bool,
)
    requires
        len >= 1,
        forall|row: Seq<bool>| row.len() == len ==> #[trigger] p(row) == (row[0] && q(row.skip(1))),
    ensures
        count_rows(len, p) == count_rows((len - 1) as nat, q),
{
    let before = (len - 1) as nat;
    assert forall|rest: Seq<bool>| rest.len() == before implies #[trigger] after_coin(p, false)(rest)
        == false by {
        let row = seq![false] + rest;
        assert(p(row) == (row[0] && q(row.skip(1))));
    }
    lemma_count_constant(before, after_coin(p, false), false);
    assert forall|rest: Seq<bool>| rest.len() == before implies #[trigger] after_coin(p, true)(rest)
        == q(rest) by {
        let row = seq![true] + rest;
        assert(p(row) == (row[0] && q(row.skip(1))));
        assert(row.skip(1) =~= rest);
    }
    lemma_count_agrees(before, after_coin(p, true), q);
}

/// Properties that never hold of the same row: one or the other holds of
/// as many rows as both add up to.
pub proof fn lemma_count_either(
    len: nat,
    p: spec_fn(Seq<bool>) -> bool,
    a: spec_fn(Seq<bool>) -> bool,
    b: spec_fn(Seq<bool>) -> bool,
)
    requires
        forall|row: Seq<bool>| row.len() == len ==> #[trigger] p(row) == (a(row) || b(row)),
        forall|row: Seq<bool>| row.len() == len ==> !(#[trigger] a(row) && b(row)),
    ensures
        count_rows(len, p) == count_rows(len, a) + count_rows(len, b),
    decreases len,
{
    if len == 0 {
        let row = Seq::<bool>::empty();
        assert(p(row) == (a(row) || b(row)));
        assert(!(a(row) && b(row)));
    } else {
        let before = (len - 1) as nat;
        assert forall|coin: bool, rest: Seq<bool>| rest.len() == before implies #[trigger] after_coin(
            p,
            coin,
        )(rest) == (after_coin(a, coin)(rest) || after_coin(b, coin)(rest)) by {
            assert(p(seq![coin] + rest) == (a(seq![coin] + rest) || b(seq![coin] + rest)));
        }
        assert forall|coin: bool, rest: Seq<bool>| rest.len() == before implies !(
        #[trigger] after_coin(a, coin)(rest) && after_coin(b, coin)(rest)) by {
            assert(!(a(seq![coin] + rest) && b(seq![coin] + rest)));
        }
        lemma_count_either(
            before,
            after_coin(p, false),
            after_coin(a, false),
            after_coin(b, false),
        );
        lemma_count_either(before, after_coin(p, true), after_coin(a, true), after_coin(b, true));
    }
}

/// The rows on which a decision with probability `n / d` is `true` are
/// counted by `true_weight`: of the rows of `len` coins, enough for every
/// test that `budget` allows, as many as `true_weight` says of
/// `2^(32 * budget)`.
pub proof fn lemma_true_rows(n: nat, d: nat, budget: nat, len: nat)
    requires
        len >= 32 * budget,
    ensures
        count_rows(len, true_on(n, d, budget)) == true_weight(n, d, budget) * pow2(
            (len - 32 * budget) as nat,
        ),
    decreases budget,
{
    let spare = (len - 32 * budget) as nat;
    let p = true_on(n, d, budget);
    if n >= d {
        assert forall|row: Seq<bool>| row.len() == len implies #[trigger] p(row) == true by {}
        lemma_count_constant(len, p, true);
        lemma_pow2_adds(32 * budget, spare);
    } else if budget == 0 {
        assert forall|row: Seq<bool>| row.len() == len implies #[trigger] p(row) == false by {}
        lemma_count_constant(len, p, false);
        assert(0 * pow2(spare) == 0) by (nonlinear_arith);
    } else {
        let c = flips_at_once(n, d);
        let left = (budget - 1) as nat;
        let on = n * pow2(c);
        let back = (2 * n - d) as nat;
        let goes_back = c == 1 && 2 * n > d;
        lemma_flips_at_once(n, d);
        let after_heads = true_on(on, d, left);
        let after_tails = true_on(back, d, left);
        let a = |row: Seq<bool>| heads_run(row) >= c && after_heads(row.skip(c as int));
        let b = |row: Seq<bool>| goes_back && row[0] && after_tails(row.skip(1));
        assert forall|row: Seq<bool>| row.len() == len implies #[trigger] p(row) == (a(row) || b(
            row,
        )) by {
            lemma_heads_run_bound(row);
            let h = heads_run(row);
            if h < c {
                if c == 1 {
                    assert(row[0]);
                } else {
                    assert(ratio_step_spec(n, d, c, false) is None);
                }
            } else {
                assert(!row[0]);
            }
        }
        assert forall|row: Seq<bool>| row.len() == len implies !(#[trigger] a(row) && b(row)) by {
            lemma_heads_run_bound(row);
        }
        lemma_count_either(len, p, a, b);
        lemma_count_after_heads(len, c, a, after_heads);
        lemma_true_rows(on, d, left, (len - c) as nat);
        let heads = pow2((32 - c) as nat);
        let weight_on = true_weight(on, d, left);
        lemma_pow2_adds((32 - c) as nat, spare);
        assert(count_rows(len, a) == weight_on * (heads * pow2(spare)));
        if goes_back {
            lemma_count_after_tails(len, b, after_tails);
            lemma_true_rows(back, d, left, (len - 1) as nat);
            let weight_back = true_weight(back, d, left);
            lemma_pow2_unfold(32);
            assert(pow2(1) == 2) by {
                lemma2_to64();
            }
            assert(count_rows(len, b) == weight_back * (heads * pow2(spare)));
            assert(true_weight(n, d, budget) == heads * weight_on + heads * weight_back);
            assert((heads * weight_on + heads * weight_back) * pow2(spare) == weight_on * (heads
                * pow2(spare)) + weight_back * (heads * pow2(spare))) by (nonlinear_arith);
        } else {
            assert forall|row: Seq<bool>| row.len() == len implies #[trigger] b(row) == false by {}
            lemma_count_constant(len, b, false);
            let tails = (pow2(32) - heads) as nat;
            assert(true_weight(n, d, budget) == heads * weight_on + tails * (match ratio_step_spec(
                n,
                d,
                c,
                false,
            ) {
                Some(m) => true_weight(m, d, left),
                None => 0,
            }));
            if c == 1 {
                assert(ratio_step_spec(n, d, c, false) is None);
            }
            assert(tails * 0 == 0) by (nonlinear_arith);
            assert((heads * weight_on) * pow2(spare) == weight_on * (heads * pow2(spare)))
                by (nonlinear_arith);
        }
    }
}

/// A decision with probability `n / d` is fair on fair coins: of all rows
/// of `len` coins it is `true` on no more than `n` in `d`, and on fewer by
/// no more than one row in `2^budget`.
pub proof fn lemma_ratio_run_is_fair(n: nat, d: nat, budget: nat, len: nat)
    requires
        n <= d,
        len >= 32 * budget,
    ensures
        d * count_rows(len, true_on(n, d, budget)) <= n * pow2(len),
        n * pow2(len) - d * count_rows(len, true_on(n, d, budget)) <= d * pow2(
            (len - budget) as nat,
        ),
{
    let spare = (len - 32 * budget) as nat;
    let weight = true_weight(n, d, budget);
    lemma_true_rows(n, d, budget, len);
    lemma_decision_is_fair(n, d, budget);
    lemma_pow2_adds(32 * budget, spare);
    lemma_pow2_adds(31 * budget, spare);
    let ways = pow2(32 * budget);
    let slack = pow2(31 * budget);
    let scale = pow2(spare);
    assert(d * (weight * scale) <= n * (ways * scale)) by (nonlinear_arith)
        requires
            d * weight <= n * ways,
    ;
    assert(n * (ways * scale) - d * (weight * scale) <= d * (slack * scale)) by (nonlinear_arith)
        requires
            n * ways - d * weight <= d * slack,
            d * weight <= n * ways,
    ;
}

/// Whether a decision with probability `1 / d` is `true` on a row.
pub open spec fn one_over_says_true(d: nat, row: Seq<bool>, budget: nat) -> bool {
    match one_over_run(d, row, budget) {
        Some((decision, _)) => decision,
        None => false,
    }
}

/// `one_over_says_true` as a property of rows.
pub open spec fn one_over_true_on(d: nat, budget: nat) -> spec_fn(Seq<bool>) -> bool {
    |row: Seq<bool>| one_over_says_true(d, row, budget)
}

/// A decision with probability `1 / d` is fair on fair coins: of all rows
/// of `len` coins it is `true` on no more than one in `d`, and on fewer by
/// no more than one row in `2^budget`.
pub proof fn lemma_one_over_run_is_fair(d: nat, budget: nat, len: nat)
    requires
        d > 0,
        len >= 32 * (budget + 1),
    ensures
        d * count_rows(len, one_over_true_on(d, budget)) <= pow2(len),
        pow2(len) - d * count_rows(len, one_over_true_on(d, budget)) <= d * pow2(
            (len - budget) as nat,
        ),
{
    let c = heads_for_one_over(d);
    let rest = (len - c) as nat;
    let p = one_over_true_on(d, budget);
    let q = true_on(pow2(c), d, budget);
    lemma_bit_length_bounds(d);
    if c < bit_length(d) - 1 {
        lemma_pow2_strictly_increases(c, (bit_length(d) - 1) as nat);
    }
    assert forall|row: Seq<bool>| row.len() == len implies #[trigger] p(row) == (heads_run(row)
        >= c && q(row.skip(c as int))) by {
        lemma_heads_run_bound(row);
    }
    lemma_count_after_heads(len, c, p, q);
    lemma_ratio_run_is_fair(pow2(c), d, budget, rest);
    lemma_pow2_adds(c, rest);
    lemma_pow2_pos(c);
    if c > 0 {
        lemma_pow2_strictly_increases((rest - budget) as nat, (len - budget) as nat);
    }
    assert(d * pow2((rest - budget) as nat) <= d * pow2((len - budget) as nat)) by (nonlinear_arith)
        requires
            pow2((rest - budget) as nat) <= pow2((len - budget) as nat),
    ;
}

} // verus!
