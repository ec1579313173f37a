//! How far the rounded entries of the probability tables lie from the probabilities
//! that they stand for.
//!
//! A probability over `j` items is a fraction with the denominator `SCALE` to the
//! power `j`; its numerator is computed here without rounding, as an integer of any
//! size. Every step of a recurrence rounds two products down, so an entry that is
//! `j` steps away from the start of its table lies at most `2 * j` units below its
//! probability, and never above it.

use vstd::prelude::*;
use crate::fixed::{
    all_probabilities,
    lemma_complement_of_probability,
    lemma_mixture_of_probabilities,
    lemma_times_of_probabilities,
    Fixed,
    SCALE,
};
use crate::mle::bounds::{
    column_sum,
    lemma_boundary_bounds,
    lemma_column_sum_leaves_tail,
    lemma_prefix_bounds,
    lemma_suffix_mirrors_prefix,
    tail_mass,
};
use crate::mle::prob::{boundary_prob, prefix_prob, suffix_prob};

verus! {

/// `SCALE` to the power `j`.
pub open spec fn scale_to(j: int) -> int
    decreases j,
{
    if j <= 0 {
        1
    } else {
        SCALE * scale_to(j - 1)
    }
}

/// The numerator, over the denominator `scale_to(j)`, of the probability that
/// exactly `k` of the first `j` items are present.
pub open spec fn exact_prefix(p: Seq<Fixed>, k: int, j: int) -> int
    decreases j,
{
    if j <= 0 {
        if k == 0 {
            1
        } else {
            0
        }
    } else if k == 0 {
        exact_prefix(p, 0, j - 1) * (SCALE - p[j - 1].raw)
    } else {
        exact_prefix(p, k, j - 1) * (SCALE - p[j - 1].raw) + exact_prefix(p, k - 1, j - 1) * p[j
            - 1].raw
    }
}

/// The sum of the numerators of column `j` over the rows `0..=k`.
pub open spec fn exact_column_sum(p: Seq<Fixed>, k: int, j: int) -> int
    decreases k + 1,
{
    if k < 0 {
        0
    } else {
        exact_column_sum(p, k - 1, j) + exact_prefix(p, k, j)
    }
}

/// A power of `SCALE` is positive.
pub proof fn lemma_scale_to_positive(j: int)
    ensures
        scale_to(j) > 0,
    decreases j,
{
    if j > 0 {
        lemma_scale_to_positive(j - 1);
        assert(SCALE * scale_to(j - 1) > 0) by (nonlinear_arith)
            requires
                scale_to(j - 1) > 0,
        ;
    }
}

/// One step of the recurrence with rounding against the same step without: where
/// the two entries that a new entry is mixed from lie at most `slack` units below
/// what they stand for and not above it, the new entry lies at most `slack + 2`
/// units below and not above.
proof fn lemma_rounding_step(a: int, b: int, na: int, nb: int, q: int, t: int, slack: int)
    requires
        0 <= q <= SCALE,
        0 < t,
        0 <= slack,
        0 <= a,
        0 <= b,
        a * t <= na * SCALE,
        na * SCALE <= (a + slack) * t,
        b * t <= nb * SCALE,
        nb * SCALE <= (b + slack) * t,
    ensures
        ((a * (SCALE - q)) / (SCALE as int) + (b * q) / (SCALE as int)) * (SCALE * t) <= (na * (SCALE
            - q) + nb * q) * SCALE,
        (na * (SCALE - q) + nb * q) * SCALE <= ((a * (SCALE - q)) / (SCALE as int) + (b * q) / (
        SCALE as int) + slack + 2) * (SCALE * t),
{
    let s = SCALE as int;
    let c = s - q;
    let big_a = a * c;
    let big_b = b * q;
    let fa = big_a / s;
    let fb = big_b / s;
    let f = fa + fb;
    let n = na * c + nb * q;
    assert(0 <= big_a && 0 <= big_b) by (nonlinear_arith)
        requires
            big_a == a * c,
            big_b == b * q,
            0 <= a,
            0 <= b,
            0 <= c,
            0 <= q,
    ;
    assert(fa * s <= big_a < fa * s + s) by (nonlinear_arith)
        requires
            fa == big_a / s,
            0 <= big_a,
            s > 0,
    ;
    assert(fb * s <= big_b < fb * s + s) by (nonlinear_arith)
        requires
            fb == big_b / s,
            0 <= big_b,
            s > 0,
    ;
    let at = a * t;
    let bt = b * t;
    let ast = (a + slack) * t;
    let bst = (b + slack) * t;
    // what the rounded step holds, times the new denominator
    assert(f * (s * t) == (f * s) * t) by (nonlinear_arith);
    assert((f * s) * t <= (big_a + big_b) * t) by (nonlinear_arith)
        requires
            f * s <= big_a + big_b,
            0 < t,
    ;
    assert((big_a + big_b) * t == c * at + q * bt) by (nonlinear_arith)
        requires
            big_a == a * c,
            big_b == b * q,
            at == a * t,
            bt == b * t,
    ;
    assert(c * at <= c * (na * s)) by (nonlinear_arith)
        requires
            at <= na * s,
            0 <= c,
    ;
    assert(q * bt <= q * (nb * s)) by (nonlinear_arith)
        requires
            bt <= nb * s,
            0 <= q,
    ;
    assert(c * (na * s) + q * (nb * s) == n * s) by (nonlinear_arith)
        requires
            n == na * c + nb * q,
    ;
    // and with the slack
    assert((f + slack + 2) * (s * t) == ((f + 2) * s) * t + slack * (s * t)) by (nonlinear_arith);
    assert(((f + 2) * s) * t >= (big_a + big_b) * t) by (nonlinear_arith)
        requires
            (f + 2) * s >= big_a + big_b,
            0 < t,
    ;
    let st = slack * t;
    assert(ast == at + st && bst == bt + st) by (nonlinear_arith)
        requires
            at == a * t,
            bt == b * t,
            st == slack * t,
            ast == (a + slack) * t,
            bst == (b + slack) * t,
    ;
    assert(c * ast == c * at + c * st && q * bst == q * bt + q * st) by (nonlinear_arith)
        requires
            ast == at + st,
            bst == bt + st,
    ;
    assert(c * st + q * st == slack * (s * t)) by (nonlinear_arith)
        requires
            st == slack * t,
            c + q == s,
    ;
    assert(c * ast >= c * (na * s)) by (nonlinear_arith)
        requires
            ast >= na * s,
            0 <= c,
    ;
    assert(q * bst >= q * (nb * s)) by (nonlinear_arith)
        requires
            bst >= nb * s,
            0 <= q,
    ;
}

/// The entry of the prefix table in row `k` and column `j` is not above the
/// probability that it stands for and at most `2 * j` units below it.
pub proof fn lemma_prefix_rounding(p: Seq<Fixed>, k: int, j: int)
    requires
        all_probabilities(p),
        0 <= k,
        0 <= j <= p.len(),
    ensures
        0 <= exact_prefix(p, k, j),
        prefix_prob(p, k, j).raw * scale_to(j) <= exact_prefix(p, k, j) * SCALE,
        exact_prefix(p, k, j) * SCALE <= (prefix_prob(p, k, j).raw + 2 * j) * scale_to(j),
    decreases j,
{
    if j > 0 {
        let q = p[j - 1];
        let t = scale_to(j - 1);
        let stays_from = prefix_prob(p, k, j - 1);
        lemma_scale_to_positive(j - 1);
        lemma_prefix_rounding(p, k, j - 1);
        lemma_prefix_bounds(p, k, j - 1);
        lemma_complement_of_probability(q);
        lemma_times_of_probabilities(stays_from, q.complement_spec());
        let na = exact_prefix(p, k, j - 1);
        if k == 0 {
            assert(0 * t == 0 && 0 * SCALE == 0 && (0 + 2 * (j - 1)) * t >= 0) by (nonlinear_arith)
                requires
                    0 < t,
                    j >= 1,
            ;
            lemma_rounding_step(stays_from.raw as int, 0, na, 0, q.raw as int, t, 2 * (j - 1));
            assert(na * (SCALE - q.raw) >= 0) by (nonlinear_arith)
                requires
                    na >= 0,
                    SCALE - q.raw >= 0,
            ;
        } else {
            let enters_from = prefix_prob(p, k - 1, j - 1);
            let nb = exact_prefix(p, k - 1, j - 1);
            lemma_prefix_rounding(p, k - 1, j - 1);
            lemma_prefix_bounds(p, k - 1, j - 1);
            lemma_times_of_probabilities(enters_from, q);
            lemma_mixture_of_probabilities(stays_from, enters_from, q);
            lemma_rounding_step(
                stays_from.raw as int,
                enters_from.raw as int,
                na,
                nb,
                q.raw as int,
                t,
                2 * (j - 1),
            );
            assert(na * (SCALE - q.raw) + nb * q.raw >= 0) by (nonlinear_arith)
                requires
                    na >= 0,
                    nb >= 0,
                    SCALE - q.raw >= 0,
                    q.raw >= 0,
            ;
        }
    } else {
        assert(prefix_prob(p, k, j).raw * 1 == exact_prefix(p, k, j) * SCALE) by (nonlinear_arith)
            requires
                prefix_prob(p, k, j).raw == exact_prefix(p, k, j) * SCALE,
        ;
    }
}

/// A column of the prefix table, summed over the rows `0..=k`, is not above the
/// probability that it stands for and at most `2 * j` units for each row below it.
pub proof fn lemma_column_rounding(p: Seq<Fixed>, k: int, j: int)
    requires
        all_probabilities(p),
        0 <= k,
        0 <= j <= p.len(),
    ensures
        column_sum(p, k, j) * scale_to(j) <= exact_column_sum(p, k, j) * SCALE,
        exact_column_sum(p, k, j) * SCALE <= (column_sum(p, k, j) + 2 * j * (k + 1)) * scale_to(j),
    decreases k,
{
    let t = scale_to(j);
    let f = prefix_prob(p, k, j).raw as int;
    let n = exact_prefix(p, k, j);
    let below = column_sum(p, k - 1, j);
    let exact_below = exact_column_sum(p, k - 1, j);
    lemma_prefix_rounding(p, k, j);
    if k > 0 {
        lemma_column_rounding(p, k - 1, j);
    } else {
        assert(below * t == 0 && exact_below * SCALE == 0 && (below + 2 * j * k) * t == 0)
            by (nonlinear_arith)
            requires
                below == 0,
                exact_below == 0,
                k == 0,
        ;
    }
    assert((below + f) * t == below * t + f * t) by (nonlinear_arith);
    assert((below + f + 2 * j * (k + 1)) * t == (below + 2 * j * k) * t + (f + 2 * j) * t)
        by (nonlinear_arith);
}

/// The numerators of one column come from those of the column before as the
/// probabilities do: what stays and what moves up one row.
proof fn lemma_exact_column_step(p: Seq<Fixed>, k: int, j: int)
    requires
        0 <= k,
        1 <= j,
    ensures
        exact_column_sum(p, k, j) == exact_column_sum(p, k, j - 1) * (SCALE - p[j - 1].raw)
            + exact_column_sum(p, k - 1, j - 1) * p[j - 1].raw,
    decreases k,
{
    let c = SCALE - p[j - 1].raw;
    let q = p[j - 1].raw as int;
    if k > 0 {
        lemma_exact_column_step(p, k - 1, j);
        let x = exact_column_sum(p, k - 1, j - 1);
        let y = exact_column_sum(p, k - 2, j - 1);
        let nx = exact_prefix(p, k, j - 1);
        let ny = exact_prefix(p, k - 1, j - 1);
        assert((x + nx) * c + (y + ny) * q == x * c + y * q + (nx * c + ny * q)) by (nonlinear_arith);
    } else {
        assert(exact_column_sum(p, -1, j) == 0);
    }
}

/// Of no items, none is present for sure.
proof fn lemma_exact_first_column(p: Seq<Fixed>, k: int)
    requires
        0 <= k,
    ensures
        exact_column_sum(p, k, 0) == 1,
    decreases k,
{
    if k > 0 {
        lemma_exact_first_column(p, k - 1);
    } else {
        assert(exact_column_sum(p, -1, 0) == 0);
    }
}

/// The probabilities of a whole column sum to one: their numerators sum to the
/// denominator.
pub proof fn lemma_exact_total(p: Seq<Fixed>, k: int, j: int)
    requires
        0 <= j <= k,
    ensures
        exact_column_sum(p, k, j) == scale_to(j),
    decreases j,
{
    if j > 0 {
        lemma_exact_column_step(p, k, j);
        lemma_exact_total(p, k, j - 1);
        lemma_exact_total(p, k - 1, j - 1);
        let t = scale_to(j - 1);
        let q = p[j - 1].raw as int;
        assert(t * (SCALE - q) + t * q == SCALE * t) by (nonlinear_arith);
    } else {
        lemma_exact_first_column(p, k);
    }
}

/// The law of the column sums: a column of the prefix table, summed over the rows
/// `0..=k`, is one less the mass of the rows above `k`, but for the rounding: it is
/// not above that and at most `2 * j * (j + 1)` units below it.
pub proof fn lemma_column_sum_is_one_less_tail(p: Seq<Fixed>, k: int, j: int)
    requires
        all_probabilities(p),
        0 <= k <= j <= p.len(),
    ensures
        SCALE - tail_mass(p, k, j, j) - 2 * j * (j + 1) <= column_sum(p, k, j) <= SCALE - tail_mass(
            p,
            k,
            j,
            j,
        ),
{
    let t = scale_to(j);
    let whole = column_sum(p, j, j);
    lemma_column_sum_leaves_tail(p, k, j, j);
    lemma_column_rounding(p, j, j);
    lemma_exact_total(p, j, j);
    lemma_scale_to_positive(j);
    assert(SCALE <= whole + 2 * j * (j + 1)) by (nonlinear_arith)
        requires
            t * SCALE <= (whole + 2 * j * (j + 1)) * t,
            0 < t,
    ;
}

/// The numerator, over the denominator `scale_to(p.len() + 1 - j)`, of the
/// probability that exactly `k` of the items at positions `j` to `p.len()` are
/// present: that of the prefix of the items read from their end.
pub open spec fn exact_suffix(p: Seq<Fixed>, k: int, j: int) -> int {
    exact_prefix(p.reverse(), k, p.len() + 1 - j)
}

/// The entry of the suffix table in row `k` and column `j` is not above the
/// probability that it stands for and at most two units for each of the positions
/// `j` to `p.len()` below it.
pub proof fn lemma_suffix_rounding(p: Seq<Fixed>, k: int, j: int)
    requires
        all_probabilities(p),
        0 <= k,
        1 <= j <= p.len() + 1,
    ensures
        suffix_prob(p, k, j).raw * scale_to(p.len() + 1 - j) <= exact_suffix(p, k, j) * SCALE,
        exact_suffix(p, k, j) * SCALE <= (suffix_prob(p, k, j).raw + 2 * (p.len() + 1 - j))
            * scale_to(p.len() + 1 - j),
{
    lemma_suffix_mirrors_prefix(p, k, j);
    lemma_prefix_rounding(p.reverse(), k, p.len() + 1 - j);
}

/// The numerator, over the denominator `scale_to(p.len() + 1 - i)`, of the
/// probability that at least `k` of the items at positions `i` to `p.len()` are
/// present and the `k`-th of them has the utility `distinct[e]`.
pub open spec fn exact_boundary(
    utilities: Seq<Fixed>,
    distinct: Seq<Fixed>,
    p: Seq<Fixed>,
    k: int,
    i: int,
    e: int,
) -> int
    decreases p.len() + 1 - i,
{
    if i > p.len() || k <= 0 {
        0
    } else {
        exact_boundary(utilities, distinct, p, k, i + 1, e) * (SCALE - p[i - 1].raw)
            + exact_boundary(utilities, distinct, p, k - 1, i + 1, e) * p[i - 1].raw + if k == 1
            && distinct[e] == utilities[i - 1] {
            p[i - 1].raw * scale_to(p.len() - i)
        } else {
            0
        }
    }
}

/// The entry of the boundary table in row `k` and column `i` is not above the
/// probability that it stands for and at most two units for each of the positions
/// `i` to `p.len()` below it.
pub proof fn lemma_boundary_rounding(
    utilities: Seq<Fixed>,
    distinct: Seq<Fixed>,
    p: Seq<Fixed>,
    k: int,
    i: int,
    e: int,
)
    requires
        all_probabilities(p),
        1 <= i <= p.len() + 1,
    ensures
        0 <= exact_boundary(utilities, distinct, p, k, i, e),
        boundary_prob(utilities, distinct, p, k, i, e).raw * scale_to(p.len() + 1 - i)
            <= exact_boundary(utilities, distinct, p, k, i, e) * SCALE,
        exact_boundary(utilities, distinct, p, k, i, e) * SCALE <= (boundary_prob(
            utilities,
            distinct,
            p,
            k,
            i,
            e,
        ).raw + 2 * (p.len() + 1 - i)) * scale_to(p.len() + 1 - i),
    decreases p.len() + 1 - i,
{
    let steps = p.len() + 1 - i;
    lemma_scale_to_positive(steps);
    if i <= p.len() && k > 0 {
        let q = p[i - 1];
        let t = scale_to(steps - 1);
        let stays_from = boundary_prob(utilities, distinct, p, k, i + 1, e);
        let enters_from = boundary_prob(utilities, distinct, p, k - 1, i + 1, e);
        let na = exact_boundary(utilities, distinct, p, k, i + 1, e);
        let nb = exact_boundary(utilities, distinct, p, k - 1, i + 1, e);
        lemma_scale_to_positive(steps - 1);
        lemma_boundary_rounding(utilities, distinct, p, k, i + 1, e);
        lemma_boundary_rounding(utilities, distinct, p, k - 1, i + 1, e);
        lemma_boundary_bounds(utilities, distinct, p, k, i + 1, e);
        lemma_boundary_bounds(utilities, distinct, p, k - 1, i + 1, e);
        lemma_boundary_bounds(utilities, distinct, p, k, i, e);
        lemma_complement_of_probability(q);
        lemma_times_of_probabilities(stays_from, q.complement_spec());
        lemma_times_of_probabilities(enters_from, q);
        lemma_mixture_of_probabilities(stays_from, enters_from, q);
        lemma_rounding_step(
            stays_from.raw as int,
            enters_from.raw as int,
            na,
            nb,
            q.raw as int,
            t,
            2 * (steps - 1),
        );
        let carried = (stays_from.raw * (SCALE - q.raw)) / (SCALE as int) + (enters_from.raw
            * q.raw) / (SCALE as int);
        let mixed = na * (SCALE - q.raw) + nb * q.raw;
        let own: int = if k == 1 && distinct[e] == utilities[i - 1] {
            q.raw as int
        } else {
            0
        };
        assert(mixed >= 0) by (nonlinear_arith)
            requires
                mixed == na * (SCALE - q.raw) + nb * q.raw,
                na >= 0,
                nb >= 0,
                SCALE - q.raw >= 0,
                q.raw >= 0,
        ;
        assert(own * t >= 0) by (nonlinear_arith)
            requires
                own >= 0,
                t > 0,
        ;
        assert((carried + own) * (SCALE * t) == carried * (SCALE * t) + (own * t) * SCALE)
            by (nonlinear_arith);
        assert((carried + own + 2 * steps) * (SCALE * t) == (carried + 2 * (steps - 1) + 2) * (SCALE
            * t) + (own * t) * SCALE) by (nonlinear_arith);
    } else {
        assert(0 * scale_to(steps) == 0 && 0 * SCALE == 0 && (0 + 2 * steps) * scale_to(steps) >= 0)
            by (nonlinear_arith)
            requires
                steps >= 0,
                scale_to(steps) > 0,
        ;
    }
}

} // verus!
