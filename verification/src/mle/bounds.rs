//! The entries of the probability tables are probabilities, and what a column of
//! the prefix table holds in all sums to at most one.

use vstd::prelude::*;
use crate::fixed::{
    all_probabilities,
    lemma_complement_of_probability,
    lemma_mixture_of_probabilities,
    lemma_shares_of_probability,
    lemma_times_of_probabilities,
    Fixed,
    SCALE,
};
use crate::mle::prob::{boundary_prob, prefix_prob, suffix_prob};

verus! {

/// The raw sum of column `j` of the prefix table over the rows `0..=k`: the
/// probability that at most `k` of the first `j` items are present.
pub open spec fn column_sum(p: Seq<Fixed>, k: int, j: int) -> int
    decreases k + 1,
{
    if k < 0 {
        0
    } else {
        column_sum(p, k - 1, j) + prefix_prob(p, k, j).raw
    }
}

/// The raw sum of column `j` of the prefix table over the rows above `k` up to
/// `beyond`: the probability that more than `k` and at most `beyond` of the first `j`
/// items are present.
pub open spec fn tail_mass(p: Seq<Fixed>, k: int, beyond: int, j: int) -> int
    decreases beyond - k,
{
    if beyond <= k {
        0
    } else {
        tail_mass(p, k, beyond - 1, j) + prefix_prob(p, beyond, j).raw
    }
}

/// The entry of the prefix table in row `k` and column `j` is a probability; the
/// column sums to at most one over the rows `0..=k`, to one in column zero; and from
/// one column to the next the sum does not grow, not even with what moves on into
/// row `k + 1`.
pub proof fn lemma_prefix_bounds(p: Seq<Fixed>, k: int, j: int)
    requires
        all_probabilities(p),
        0 <= k,
        0 <= j <= p.len(),
    ensures
        prefix_prob(p, k, j).is_probability(),
        0 <= column_sum(p, k, j) <= SCALE,
        j == 0 ==> column_sum(p, k, j) == SCALE,
        j >= 1 ==> column_sum(p, k, j) + prefix_prob(p, k, j - 1).times_spec(p[j - 1]).raw
            <= column_sum(p, k, j - 1),
    decreases j, k,
{
    if j == 0 {
        if k > 0 {
            lemma_prefix_bounds(p, k - 1, 0);
        }
    } else {
        let q = p[j - 1];
        let away = q.complement_spec();
        let stays_from = prefix_prob(p, k, j - 1);
        lemma_prefix_bounds(p, k, j - 1);
        lemma_complement_of_probability(q);
        lemma_times_of_probabilities(stays_from, away);
        lemma_times_of_probabilities(stays_from, q);
        lemma_shares_of_probability(stays_from, q);
        if k == 0 {
            assert(column_sum(p, -1, j) == 0);
            assert(column_sum(p, -1, j - 1) == 0);
        } else {
            let enters_from = prefix_prob(p, k - 1, j - 1);
            lemma_prefix_bounds(p, k - 1, j);
            lemma_prefix_bounds(p, k - 1, j - 1);
            lemma_mixture_of_probabilities(stays_from, enters_from, q);
        }
    }
}

/// A column of the prefix table, summed over the rows `0..=k`, lies between zero and
/// one less what the rows above `k` hold.
pub proof fn lemma_column_sum_leaves_tail(p: Seq<Fixed>, k: int, beyond: int, j: int)
    requires
        all_probabilities(p),
        0 <= k <= beyond,
        0 <= j <= p.len(),
    ensures
        0 <= tail_mass(p, k, beyond, j),
        column_sum(p, k, j) + tail_mass(p, k, beyond, j) == column_sum(p, beyond, j),
        0 <= column_sum(p, k, j) <= SCALE - tail_mass(p, k, beyond, j),
    decreases beyond - k,
{
    lemma_prefix_bounds(p, k, j);
    lemma_prefix_bounds(p, beyond, j);
    if beyond > k {
        lemma_column_sum_leaves_tail(p, k, beyond - 1, j);
    }
}

/// The suffix table of `p` is the prefix table of `p` read from its end.
pub proof fn lemma_suffix_mirrors_prefix(p: Seq<Fixed>, k: int, j: int)
    requires
        1 <= j <= p.len() + 1,
    ensures
        suffix_prob(p, k, j) == prefix_prob(p.reverse(), k, p.len() + 1 - j),
    decreases p.len() + 1 - j,
{
    if j <= p.len() {
        lemma_suffix_mirrors_prefix(p, k, j + 1);
        lemma_suffix_mirrors_prefix(p, 0, j + 1);
        lemma_suffix_mirrors_prefix(p, k - 1, j + 1);
    }
}

/// The entry of the suffix table in row `k` and column `j` is a probability.
pub proof fn lemma_suffix_bounds(p: Seq<Fixed>, k: int, j: int)
    requires
        all_probabilities(p),
        0 <= k,
        1 <= j <= p.len() + 1,
    ensures
        suffix_prob(p, k, j).is_probability(),
{
    lemma_suffix_mirrors_prefix(p, k, j);
    assert(all_probabilities(p.reverse()));
    lemma_prefix_bounds(p.reverse(), k, p.len() + 1 - j);
}

/// The entry of the boundary table in row `k` and column `i` is a probability for
/// every utility.
pub proof fn lemma_boundary_bounds(
    utilities: Seq<Fixed>,
    distinct: Seq<Fixed>,
    p: Seq<Fixed>,
    k: int,
    i: int,
    e: int,
)
    requires
        all_probabilities(p),
        1 <= i <= p.len() + 1,
    ensures
        boundary_prob(utilities, distinct, p, k, i, e).is_probability(),
    decreases p.len() + 1 - i,
{
    if i <= p.len() && k > 0 {
        let q = p[i - 1];
        let stays_from = boundary_prob(utilities, distinct, p, k, i + 1, e);
        let enters_from = boundary_prob(utilities, distinct, p, k - 1, i + 1, e);
        lemma_boundary_bounds(utilities, distinct, p, k, i + 1, e);
        lemma_boundary_bounds(utilities, distinct, p, k - 1, i + 1, e);
        lemma_complement_of_probability(q);
        lemma_mixture_of_probabilities(stays_from, enters_from, q);
        if k == 1 {
            lemma_times_of_probabilities(stays_from, q.complement_spec());
            lemma_times_of_probabilities(enters_from, q);
        }
    }
}

} // verus!
