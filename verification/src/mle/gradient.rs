//! What one query contributes to the gradient of the expected utility with respect
//! to the existence probabilities of its items.

use vstd::prelude::*;
use crate::fixed::Fixed;
use crate::mle::prob::{
    boundary_filled,
    boundary_prob,
    compute_boundary_set_prob_any_loss_from_tensor_predicated_simd,
    compute_prob_from_tensors,
    holds_boundary_table,
    holds_prefix_table,
    holds_suffix_table,
    prefix_filled,
    prefix_prob,
    suffix_filled,
    suffix_prob,
};
use crate::mle::tensors::{filled, DenseMatrix, DenseTensor};

verus! {

/// The values of `s` in the order in which each first appears.
pub open spec fn distinct_values(s: Seq<Fixed>) -> Seq<Fixed>
    decreases s.len(),
{
    if s.len() == 0 {
        Seq::empty()
    } else {
        let earlier = distinct_values(s.drop_last());
        if earlier.contains(s.last()) {
            earlier
        } else {
            earlier.push(s.last())
        }
    }
}

/// The distinct values are those of the sequence, each once.
pub proof fn lemma_distinct_values_are_distinct(s: Seq<Fixed>)
    ensures
        distinct_values(s).no_duplicates(),
        distinct_values(s).to_set() == s.to_set(),
        distinct_values(s).len() <= s.len(),
    decreases s.len(),
{
    if s.len() > 0 {
        let earlier = distinct_values(s.drop_last());
        lemma_distinct_values_are_distinct(s.drop_last());
        assert forall|x: Fixed| distinct_values(s).to_set().contains(x) == s.to_set().contains(
            x,
        ) by {
            // what occurs in the sequence is among its distinct values
            if s.contains(x) && x != s.last() {
                let t = choose|t: int| 0 <= t < s.len() && s[t] == x;
                assert(s.drop_last()[t] == x);
                assert(earlier.to_set().contains(x));
            }
            if earlier.contains(x) {
                let t = choose|t: int| 0 <= t < earlier.len() && earlier[t] == x;
                assert(distinct_values(s)[t] == x);
            }
            if x == s.last() && !earlier.contains(x) {
                assert(distinct_values(s)[earlier.len() as int] == x);
            }
            // and the distinct values occur in the sequence
            if earlier.contains(x) {
                assert(s.drop_last().to_set().contains(x));
                let t = choose|t: int| 0 <= t < s.drop_last().len() && s.drop_last()[t] == x;
                assert(s[t] == x);
            }
            if x == s.last() {
                assert(s[s.len() - 1] == x);
            }
        }
    }
}

/// A utility spread over the `k` places of the top-k and over `n` queries.
pub open spec fn weight(utility: Fixed, k: int, n: int) -> Fixed {
    utility.shared_spec(k).shared_spec(n)
}

/// `mu` times the probability that `j` items before position `i` and `k - j` items
/// after it are present.
pub open spec fn own_term(p: Seq<Fixed>, mu: Fixed, i: int, k: int, j: int) -> Fixed {
    mu.times_spec(prefix_prob(p, j, i - 1)).times_spec(suffix_prob(p, k - j, i + 1))
}

/// `start` and then, one after the other, the terms of [`own_term`] for `j` below `count`.
pub open spec fn own_row(p: Seq<Fixed>, mu: Fixed, i: int, k: int, count: int, start: Fixed) -> Fixed
    decreases count,
{
    if count <= 0 {
        start
    } else {
        own_row(p, mu, i, k, count - 1, start).plus_spec(own_term(p, mu, i, k, count - 1))
    }
}

/// `start` and then, one after the other, the rows of [`own_row`] for `k` below
/// `rows`, row `k` with its `k + 1` terms.
pub open spec fn own_sum(p: Seq<Fixed>, mu: Fixed, i: int, rows: int, start: Fixed) -> Fixed
    decreases rows,
{
    if rows <= 0 {
        start
    } else {
        own_row(p, mu, i, rows - 1, rows, own_sum(p, mu, i, rows - 1, start))
    }
}

/// `mu` times the probability that `j` items before position `i` are present and
/// that the item which then falls out of the top `k` has the utility `distinct[e]`.
pub open spec fn displaced_term(
    utilities: Seq<Fixed>,
    distinct: Seq<Fixed>,
    p: Seq<Fixed>,
    k: int,
    mu: Fixed,
    i: int,
    e: int,
    j: int,
) -> Fixed {
    mu.times_spec(prefix_prob(p, j, i - 1)).times_spec(
        boundary_prob(utilities, distinct, p, k - j, i + 1, e),
    )
}

/// `start` and then, one after the other, the terms of [`displaced_term`] for `j`
/// below `count`.
pub open spec fn displaced_row(
    utilities: Seq<Fixed>,
    distinct: Seq<Fixed>,
    p: Seq<Fixed>,
    k: int,
    mu: Fixed,
    i: int,
    e: int,
    count: int,
    start: Fixed,
) -> Fixed
    decreases count,
{
    if count <= 0 {
        start
    } else {
        displaced_row(utilities, distinct, p, k, mu, i, e, count - 1, start).plus_spec(
            displaced_term(utilities, distinct, p, k, mu, i, e, count - 1),
        )
    }
}

/// `start` and then, one after the other and for each of the first `count` distinct
/// utilities, the row of [`displaced_row`] weighted by how far the utility at
/// position `i` lies above that utility.
pub open spec fn displaced_sum(
    utilities: Seq<Fixed>,
    distinct: Seq<Fixed>,
    p: Seq<Fixed>,
    k: int,
    n: int,
    i: int,
    count: int,
    start: Fixed,
) -> Fixed
    decreases count,
{
    if count <= 0 {
        start
    } else {
        displaced_row(
            utilities,
            distinct,
            p,
            k,
            weight(utilities[i - 1].minus_spec(distinct[count - 1]), k, n),
            i,
            count - 1,
            k,
            displaced_sum(utilities, distinct, p, k, n, i, count - 1, start),
        )
    }
}

/// What the item at position `i` of a query, counted from one, adds to the gradient
/// of its existence probability.
pub open spec fn position_gradient(utilities: Seq<Fixed>, p: Seq<Fixed>, k: int, n: int, i: int) -> Fixed {
    let distinct = distinct_values(utilities);
    displaced_sum(
        utilities,
        distinct,
        p,
        k,
        n,
        i,
        distinct.len() as int,
        own_sum(p, weight(utilities[i - 1], k, n), i, k, Fixed::zero_spec()),
    )
}

/// The gradient contributions of one query, position by position.
pub open spec fn query_gradient(utilities: Seq<Fixed>, p: Seq<Fixed>, k: int, n: int) -> Seq<Fixed> {
    Seq::new(p.len(), |i: int| position_gradient(utilities, p, k, n, i + 1))
}

/// A weight of zero adds nothing to a sum of own terms.
pub proof fn lemma_own_sum_of_nothing(p: Seq<Fixed>, mu: Fixed, i: int, rows: int, start: Fixed)
    requires
        mu.raw == 0,
    ensures
        own_sum(p, mu, i, rows, start) == start,
    decreases rows,
{
    if rows > 0 {
        lemma_own_sum_of_nothing(p, mu, i, rows - 1, start);
        lemma_own_row_of_nothing(p, mu, i, rows - 1, rows, start);
    }
}

/// A weight of zero adds nothing to a row of own terms.
pub proof fn lemma_own_row_of_nothing(
    p: Seq<Fixed>,
    mu: Fixed,
    i: int,
    k: int,
    count: int,
    start: Fixed,
)
    requires
        mu.raw == 0,
    ensures
        own_row(p, mu, i, k, count, start) == start,
    decreases count,
{
    if count > 0 {
        lemma_own_row_of_nothing(p, mu, i, k, count - 1, start);
        lemma_nothing_times(mu, prefix_prob(p, count - 1, i - 1));
        lemma_nothing_times(
            mu.times_spec(prefix_prob(p, count - 1, i - 1)),
            suffix_prob(p, k - (count - 1), i + 1),
        );
    }
}

/// A weight of zero adds nothing to a row of displaced terms.
pub proof fn lemma_displaced_row_of_nothing(
    utilities: Seq<Fixed>,
    distinct: Seq<Fixed>,
    p: Seq<Fixed>,
    k: int,
    mu: Fixed,
    i: int,
    e: int,
    count: int,
    start: Fixed,
)
    requires
        mu.raw == 0,
    ensures
        displaced_row(utilities, distinct, p, k, mu, i, e, count, start) == start,
    decreases count,
{
    if count > 0 {
        lemma_displaced_row_of_nothing(utilities, distinct, p, k, mu, i, e, count - 1, start);
        lemma_nothing_times(mu, prefix_prob(p, count - 1, i - 1));
        lemma_nothing_times(
            mu.times_spec(prefix_prob(p, count - 1, i - 1)),
            boundary_prob(utilities, distinct, p, k - (count - 1), i + 1, e),
        );
    }
}

/// Zero times anything is zero, and zero shared among any positive count is zero.
pub proof fn lemma_nothing_times(zero: Fixed, x: Fixed)
    requires
        zero.raw == 0,
    ensures
        zero.times_spec(x).raw == 0,
{
    assert(zero.raw * x.raw == 0) by (nonlinear_arith)
        requires
            zero.raw == 0,
    ;
}

/// Whether `value` occurs in `values`.
fn occurs(values: &Vec<Fixed>, value: Fixed) -> (found: bool)
    ensures
        found == values@.contains(value),
{
    let mut i: usize = 0;
    while i < values.len()
        invariant
            0 <= i <= values@.len(),
            forall|j: int| 0 <= j < i ==> values@[j] != value,
        decreases values@.len() - i,
    {
        if values[i] == value {
            return true;
        }
        i += 1;
    }
    false
}

/// The distinct utilities of a query in the order in which each first appears.
pub fn distinct_utilities(utility_contributions: &[Fixed]) -> (distinct: Vec<Fixed>)
    ensures
        distinct@ == distinct_values(utility_contributions@),
{
    let mut distinct: Vec<Fixed> = Vec::new();
    let mut i: usize = 0;
    while i < utility_contributions.len()
        invariant
            0 <= i <= utility_contributions@.len(),
            distinct@ == distinct_values(utility_contributions@.take(i as int)),
        decreases utility_contributions@.len() - i,
    {
        let utility: Fixed = utility_contributions[i];
        proof {
            let longer = utility_contributions@.take(i + 1);
            assert(longer.drop_last() =~= utility_contributions@.take(i as int));
        }
        if !occurs(&distinct, utility) {
            distinct.push(utility);
        }
        i += 1;
    }
    assert(utility_contributions@.take(i as int) =~= utility_contributions@);
    distinct
}

/// Zero shared among a positive count is zero.
pub proof fn lemma_nothing_shared(zero: Fixed, k: int, n: int)
    requires
        zero.raw == 0,
        k > 0,
        n > 0,
    ensures
        weight(zero, k, n).raw == 0,
{
    assert(0int / k == 0) by (nonlinear_arith)
        requires
            k > 0,
    ;
    assert(0int / n == 0) by (nonlinear_arith)
        requires
            n > 0,
    ;
}

/// Where the top-k has no place, no displaced term is added.
pub proof fn lemma_displaced_sum_without_places(
    utilities: Seq<Fixed>,
    distinct: Seq<Fixed>,
    p: Seq<Fixed>,
    n: int,
    i: int,
    count: int,
    start: Fixed,
)
    ensures
        displaced_sum(utilities, distinct, p, 0, n, i, count, start) == start,
    decreases count,
{
    if count > 0 {
        lemma_displaced_sum_without_places(utilities, distinct, p, n, i, count - 1, start);
    }
}

/// Adds to `start` the own terms of position `i`, read from the tables.
fn own_contribution(
    ip: &DenseMatrix,
    rp: &DenseMatrix,
    Ghost(p): Ghost<Seq<Fixed>>,
    mu: Fixed,
    i: usize,
    k: usize,
    start: Fixed,
) -> (total: Fixed)
    requires
        ip.wf(),
        ip.num_rows == k + 1,
        ip.num_columns == p.len() + 2,
        rp.wf(),
        rp.num_rows == k + 1,
        rp.num_columns == p.len() + 2,
        1 <= i <= p.len(),
        holds_prefix_table(ip, p, k as int, p.len() as int + 1),
        holds_suffix_table(rp, p, k as int, 1),
    ensures
        total == own_sum(p, mu, i as int, k as int, start),
{
    let mut total: Fixed = start;
    let mut row: usize = 0;
    while row < k
        invariant
            0 <= row <= k,
            ip.wf(),
            ip.num_rows == k + 1,
            ip.num_columns == p.len() + 2,
            rp.wf(),
            rp.num_rows == k + 1,
            rp.num_columns == p.len() + 2,
            1 <= i <= p.len(),
            holds_prefix_table(ip, p, k as int, p.len() as int + 1),
            holds_suffix_table(rp, p, k as int, 1),
            total == own_sum(p, mu, i as int, row as int, start),
        decreases k - row,
    {
        let ghost carried = total;
        let mut j: usize = 0;
        while j <= row
            invariant
                0 <= j <= row + 1,
                row < k,
                ip.wf(),
                ip.num_rows == k + 1,
                ip.num_columns == p.len() + 2,
                rp.wf(),
                rp.num_rows == k + 1,
                rp.num_columns == p.len() + 2,
                1 <= i <= p.len(),
                holds_prefix_table(ip, p, k as int, p.len() as int + 1),
                holds_suffix_table(rp, p, k as int, 1),
                total == own_row(p, mu, i as int, row as int, j as int, carried),
            decreases row + 1 - j,
        {
            let term: Fixed = mu.times(ip.get(j, i - 1)).times(rp.get(row - j, i + 1));
            total = total.plus(term);
            j += 1;
        }
        row += 1;
    }
    total
}

/// Adds to `start` the displaced terms of position `i` for the distinct utility `e`,
/// read from the tables.
fn displaced_contribution(
    ip: &DenseMatrix,
    b: &DenseTensor,
    Ghost(utilities): Ghost<Seq<Fixed>>,
    Ghost(distinct): Ghost<Seq<Fixed>>,
    Ghost(p): Ghost<Seq<Fixed>>,
    mu: Fixed,
    i: usize,
    e: usize,
    k: usize,
    start: Fixed,
) -> (total: Fixed)
    requires
        ip.wf(),
        ip.num_rows == k + 1,
        ip.num_columns == p.len() + 2,
        b.wf(),
        b.dim_1 == k + 1,
        b.dim_2 == p.len() + 2,
        b.dim_3 == distinct.len(),
        1 <= i <= p.len(),
        e < distinct.len(),
        holds_prefix_table(ip, p, k as int, p.len() as int + 1),
        holds_boundary_table(b, utilities, distinct, p, k as int, 1),
    ensures
        total == displaced_row(
            utilities,
            distinct,
            p,
            k as int,
            mu,
            i as int,
            e as int,
            k as int,
            start,
        ),
{
    let mut total: Fixed = start;
    let mut j: usize = 0;
    while j < k
        invariant
            0 <= j <= k,
            ip.wf(),
            ip.num_rows == k + 1,
            ip.num_columns == p.len() + 2,
            b.wf(),
            b.dim_1 == k + 1,
            b.dim_2 == p.len() + 2,
            b.dim_3 == distinct.len(),
            1 <= i <= p.len(),
            e < distinct.len(),
            holds_prefix_table(ip, p, k as int, p.len() as int + 1),
            holds_boundary_table(b, utilities, distinct, p, k as int, 1),
            total == displaced_row(
                utilities,
                distinct,
                p,
                k as int,
                mu,
                i as int,
                e as int,
                j as int,
                start,
            ),
        decreases k - j,
    {
        let term: Fixed = mu.times(ip.get(j, i - 1)).times(b.get(k - j, i + 1, e));
        total = total.plus(term);
        j += 1;
    }
    total
}

/// The gradient contribution of the item at position `i` of a query, read from
/// the tables of that query.
fn position_contribution(
    utility_contributions: &[Fixed],
    distinct: &Vec<Fixed>,
    Ghost(p): Ghost<Seq<Fixed>>,
    k: usize,
    n: usize,
    i: usize,
    ip: &DenseMatrix,
    rp: &DenseMatrix,
    b: &DenseTensor,
) -> (total: Fixed)
    requires
        utility_contributions@.len() == p.len(),
        distinct@ == distinct_values(utility_contributions@),
        k > 0,
        n > 0,
        1 <= i <= p.len(),
        ip.wf(),
        ip.num_rows == k + 1,
        ip.num_columns == p.len() + 2,
        rp.wf(),
        rp.num_rows == k + 1,
        rp.num_columns == p.len() + 2,
        b.wf(),
        b.dim_1 == k + 1,
        b.dim_2 == p.len() + 2,
        b.dim_3 == distinct@.len(),
        holds_prefix_table(ip, p, k as int, p.len() as int + 1),
        holds_suffix_table(rp, p, k as int, 1),
        holds_boundary_table(b, utility_contributions@, distinct@, p, k as int, 1),
    ensures
        total == position_gradient(utility_contributions@, p, k as int, n as int, i as int),
{
    let ghost utilities = utility_contributions@;
    let utility: Fixed = utility_contributions[i - 1];
    let mut total: Fixed = Fixed::zero();
    if utility.raw() != 0 {
        let mu: Fixed = utility.shared(k).shared(n);
        total = own_contribution(ip, rp, Ghost(p), mu, i, k, total);
    } else {
        proof {
            lemma_nothing_shared(utility, k as int, n as int);
            lemma_own_sum_of_nothing(
                p,
                weight(utility, k as int, n as int),
                i as int,
                k as int,
                total,
            );
        }
    }
    let ghost own = total;
    let mut e: usize = 0;
    while e < distinct.len()
        invariant
            0 <= e <= distinct@.len(),
            utilities == utility_contributions@,
            utilities.len() == p.len(),
            utility == utilities[i - 1],
            k > 0,
            n > 0,
            1 <= i <= p.len(),
            ip.wf(),
            ip.num_rows == k + 1,
            ip.num_columns == p.len() + 2,
            b.wf(),
            b.dim_1 == k + 1,
            b.dim_2 == p.len() + 2,
            b.dim_3 == distinct@.len(),
            holds_prefix_table(ip, p, k as int, p.len() as int + 1),
            holds_boundary_table(b, utilities, distinct@, p, k as int, 1),
            total == displaced_sum(
                utilities,
                distinct@,
                p,
                k as int,
                n as int,
                i as int,
                e as int,
                own,
            ),
        decreases distinct@.len() - e,
    {
        let difference: Fixed = utility.minus(distinct[e]);
        if difference.raw() != 0 {
            let mu: Fixed = difference.shared(k).shared(n);
            total =
            displaced_contribution(
                ip,
                b,
                Ghost(utilities),
                Ghost(distinct@),
                Ghost(p),
                mu,
                i,
                e,
                k,
                total,
            );
        } else {
            proof {
                lemma_nothing_shared(difference, k as int, n as int);
                lemma_displaced_row_of_nothing(
                    utilities,
                    distinct@,
                    p,
                    k as int,
                    weight(difference, k as int, n as int),
                    i as int,
                    e as int,
                    k as int,
                    total,
                );
            }
        }
        e += 1;
    }
    total
}

/// The gradient contributions of one query, position by position, for existence
/// probabilities `p` of its items, the top `k` and `n` queries in all.
///
/// The three tables are given the shape of the query and filled on the way; they are
/// left holding the probabilities of this query.
pub fn additive_any_loss_mle_gradient(
    utility_contributions: &[Fixed],
    p: &[Fixed],
    k: usize,
    n: usize,
    ip: &mut DenseMatrix,
    rp: &mut DenseMatrix,
    b: &mut DenseTensor,
) -> (s: Vec<Fixed>)
    requires
        utility_contributions@.len() == p@.len(),
        n > 0,
        (k + 1) * (p@.len() + 2) <= old(ip).buffer@.len(),
        (k + 1) * (p@.len() + 2) <= old(rp).buffer@.len(),
        (k + 1) * (p@.len() + 2) * distinct_values(utility_contributions@).len() <= old(
            b,
        ).buffer@.len(),
    ensures
        s@ == query_gradient(utility_contributions@, p@, k as int, n as int),
        prefix_filled(
            &old(ip).reshaped((k + 1) as usize, (p@.len() + 2) as usize),
            final(ip),
            p@,
            k as int,
        ),
        suffix_filled(
            &old(rp).reshaped((k + 1) as usize, (p@.len() + 2) as usize),
            final(rp),
            p@,
            k as int,
        ),
        boundary_filled(
            &old(b).reshaped(
                (k + 1) as usize,
                (p@.len() + 2) as usize,
                distinct_values(utility_contributions@).len() as usize,
            ),
            final(b),
            utility_contributions@,
            distinct_values(utility_contributions@),
            p@,
            k as int,
        ),
{
    let distinct: Vec<Fixed> = distinct_utilities(utility_contributions);
    gradient_for_distinct(utility_contributions, &distinct, p, k, n, ip, rp, b)
}

/// The gradient contributions of one query whose distinct utilities are at hand.
pub fn gradient_for_distinct(
    utility_contributions: &[Fixed],
    distinct: &Vec<Fixed>,
    p: &[Fixed],
    k: usize,
    n: usize,
    ip: &mut DenseMatrix,
    rp: &mut DenseMatrix,
    b: &mut DenseTensor,
) -> (s: Vec<Fixed>)
    requires
        utility_contributions@.len() == p@.len(),
        distinct@ == distinct_values(utility_contributions@),
        n > 0,
        (k + 1) * (p@.len() + 2) <= old(ip).buffer@.len(),
        (k + 1) * (p@.len() + 2) <= old(rp).buffer@.len(),
        (k + 1) * (p@.len() + 2) * distinct_values(utility_contributions@).len() <= old(
            b,
        ).buffer@.len(),
    ensures
        s@ == query_gradient(utility_contributions@, p@, k as int, n as int),
        prefix_filled(
            &old(ip).reshaped((k + 1) as usize, (p@.len() + 2) as usize),
            final(ip),
            p@,
            k as int,
        ),
        suffix_filled(
            &old(rp).reshaped((k + 1) as usize, (p@.len() + 2) as usize),
            final(rp),
            p@,
            k as int,
        ),
        boundary_filled(
            &old(b).reshaped(
                (k + 1) as usize,
                (p@.len() + 2) as usize,
                distinct_values(utility_contributions@).len() as usize,
            ),
            final(b),
            utility_contributions@,
            distinct_values(utility_contributions@),
            p@,
            k as int,
        ),
{
    let num_retrieved: usize = p.len();
    let capacity: usize = ip.buffer.len();
    proof {
        lemma_extents_fit(k as int, num_retrieved as int, capacity as int);
    }
    ip.reuse_as(k + 1, num_retrieved + 2);
    rp.reuse_as(k + 1, num_retrieved + 2);
    compute_prob_from_tensors(p, k, num_retrieved, ip, rp);

    b.reuse_as(k + 1, num_retrieved + 2, distinct.len());
    compute_boundary_set_prob_any_loss_from_tensor_predicated_simd(
        utility_contributions,
        distinct.as_slice(),
        p,
        k,
        num_retrieved,
        b,
    );

    if k == 0 {
        let s: Vec<Fixed> = filled(num_retrieved, Fixed::zero());
        proof {
            assert forall|i: int| 0 <= i < num_retrieved implies s@[i] == position_gradient(
                utility_contributions@,
                p@,
                0,
                n as int,
                i + 1,
            ) by {
                lemma_displaced_sum_without_places(
                    utility_contributions@,
                    distinct@,
                    p@,
                    n as int,
                    i + 1,
                    distinct@.len() as int,
                    Fixed::zero_spec(),
                );
            }
        }
        return s;
    }
    let mut s: Vec<Fixed> = Vec::with_capacity(num_retrieved);
    let mut i: usize = 1;
    while i <= num_retrieved
        invariant
            1 <= i <= num_retrieved + 1,
            num_retrieved == p@.len(),
            num_retrieved + 2 <= usize::MAX,
            utility_contributions@.len() == p@.len(),
            distinct@ == distinct_values(utility_contributions@),
            k > 0,
            n > 0,
            ip.wf(),
            ip.num_rows == k + 1,
            ip.num_columns == p@.len() + 2,
            rp.wf(),
            rp.num_rows == k + 1,
            rp.num_columns == p@.len() + 2,
            b.wf(),
            b.dim_1 == k + 1,
            b.dim_2 == p@.len() + 2,
            b.dim_3 == distinct@.len(),
            holds_prefix_table(ip, p@, k as int, p@.len() as int + 1),
            holds_suffix_table(rp, p@, k as int, 1),
            holds_boundary_table(b, utility_contributions@, distinct@, p@, k as int, 1),
            s@.len() == i - 1,
            forall|j: int|
                0 <= j < i - 1 ==> s@[j] == position_gradient(
                    utility_contributions@,
                    p@,
                    k as int,
                    n as int,
                    j + 1,
                ),
        decreases num_retrieved + 1 - i,
    {
        let total: Fixed = position_contribution(
            utility_contributions,
            distinct,
            Ghost(p@),
            k,
            n,
            i,
            ip,
            rp,
            b,
        );
        s.push(total);
        i += 1;
    }
    s
}

/// A table of `k + 1` rows and `m + 2` columns that fits in a buffer has extents
/// that fit in a machine word.
pub proof fn lemma_extents_fit(k: int, m: int, capacity: int)
    requires
        0 <= k,
        0 <= m,
        (k + 1) * (m + 2) <= capacity,
    ensures
        k + 1 <= capacity,
        m + 2 <= capacity,
{
    assert(k + 1 <= (k + 1) * (m + 2) && m + 2 <= (k + 1) * (m + 2)) by (nonlinear_arith)
        requires
            0 <= k,
            0 <= m,
    ;
}

} // verus!
