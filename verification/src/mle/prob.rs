//! The probability tables of one query: how many of the first items, of the last
//! items, are present, and which utility the item at the boundary of the top-k has.

use vstd::prelude::*;
use crate::fixed::Fixed;
use crate::mle::tensors::{DenseMatrix, DenseTensor};

verus! {

/// Probability that exactly `k` of the first `j` items are present, where item `i`
/// is present with probability `p[i]`.
pub open spec fn prefix_prob(p: Seq<Fixed>, k: int, j: int) -> Fixed
    decreases j,
{
    if j <= 0 {
        if k == 0 {
            Fixed::one_spec()
        } else {
            Fixed::zero_spec()
        }
    } else if k == 0 {
        prefix_prob(p, 0, j - 1).times_spec(p[j - 1].complement_spec())
    } else {
        prefix_prob(p, k, j - 1).times_spec(p[j - 1].complement_spec()).plus_spec(
            prefix_prob(p, k - 1, j - 1).times_spec(p[j - 1]),
        )
    }
}

/// Probability that exactly `k` of the items at positions `j` to `p.len()` are
/// present; positions count from one.
pub open spec fn suffix_prob(p: Seq<Fixed>, k: int, j: int) -> Fixed
    decreases p.len() + 1 - j,
{
    if j > p.len() {
        if k == 0 {
            Fixed::one_spec()
        } else {
            Fixed::zero_spec()
        }
    } else if k == 0 {
        suffix_prob(p, 0, j + 1).times_spec(p[j - 1].complement_spec())
    } else {
        suffix_prob(p, k, j + 1).times_spec(p[j - 1].complement_spec()).plus_spec(
            suffix_prob(p, k - 1, j + 1).times_spec(p[j - 1]),
        )
    }
}

/// Probability that at least `k` of the items at positions `i` to `p.len()` are
/// present and the `k`-th of them, counted from position `i`, has the utility
/// `distinct[e]`; positions count from one, and `utilities[i - 1]` is the utility at
/// position `i`.
pub open spec fn boundary_prob(
    utilities: Seq<Fixed>,
    distinct: Seq<Fixed>,
    p: Seq<Fixed>,
    k: int,
    i: int,
    e: int,
) -> Fixed
    decreases p.len() + 1 - i,
{
    if i > p.len() || k <= 0 {
        Fixed::zero_spec()
    } else {
        let carried = boundary_prob(utilities, distinct, p, k, i + 1, e).times_spec(
            p[i - 1].complement_spec(),
        ).plus_spec(boundary_prob(utilities, distinct, p, k - 1, i + 1, e).times_spec(p[i - 1]));
        if k == 1 && distinct[e] == utilities[i - 1] {
            carried.plus_spec(p[i - 1])
        } else {
            carried
        }
    }
}

/// Rows `0..=k` of columns `0..columns` of the matrix hold the prefix probabilities of `p`.
pub open spec fn holds_prefix_table(t: &DenseMatrix, p: Seq<Fixed>, k: int, columns: int) -> bool {
    forall|r: int, c: int|
        0 <= r <= k && 0 <= c < columns ==> #[trigger] t.at(r, c) == prefix_prob(p, r, c)
}

/// Rows `0..=k` of columns `from..=p.len() + 1` of the matrix hold the suffix
/// probabilities of `p`.
pub open spec fn holds_suffix_table(t: &DenseMatrix, p: Seq<Fixed>, k: int, from: int) -> bool {
    forall|r: int, c: int|
        0 <= r <= k && from <= c <= p.len() + 1 ==> #[trigger] t.at(r, c) == suffix_prob(p, r, c)
}

/// Column `column` of the two matrices is the same in rows `0..=k`.
pub open spec fn same_column(t: &DenseMatrix, other: &DenseMatrix, k: int, column: int) -> bool {
    forall|r: int| 0 <= r <= k ==> #[trigger] t.at(r, column) == other.at(r, column)
}

/// `after` is `before` with the prefix probabilities of `p` for up to `k` present
/// items written into all columns but the last.
pub open spec fn prefix_filled(before: &DenseMatrix, after: &DenseMatrix, p: Seq<Fixed>, k: int) -> bool {
    &&& after.wf()
    &&& after.same_frame(before)
    &&& holds_prefix_table(after, p, k, p.len() as int + 1)
    &&& same_column(after, before, k, p.len() as int + 1)
}

/// `after` is `before` with the suffix probabilities of `p` for up to `k` present
/// items written into all columns but the first.
pub open spec fn suffix_filled(before: &DenseMatrix, after: &DenseMatrix, p: Seq<Fixed>, k: int) -> bool {
    &&& after.wf()
    &&& after.same_frame(before)
    &&& holds_suffix_table(after, p, k, 1)
    &&& same_column(after, before, k, 0)
}

/// Fills `ip` with the prefix probabilities and `rp` with the suffix probabilities of
/// `p` for up to `k` present items.
///
/// The last column of `ip` and the first column of `rp` belong to no prefix and no
/// suffix: they keep what they held, and so does each buffer behind the matrix.
pub fn compute_prob_from_tensors(
    p: &[Fixed],
    k: usize,
    m: usize,
    ip: &mut DenseMatrix,
    rp: &mut DenseMatrix,
)
    requires
        p@.len() == m,
        old(ip).wf(),
        old(ip).num_rows == k + 1,
        old(ip).num_columns == m + 2,
        old(rp).wf(),
        old(rp).num_rows == k + 1,
        old(rp).num_columns == m + 2,
    ensures
        prefix_filled(old(ip), final(ip), p@, k as int),
        suffix_filled(old(rp), final(rp), p@, k as int),
{
    fill_prefix(p, k, m, ip);
    fill_suffix(p, k, m, rp);
}

fn fill_prefix(p: &[Fixed], k: usize, m: usize, ip: &mut DenseMatrix)
    requires
        p@.len() == m,
        old(ip).wf(),
        old(ip).num_rows == k + 1,
        old(ip).num_columns == m + 2,
    ensures
        final(ip).wf(),
        final(ip).same_frame(old(ip)),
        holds_prefix_table(final(ip), p@, k as int, m + 1),
        same_column(final(ip), old(ip), k as int, m + 1),
{
    let ghost before = *ip;
    ip.set(0, 0, Fixed::one());
    let mut r: usize = 1;
    while r <= k
        invariant
            1 <= r <= k + 1,
            ip.wf(),
            ip.same_frame(&before),
            ip.num_rows == k + 1,
            ip.num_columns == m + 2,
            forall|rr: int| 0 <= rr < r ==> #[trigger] ip.at(rr, 0) == prefix_prob(p@, rr, 0),
            same_column(ip, &before, k as int, m + 1),
        decreases k + 1 - r,
    {
        ip.set(r, 0, Fixed::zero());
        r += 1;
    }
    let mut j: usize = 1;
    while j <= m
        invariant
            1 <= j <= m + 1,
            p@.len() == m,
            ip.wf(),
            ip.same_frame(&before),
            ip.num_rows == k + 1,
            ip.num_columns == m + 2,
            holds_prefix_table(ip, p@, k as int, j as int),
            same_column(ip, &before, k as int, m + 1),
        decreases m + 1 - j,
    {
        let q: Fixed = p[j - 1];
        let away: Fixed = q.complement();
        let first: Fixed = ip.get(0, j - 1).times(away);
        ip.set(0, j, first);
        let mut r: usize = 1;
        while r <= k
            invariant
                1 <= r <= k + 1,
                1 <= j <= m,
                p@.len() == m,
                q == p@[j - 1],
                away == q.complement_spec(),
                ip.wf(),
                ip.same_frame(&before),
                ip.num_rows == k + 1,
                ip.num_columns == m + 2,
                holds_prefix_table(ip, p@, k as int, j as int),
                forall|rr: int| 0 <= rr < r ==> #[trigger] ip.at(rr, j as int) == prefix_prob(p@, rr, j as int),
                same_column(ip, &before, k as int, m + 1),
            decreases k + 1 - r,
        {
            let stays: Fixed = ip.get(r, j - 1).times(away);
            let enters: Fixed = ip.get(r - 1, j - 1).times(q);
            ip.set(r, j, stays.plus(enters));
            r += 1;
        }
        j += 1;
    }
}

fn fill_suffix(p: &[Fixed], k: usize, m: usize, rp: &mut DenseMatrix)
    requires
        p@.len() == m,
        old(rp).wf(),
        old(rp).num_rows == k + 1,
        old(rp).num_columns == m + 2,
    ensures
        final(rp).wf(),
        final(rp).same_frame(old(rp)),
        holds_suffix_table(final(rp), p@, k as int, 1),
        same_column(final(rp), old(rp), k as int, 0),
{
    let ghost before = *rp;
    rp.set(0, m + 1, Fixed::one());
    let mut r: usize = 1;
    while r <= k
        invariant
            1 <= r <= k + 1,
            p@.len() == m,
            rp.wf(),
            rp.same_frame(&before),
            rp.num_rows == k + 1,
            rp.num_columns == m + 2,
            forall|rr: int| 0 <= rr < r ==> #[trigger] rp.at(rr, m + 1) == suffix_prob(p@, rr, m + 1),
            same_column(rp, &before, k as int, 0),
        decreases k + 1 - r,
    {
        rp.set(r, m + 1, Fixed::zero());
        r += 1;
    }
    let mut j: usize = m;
    while j >= 1
        invariant
            0 <= j <= m,
            p@.len() == m,
            rp.wf(),
            rp.same_frame(&before),
            rp.num_rows == k + 1,
            rp.num_columns == m + 2,
            holds_suffix_table(rp, p@, k as int, j + 1),
            same_column(rp, &before, k as int, 0),
        decreases j,
    {
        let q: Fixed = p[j - 1];
        let away: Fixed = q.complement();
        let first: Fixed = rp.get(0, j + 1).times(away);
        rp.set(0, j, first);
        let mut r: usize = 1;
        while r <= k
            invariant
                1 <= r <= k + 1,
                1 <= j <= m,
                p@.len() == m,
                q == p@[j - 1],
                away == q.complement_spec(),
                rp.wf(),
                rp.same_frame(&before),
                rp.num_rows == k + 1,
                rp.num_columns == m + 2,
                holds_suffix_table(rp, p@, k as int, j + 1),
                forall|rr: int| 0 <= rr < r ==> #[trigger] rp.at(rr, j as int) == suffix_prob(p@, rr, j as int),
                same_column(rp, &before, k as int, 0),
            decreases k + 1 - r,
        {
            let stays: Fixed = rp.get(r, j + 1).times(away);
            let enters: Fixed = rp.get(r - 1, j + 1).times(q);
            rp.set(r, j, stays.plus(enters));
            r += 1;
        }
        j -= 1;
    }
}

/// Rows `0..=k` of columns `from..=p.len() + 1` of the tensor hold the boundary
/// probabilities of the query for each of the distinct utilities.
pub open spec fn holds_boundary_table(
    t: &DenseTensor,
    utilities: Seq<Fixed>,
    distinct: Seq<Fixed>,
    p: Seq<Fixed>,
    k: int,
    from: int,
) -> bool {
    forall|r: int, i: int, e: int|
        0 <= r <= k && from <= i <= p.len() + 1 && 0 <= e < distinct.len() ==> #[trigger] t.at(
            r,
            i,
            e,
        ) == boundary_prob(utilities, distinct, p, r, i, e)
}

/// Row zero of columns `1..until` of the tensor holds zeros.
pub open spec fn holds_empty_row(t: &DenseTensor, until: int) -> bool {
    forall|i: int, e: int|
        1 <= i < until && 0 <= e < t.dim_3 ==> #[trigger] t.at(0, i, e) == Fixed::zero_spec()
}

/// Column `column` of the two tensors is the same in rows `0..=k`.
pub open spec fn same_plane(t: &DenseTensor, other: &DenseTensor, k: int, column: int) -> bool {
    forall|r: int, e: int|
        0 <= r <= k && 0 <= e < t.dim_3 ==> #[trigger] t.at(r, column, e) == other.at(
            r,
            column,
            e,
        )
}

/// `after` is `before` with the boundary probabilities of the query for up to `k`
/// present items written into all columns but the first.
pub open spec fn boundary_filled(
    before: &DenseTensor,
    after: &DenseTensor,
    utilities: Seq<Fixed>,
    distinct: Seq<Fixed>,
    p: Seq<Fixed>,
    k: int,
) -> bool {
    &&& after.wf()
    &&& after.same_frame(before)
    &&& holds_boundary_table(after, utilities, distinct, p, k, 1)
    &&& same_plane(after, before, k, 0)
}

/// Fills `b` with the boundary probabilities of a query whose positions have the
/// utilities `retrieved_utility_contributions`, for each of the utilities in
/// `distinct_utility_contributions` and up to `k` present items.
///
/// The first column of `b` belongs to no position: it keeps what it held, and so
/// does the buffer behind the tensor.
pub fn compute_boundary_set_prob_any_loss_from_tensor_predicated_simd(
    retrieved_utility_contributions: &[Fixed],
    distinct_utility_contributions: &[Fixed],
    p: &[Fixed],
    k: usize,
    m: usize,
    b: &mut DenseTensor,
)
    requires
        retrieved_utility_contributions@.len() == m,
        p@.len() == m,
        old(b).wf(),
        old(b).dim_1 == k + 1,
        old(b).dim_2 == m + 2,
        old(b).dim_3 == distinct_utility_contributions@.len(),
    ensures
        boundary_filled(
            old(b),
            final(b),
            retrieved_utility_contributions@,
            distinct_utility_contributions@,
            p@,
            k as int,
        ),
{
    let ghost before = *b;
    let ghost utilities = retrieved_utility_contributions@;
    let ghost distinct = distinct_utility_contributions@;
    let size_of_e: usize = distinct_utility_contributions.len();
    clear_empty_row(m, size_of_e, b);
    clear_last_column(k, m, size_of_e, b);
    let mut i: usize = m;
    while i >= 1
        invariant
            0 <= i <= m,
            utilities == retrieved_utility_contributions@,
            distinct == distinct_utility_contributions@,
            utilities.len() == m,
            p@.len() == m,
            size_of_e == distinct.len(),
            b.wf(),
            b.same_frame(&before),
            b.dim_1 == k + 1,
            b.dim_2 == m + 2,
            b.dim_3 == size_of_e,
            holds_empty_row(b, m + 2),
            holds_boundary_table(b, utilities, distinct, p@, k as int, i + 1),
            same_plane(b, &before, k as int, 0),
        decreases i,
    {
        let q: Fixed = p[i - 1];
        let away: Fixed = q.complement();
        if k >= 1 {
            let utility: Fixed = retrieved_utility_contributions[i - 1];
            let mut e: usize = 0;
            while e < size_of_e
                invariant
                    0 <= e <= size_of_e,
                    1 <= i <= m,
                    k >= 1,
                    utilities == retrieved_utility_contributions@,
                    distinct == distinct_utility_contributions@,
                    utilities.len() == m,
                    p@.len() == m,
                    q == p@[i - 1],
                    away == q.complement_spec(),
                    utility == utilities[i - 1],
                    size_of_e == distinct.len(),
                    b.wf(),
                    b.same_frame(&before),
                    b.dim_1 == k + 1,
                    b.dim_2 == m + 2,
                    b.dim_3 == size_of_e,
                    holds_empty_row(b, m + 2),
                    holds_boundary_table(b, utilities, distinct, p@, k as int, i + 1),
                    forall|ee: int|
                        0 <= ee < e ==> #[trigger] b.at(1, i as int, ee) == boundary_prob(
                            utilities,
                            distinct,
                            p@,
                            1,
                            i as int,
                            ee,
                        ),
                    same_plane(b, &before, k as int, 0),
                decreases size_of_e - e,
            {
                let carried: Fixed = b.get(1, i + 1, e).times(away).plus(
                    b.get(0, i + 1, e).times(q),
                );
                let value: Fixed = if distinct_utility_contributions[e] == utility {
                    carried.plus(q)
                } else {
                    carried
                };
                b.set(1, i, e, value);
                e += 1;
            }
            let mut r: usize = 2;
            while r <= k
                invariant
                    2 <= r <= k + 1,
                    1 <= i <= m,
                    utilities.len() == m,
                    p@.len() == m,
                    q == p@[i - 1],
                    away == q.complement_spec(),
                    size_of_e == distinct.len(),
                    b.wf(),
                    b.same_frame(&before),
                    b.dim_1 == k + 1,
                    b.dim_2 == m + 2,
                    b.dim_3 == size_of_e,
                    holds_empty_row(b, m + 2),
                    holds_boundary_table(b, utilities, distinct, p@, k as int, i + 1),
                    forall|rr: int, ee: int|
                        1 <= rr < r && 0 <= ee < size_of_e ==> #[trigger] b.at(rr, i as int, ee)
                            == boundary_prob(utilities, distinct, p@, rr, i as int, ee),
                    same_plane(b, &before, k as int, 0),
                decreases k + 1 - r,
            {
                b.set_y_to_x1_a1_plus_x2_a2([r, i], [r, i + 1], away, [r - 1, i + 1], q);
                r += 1;
            }
        }
        i -= 1;
    }
}

/// Writes zeros into row zero of columns `1..=m + 1`.
fn clear_empty_row(m: usize, size_of_e: usize, b: &mut DenseTensor)
    requires
        old(b).wf(),
        old(b).dim_1 >= 1,
        old(b).dim_2 == m + 2,
        old(b).dim_3 == size_of_e,
    ensures
        final(b).wf(),
        final(b).same_frame(old(b)),
        holds_empty_row(final(b), m + 2),
        forall|r: int, i: int, e: int|
            old(b).holds(r, i, e) && (r != 0 || i == 0) ==> #[trigger] final(b).at(r, i, e) == old(
                b,
            ).at(r, i, e),
{
    let ghost before = *b;
    let mut i: usize = 1;
    while i < m + 2
        invariant
            1 <= i <= m + 2,
            b.wf(),
            b.same_frame(&before),
            b.dim_1 >= 1,
            b.dim_2 == m + 2,
            b.dim_3 == size_of_e,
            holds_empty_row(b, i as int),
            forall|r: int, c: int, e: int|
                before.holds(r, c, e) && (r != 0 || c == 0) ==> #[trigger] b.at(r, c, e)
                    == before.at(r, c, e),
        decreases m + 2 - i,
    {
        let mut e: usize = 0;
        while e < size_of_e
            invariant
                0 <= e <= size_of_e,
                1 <= i < m + 2,
                b.wf(),
                b.same_frame(&before),
                b.dim_1 >= 1,
                b.dim_2 == m + 2,
                b.dim_3 == size_of_e,
                holds_empty_row(b, i as int),
                forall|ee: int| 0 <= ee < e ==> #[trigger] b.at(0, i as int, ee) == Fixed::zero_spec(),
                forall|r: int, c: int, ee: int|
                    before.holds(r, c, ee) && (r != 0 || c == 0) ==> #[trigger] b.at(r, c, ee)
                        == before.at(r, c, ee),
            decreases size_of_e - e,
        {
            b.set(0, i, e, Fixed::zero());
            e += 1;
        }
        i += 1;
    }
}

/// Writes zeros into column `m + 1` of rows `1..=k`.
fn clear_last_column(k: usize, m: usize, size_of_e: usize, b: &mut DenseTensor)
    requires
        old(b).wf(),
        old(b).dim_1 == k + 1,
        old(b).dim_2 == m + 2,
        old(b).dim_3 == size_of_e,
    ensures
        final(b).wf(),
        final(b).same_frame(old(b)),
        forall|r: int, e: int|
            1 <= r <= k && 0 <= e < size_of_e ==> #[trigger] final(b).at(r, m + 1, e)
                == Fixed::zero_spec(),
        forall|r: int, i: int, e: int|
            old(b).holds(r, i, e) && (r == 0 || i != m + 1) ==> #[trigger] final(b).at(r, i, e)
                == old(b).at(r, i, e),
{
    let ghost before = *b;
    let mut r: usize = 1;
    while r <= k
        invariant
            1 <= r <= k + 1,
            b.wf(),
            b.same_frame(&before),
            b.dim_1 == k + 1,
            b.dim_2 == m + 2,
            b.dim_3 == size_of_e,
            forall|rr: int, e: int|
                1 <= rr < r && 0 <= e < size_of_e ==> #[trigger] b.at(rr, m + 1, e)
                    == Fixed::zero_spec(),
            forall|rr: int, i: int, e: int|
                before.holds(rr, i, e) && (rr == 0 || i != m + 1) ==> #[trigger] b.at(rr, i, e)
                    == before.at(rr, i, e),
        decreases k + 1 - r,
    {
        let mut e: usize = 0;
        while e < size_of_e
            invariant
                0 <= e <= size_of_e,
                1 <= r <= k,
                b.wf(),
                b.same_frame(&before),
                b.dim_1 == k + 1,
                b.dim_2 == m + 2,
                b.dim_3 == size_of_e,
                forall|rr: int, ee: int|
                    1 <= rr < r && 0 <= ee < size_of_e ==> #[trigger] b.at(rr, m + 1, ee)
                        == Fixed::zero_spec(),
                forall|ee: int| 0 <= ee < e ==> #[trigger] b.at(r as int, m + 1, ee) == Fixed::zero_spec(),
                forall|rr: int, i: int, ee: int|
                    before.holds(rr, i, ee) && (rr == 0 || i != m + 1) ==> #[trigger] b.at(
                        rr,
                        i,
                        ee,
                    ) == before.at(rr, i, ee),
            decreases size_of_e - e,
        {
            b.set(r, m + 1, e, Fixed::zero());
            e += 1;
        }
        r += 1;
    }
}

} // verus!
