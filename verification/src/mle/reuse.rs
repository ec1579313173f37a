//! Tables that are filled again for the same query hold what they held.

use vstd::prelude::*;
use crate::fixed::Fixed;
use crate::mle::prob::{boundary_filled, prefix_filled, suffix_filled};
use crate::mle::tensors::{DenseMatrix, DenseTensor};

verus! {

/// A prefix table that is filled twice for the same probabilities and the same `k`
/// holds after the second time, in every place of its buffer, what it held after
/// the first.
pub proof fn lemma_prefix_refilled(
    before: &DenseMatrix,
    once: &DenseMatrix,
    twice: &DenseMatrix,
    p: Seq<Fixed>,
    k: int,
)
    requires
        before.num_rows == k + 1,
        before.num_columns == p.len() + 2,
        prefix_filled(before, once, p, k),
        prefix_filled(once, twice, p, k),
    ensures
        twice.buffer@ == once.buffer@,
{
    twice.lemma_same_cells_same_buffer(once);
}

/// A suffix table that is filled twice for the same probabilities and the same `k`
/// holds after the second time, in every place of its buffer, what it held after
/// the first.
pub proof fn lemma_suffix_refilled(
    before: &DenseMatrix,
    once: &DenseMatrix,
    twice: &DenseMatrix,
    p: Seq<Fixed>,
    k: int,
)
    requires
        before.num_rows == k + 1,
        before.num_columns == p.len() + 2,
        suffix_filled(before, once, p, k),
        suffix_filled(once, twice, p, k),
    ensures
        twice.buffer@ == once.buffer@,
{
    twice.lemma_same_cells_same_buffer(once);
}

/// A boundary table that is filled twice for the same query and the same `k` holds
/// after the second time, in every place of its buffer, what it held after the first.
pub proof fn lemma_boundary_refilled(
    before: &DenseTensor,
    once: &DenseTensor,
    twice: &DenseTensor,
    utilities: Seq<Fixed>,
    distinct: Seq<Fixed>,
    p: Seq<Fixed>,
    k: int,
)
    requires
        before.dim_1 == k + 1,
        before.dim_2 == p.len() + 2,
        before.dim_3 == distinct.len(),
        boundary_filled(before, once, utilities, distinct, p, k),
        boundary_filled(once, twice, utilities, distinct, p, k),
    ensures
        twice.buffer@ == once.buffer@,
{
    twice.lemma_same_cells_same_buffer(once);
}

} // verus!
