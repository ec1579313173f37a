//! The gradient of the expected utility over all queries: the contributions of the
//! queries, scattered onto the items they retrieve and summed, in one run or in
//! chunks side by side.

use vstd::prelude::*;
use rayon::iter::ParallelIterator;
use rayon::slice::ParallelSlice;
use crate::fixed::{saturate, Fixed};
use crate::mle::gradient::{
    distinct_utilities,
    distinct_values,
    gradient_for_distinct,
    lemma_extents_fit,
    query_gradient,
};
use crate::mle::tensors::{cells, DenseMatrix, DenseTensor};
use crate::mle::types::{all_below, probabilities_of, Retrieval};

verus! {

/// One more than the largest magnitude of a raw count of units.
pub open spec fn raw_limit() -> int {
    0x8000_0000_0000_0000
}

/// The raw sum of the contributions `s` at those of the first `count` positions
/// that hold the item `id`.
pub open spec fn scattered(ids: Seq<usize>, s: Seq<Fixed>, id: int, count: int) -> int
    decreases count,
{
    if count <= 0 {
        0
    } else {
        scattered(ids, s, id, count - 1) + if ids[count - 1] == id {
            s[count - 1].raw as int
        } else {
            0
        }
    }
}

/// What one query adds, in raw units, to the gradient of the item `id`.
pub open spec fn query_share(query: Retrieval, v: Seq<Fixed>, k: int, n: int, id: int) -> int {
    scattered(
        query.retrieved@,
        query_gradient(
            query.utility_contributions@,
            probabilities_of(query.retrieved@, v),
            k,
            n,
        ),
        id,
        query.retrieved@.len() as int,
    )
}

/// What the first `count` queries add, in raw units, to the gradient of the item `id`.
pub open spec fn gradient_sum(
    queries: Seq<Retrieval>,
    v: Seq<Fixed>,
    k: int,
    n: int,
    id: int,
    count: int,
) -> int
    decreases count,
{
    if count <= 0 {
        0
    } else {
        gradient_sum(queries, v, k, n, id, count - 1) + query_share(queries[count - 1], v, k, n, id)
    }
}

/// The number of retrieved positions in the first `count` queries.
pub open spec fn total_retrieved(queries: Seq<Retrieval>, count: int) -> int
    decreases count,
{
    if count <= 0 {
        0
    } else {
        total_retrieved(queries, count - 1) + queries[count - 1].retrieved@.len()
    }
}

/// The exact sums of the queries' contributions, item by item, in raw units.
pub open spec fn wide_gradient_of(queries: Seq<Retrieval>, v: Seq<Fixed>, k: int, n: int) -> Seq<
    i128,
> {
    Seq::new(v.len(), |id: int| gradient_sum(queries, v, k, n, id, queries.len() as int) as i128)
}

/// The gradient of the expected utility over all queries: for each item the exact sum
/// of what the queries contribute, brought into the range of [`Fixed`].
pub open spec fn gradient_of(queries: Seq<Retrieval>, v: Seq<Fixed>, k: int, n: int) -> Seq<Fixed> {
    Seq::new(
        v.len(),
        |id: int|
            Fixed { raw: saturate(gradient_sum(queries, v, k, n, id, queries.len() as int)) as i64 },
    )
}

/// The queries suit a corpus of `corpus_size` items and tables made for up to `m_max`
/// retrieved items and `e_max` distinct utilities, and nothing that has to be
/// counted or allocated for them exceeds a machine word.
pub open spec fn fit_for_gradient(
    queries: Seq<Retrieval>,
    corpus_size: int,
    k: int,
    m_max: int,
    e_max: int,
) -> bool {
    &&& (k + 1) * (m_max + 2) <= usize::MAX
    &&& (k + 1) * (m_max + 2) * e_max <= usize::MAX
    &&& total_retrieved(queries, queries.len() as int) <= usize::MAX
    &&& forall|i: int|
        0 <= i < queries.len() ==> {
            &&& (#[trigger] queries[i]).wf()
            &&& queries[i].within(corpus_size)
            &&& queries[i].retrieved@.len() <= m_max
            &&& (k + 1) * (queries[i].retrieved@.len() + 2) * distinct_values(
                queries[i].utility_contributions@,
            ).len() <= usize::MAX
        }
}

/// Whether the queries suit a corpus of `corpus_size` items and tables made for up to
/// `max_distinct_retrieved` items and `max_distinct_utility_contributions` distinct
/// utilities: the test of what the gradient functions require.
pub fn suits_gradient(
    queries: &[Retrieval],
    corpus_size: usize,
    k: usize,
    max_distinct_retrieved: usize,
    max_distinct_utility_contributions: usize,
) -> (ok: bool)
    ensures
        ok == fit_for_gradient(
            queries@,
            corpus_size as int,
            k as int,
            max_distinct_retrieved as int,
            max_distinct_utility_contributions as int,
        ),
{
    let m_max: usize = max_distinct_retrieved;
    let e_max: usize = max_distinct_utility_contributions;
    proof {
        assert(k + 1 <= (k + 1) * (m_max + 2) && m_max + 2 <= (k + 1) * (m_max + 2))
            by (nonlinear_arith)
            requires
                0 <= k,
                0 <= m_max,
        ;
    }
    let rows: usize = match k.checked_add(1) {
        Some(rows) => rows,
        None => {
            return false;
        },
    };
    let columns: usize = match m_max.checked_add(2) {
        Some(columns) => columns,
        None => {
            return false;
        },
    };
    let table: usize = match rows.checked_mul(columns) {
        Some(table) => table,
        None => {
            return false;
        },
    };
    if table.checked_mul(e_max).is_none() {
        return false;
    }
    let count: usize = queries.len();
    let mut total: usize = 0;
    let mut i: usize = 0;
    while i < count
        invariant
            0 <= i <= count,
            count == queries@.len(),
            rows == k + 1,
            m_max == max_distinct_retrieved,
            e_max == max_distinct_utility_contributions,
            m_max + 2 <= usize::MAX,
            (k + 1) * (m_max + 2) <= usize::MAX,
            total == total_retrieved(queries@, i as int),
            forall|t: int|
                0 <= t < i ==> {
                    &&& (#[trigger] queries@[t]).wf()
                    &&& queries@[t].within(corpus_size as int)
                    &&& queries@[t].retrieved@.len() <= m_max
                    &&& (k + 1) * (queries@[t].retrieved@.len() + 2) * distinct_values(
                        queries@[t].utility_contributions@,
                    ).len() <= usize::MAX
                },
        decreases count - i,
    {
        let query: &Retrieval = &queries[i];
        let num_retrieved: usize = query.retrieved.len();
        proof {
            lemma_total_retrieved_grows(queries@, i + 1, count as int);
        }
        total = match total.checked_add(num_retrieved) {
            Some(total) => total,
            None => {
                return false;
            },
        };
        if num_retrieved != query.utility_contributions.len() || num_retrieved > m_max {
            return false;
        }
        if !all_below(&query.retrieved, corpus_size) {
            return false;
        }
        let distinct: Vec<Fixed> = distinct_utilities(query.utility_contributions.as_slice());
        proof {
            lemma_table_fits(k as int, num_retrieved as int, m_max as int);
        }
        if (rows * (num_retrieved + 2)).checked_mul(distinct.len()).is_none() {
            return false;
        }
        i += 1;
    }
    true
}

/// The contributions at any `count` positions sum to at most `count` times the
/// largest magnitude.
pub proof fn lemma_scattered_bound(ids: Seq<usize>, s: Seq<Fixed>, id: int, count: int)
    requires
        0 <= count,
    ensures
        -(count * raw_limit()) <= scattered(ids, s, id, count) <= count * raw_limit(),
    decreases count,
{
    if count > 0 {
        lemma_scattered_bound(ids, s, id, count - 1);
    } else {
        assert(count * raw_limit() == 0) by (nonlinear_arith)
            requires
                count == 0,
        ;
    }
}

/// More queries have no fewer retrieved positions.
pub proof fn lemma_total_retrieved_grows(queries: Seq<Retrieval>, fewer: int, more: int)
    requires
        0 <= fewer <= more,
    ensures
        0 <= total_retrieved(queries, fewer) <= total_retrieved(queries, more),
    decreases more,
{
    if fewer < more {
        lemma_total_retrieved_grows(queries, fewer, more - 1);
    } else if more > 0 {
        lemma_total_retrieved_grows(queries, fewer - 1, more - 1);
    }
}

/// The sum of the first `count` queries stays within the number of their retrieved
/// positions times the largest magnitude.
pub proof fn lemma_gradient_sum_bound(
    queries: Seq<Retrieval>,
    v: Seq<Fixed>,
    k: int,
    n: int,
    id: int,
    count: int,
)
    requires
        0 <= count,
    ensures
        -(total_retrieved(queries, count) * raw_limit()) <= gradient_sum(
            queries,
            v,
            k,
            n,
            id,
            count,
        ) <= total_retrieved(queries, count) * raw_limit(),
    decreases count,
{
    if count > 0 {
        lemma_gradient_sum_bound(queries, v, k, n, id, count - 1);
        let query = queries[count - 1];
        let len = query.retrieved@.len() as int;
        lemma_scattered_bound(
            query.retrieved@,
            query_gradient(
                query.utility_contributions@,
                probabilities_of(query.retrieved@, v),
                k,
                n,
            ),
            id,
            len,
        );
        let before = total_retrieved(queries, count - 1);
        assert((before + len) * raw_limit() == before * raw_limit() + len * raw_limit())
            by (nonlinear_arith);
    } else {
        assert(total_retrieved(queries, count) * raw_limit() == 0) by (nonlinear_arith)
            requires
                total_retrieved(queries, count) == 0,
        ;
    }
}

/// As many positions as a machine word can count sum to a raw count that a wide
/// accumulator can hold.
pub proof fn lemma_wide_holds(positions: int, most: int)
    requires
        0 <= positions <= most <= usize::MAX,
    ensures
        positions * raw_limit() <= most * raw_limit(),
        most * raw_limit() <= i128::MAX,
{
    assert(positions * raw_limit() <= most * raw_limit()) by (nonlinear_arith)
        requires
            0 <= positions <= most,
            raw_limit() >= 0,
    ;
    assert(most * raw_limit() <= 0xffff_ffff_ffff_ffff * raw_limit()) by (nonlinear_arith)
        requires
            0 <= most <= 0xffff_ffff_ffff_ffff,
            raw_limit() >= 0,
    ;
}

/// A vector of `len` empty accumulators.
fn empty_sums(len: usize) -> (sums: Vec<i128>)
    ensures
        sums@.len() == len,
        forall|i: int| 0 <= i < len ==> sums@[i] == 0,
{
    let mut sums: Vec<i128> = Vec::with_capacity(len);
    let mut i: usize = 0;
    while i < len
        invariant
            i <= len,
            sums@.len() == i,
            forall|j: int| 0 <= j < i ==> sums@[j] == 0,
        decreases len - i,
    {
        sums.push(0);
        i += 1;
    }
    sums
}

/// Adds each contribution to the accumulator of the item retrieved at its position.
fn scatter_add(sums: &mut Vec<i128>, ids: &Vec<usize>, s: &Vec<Fixed>, Ghost(counted): Ghost<int>)
    requires
        ids@.len() == s@.len(),
        forall|i: int| 0 <= i < ids@.len() ==> #[trigger] ids@[i] < old(sums)@.len(),
        0 <= counted,
        counted + ids@.len() <= usize::MAX,
        forall|id: int|
            0 <= id < old(sums)@.len() ==> -(counted * raw_limit()) <= #[trigger] old(sums)@[id]
                <= counted * raw_limit(),
    ensures
        final(sums)@.len() == old(sums)@.len(),
        forall|id: int|
            0 <= id < old(sums)@.len() ==> #[trigger] final(sums)@[id] == old(sums)@[id]
                + scattered(ids@, s@, id, ids@.len() as int),
{
    let count: usize = ids.len();
    let mut position: usize = 0;
    while position < count
        invariant
            0 <= position <= count,
            count == ids@.len(),
            ids@.len() == s@.len(),
            sums@.len() == old(sums)@.len(),
            forall|i: int| 0 <= i < ids@.len() ==> #[trigger] ids@[i] < sums@.len(),
            0 <= counted,
            counted + ids@.len() <= usize::MAX,
            forall|id: int|
                0 <= id < old(sums)@.len() ==> -(counted * raw_limit()) <= #[trigger] old(
                    sums,
                )@[id] <= counted * raw_limit(),
            forall|id: int|
                0 <= id < sums@.len() ==> #[trigger] sums@[id] == old(sums)@[id] + scattered(
                    ids@,
                    s@,
                    id,
                    position as int,
                ),
        decreases count - position,
    {
        let id: usize = ids[position];
        let share: i128 = s[position].raw() as i128;
        proof {
            lemma_scattered_bound(ids@, s@, id as int, position as int);
            lemma_wide_holds(counted + position + 1, usize::MAX as int);
            assert((counted + position + 1) * raw_limit() == counted * raw_limit() + position
                * raw_limit() + raw_limit()) by (nonlinear_arith);
        }
        let sum: i128 = sums[id] + share;
        sums[id] = sum;
        position += 1;
    }
}

/// The exact sums, item by item and in raw units, of what the queries contribute to
/// the gradient.
pub fn accumulate_gradient(
    queries: &[Retrieval],
    v: &Vec<Fixed>,
    k: usize,
    max_distinct_retrieved: usize,
    max_distinct_utility_contributions: usize,
    n: usize,
) -> (sums: Vec<i128>)
    requires
        fit_for_gradient(
            queries@,
            v@.len() as int,
            k as int,
            max_distinct_retrieved as int,
            max_distinct_utility_contributions as int,
        ),
        queries@.len() > 0 ==> n > 0,
    ensures
        sums@ == wide_gradient_of(queries@, v@, k as int, n as int),
{
    let m_max: usize = max_distinct_retrieved;
    let e_max: usize = max_distinct_utility_contributions;
    proof {
        lemma_extents_fit(k as int, m_max as int, usize::MAX as int);
    }
    let mut sums: Vec<i128> = empty_sums(v.len());
    let mut ip: DenseMatrix = DenseMatrix::new(k + 1, m_max + 2);
    let mut rp: DenseMatrix = DenseMatrix::new(k + 1, m_max + 2);
    let mut b: DenseTensor = DenseTensor::new(k + 1, m_max + 2, e_max);
    let count: usize = queries.len();
    let mut done: usize = 0;
    while done < count
        invariant
            0 <= done <= count,
            count == queries@.len(),
            fit_for_gradient(queries@, v@.len() as int, k as int, m_max as int, e_max as int),
            queries@.len() > 0 ==> n > 0,
            k + 1 <= usize::MAX,
            m_max + 2 <= usize::MAX,
            ip.buffer@.len() == (k + 1) * (m_max + 2),
            rp.buffer@.len() == (k + 1) * (m_max + 2),
            sums@.len() == v@.len(),
            forall|id: int|
                0 <= id < sums@.len() ==> #[trigger] sums@[id] == gradient_sum(
                    queries@,
                    v@,
                    k as int,
                    n as int,
                    id,
                    done as int,
                ),
        decreases count - done,
    {
        let query: &Retrieval = &queries[done];
        let num_retrieved: usize = query.retrieved.len();
        let p: Vec<Fixed> = query.existence_probabilities(v.as_slice());
        let distinct: Vec<Fixed> = distinct_utilities(query.utility_contributions.as_slice());
        let needed: usize = cells(k + 1, num_retrieved + 2, distinct.len());
        if b.buffer.len() < needed {
            b = DenseTensor::new(k + 1, num_retrieved + 2, distinct.len());
        }
        proof {
            lemma_table_fits(k as int, num_retrieved as int, m_max as int);
        }
        let s: Vec<Fixed> = gradient_for_distinct(
            query.utility_contributions.as_slice(),
            &distinct,
            p.as_slice(),
            k,
            n,
            &mut ip,
            &mut rp,
            &mut b,
        );
        proof {
            let counted = total_retrieved(queries@, done as int);
            lemma_total_retrieved_grows(queries@, done as int, done + 1);
            lemma_total_retrieved_grows(queries@, done + 1, count as int);
            assert forall|id: int| 0 <= id < sums@.len() implies -(counted * raw_limit())
                <= #[trigger] sums@[id] <= counted * raw_limit() by {
                lemma_gradient_sum_bound(queries@, v@, k as int, n as int, id, done as int);
            }
        }
        scatter_add(&mut sums, &query.retrieved, &s, Ghost(total_retrieved(queries@, done as int)));
        done += 1;
    }
    proof {
        assert forall|id: int| 0 <= id < sums@.len() implies sums@[id] == wide_gradient_of(
            queries@,
            v@,
            k as int,
            n as int,
        )[id] by {
            lemma_gradient_sum_bound(queries@, v@, k as int, n as int, id, count as int);
            lemma_wide_holds(total_retrieved(queries@, count as int), usize::MAX as int);
        }
    }
    sums
}

/// A table for a query of `m` items fits where one for `m_max` items fits.
pub proof fn lemma_table_fits(k: int, m: int, m_max: int)
    requires
        0 <= k,
        0 <= m <= m_max,
    ensures
        (k + 1) * (m + 2) <= (k + 1) * (m_max + 2),
{
    assert((k + 1) * (m + 2) <= (k + 1) * (m_max + 2)) by (nonlinear_arith)
        requires
            0 <= k,
            0 <= m <= m_max,
    ;
}

/// Brings each exact sum into the range of [`Fixed`].
fn narrowed(sums: &Vec<i128>) -> (g: Vec<Fixed>)
    ensures
        g@.len() == sums@.len(),
        forall|id: int| 0 <= id < sums@.len() ==> (#[trigger] g@[id]).raw == saturate(sums@[id] as int),
{
    let mut g: Vec<Fixed> = Vec::with_capacity(sums.len());
    let mut id: usize = 0;
    while id < sums.len()
        invariant
            0 <= id <= sums@.len(),
            g@.len() == id,
            forall|j: int| 0 <= j < id ==> (#[trigger] g@[j]).raw == saturate(sums@[j] as int),
        decreases sums@.len() - id,
    {
        g.push(Fixed::from_wide(sums[id]));
        id += 1;
    }
    g
}

/// The gradient of the expected utility with respect to the existence probabilities
/// `v`, summed over the queries one after the other.
pub fn mle_importance_gradient(
    d_val: &Vec<Retrieval>,
    v: &Vec<Fixed>,
    k: usize,
    max_distinct_retrieved: usize,
    max_distinct_utility_contributions: usize,
    n: usize,
) -> (g: Vec<Fixed>)
    requires
        fit_for_gradient(
            d_val@,
            v@.len() as int,
            k as int,
            max_distinct_retrieved as int,
            max_distinct_utility_contributions as int,
        ),
        d_val@.len() > 0 ==> n > 0,
    ensures
        g@ == gradient_of(d_val@, v@, k as int, n as int),
{
    let sums: Vec<i128> = accumulate_gradient(
        d_val.as_slice(),
        v,
        k,
        max_distinct_retrieved,
        max_distinct_utility_contributions,
        n,
    );
    let g: Vec<Fixed> = narrowed(&sums);
    proof {
        assert forall|id: int| 0 <= id < g@.len() implies g@[id] == gradient_of(
            d_val@,
            v@,
            k as int,
            n as int,
        )[id] by {
            lemma_gradient_sum_bound(d_val@, v@, k as int, n as int, id, d_val@.len() as int);
            lemma_wide_holds(total_retrieved(d_val@, d_val@.len() as int), usize::MAX as int);
        }
    }
    g
}

/// The number of chunks of `chunk_size` queries that `len` queries fall into.
pub open spec fn chunk_count(len: int, chunk_size: int) -> int {
    (len + chunk_size - 1) / chunk_size
}

/// Where chunk `c` ends: `chunk_size` queries after its start, or with the last query.
pub open spec fn chunk_end(len: int, chunk_size: int, c: int) -> int {
    if (c + 1) * chunk_size <= len {
        (c + 1) * chunk_size
    } else {
        len
    }
}

/// The queries of chunk `c`.
pub open spec fn chunk_of(queries: Seq<Retrieval>, chunk_size: int, c: int) -> Seq<Retrieval> {
    queries.subrange(c * chunk_size, chunk_end(queries.len() as int, chunk_size, c))
}

/// Hands the queries in chunks of `chunk_size` to the workers of rayon's pool, each of
/// which sums the contributions of its chunk with [`accumulate_gradient`].
///
/// Calls `par_chunks` of `rayon::slice::ParallelSlice`, then `map` and `collect` of
/// `rayon::iter::ParallelIterator`. Believed of them: the chunks are those of
/// `chunk_size` queries each in the order of the slice, the last one shorter where the
/// length is no multiple, and the collected vector holds for each chunk, in that
/// order, what the closure returned for it. That each chunk meets what
/// [`accumulate_gradient`] requires is [`lemma_chunk_fits`].
#[verifier::external_body]
fn chunk_sums(
    queries: &[Retrieval],
    chunk_size: usize,
    v: &Vec<Fixed>,
    k: usize,
    max_distinct_retrieved: usize,
    max_distinct_utility_contributions: usize,
    n: usize,
) -> (parts: Vec<Vec<i128>>)
    requires
        chunk_size > 0,
        fit_for_gradient(
            queries@,
            v@.len() as int,
            k as int,
            max_distinct_retrieved as int,
            max_distinct_utility_contributions as int,
        ),
        queries@.len() > 0 ==> n > 0,
    ensures
        parts@.len() == chunk_count(queries@.len() as int, chunk_size as int),
        forall|c: int|
            0 <= c < parts@.len() ==> (#[trigger] parts@[c])@ == wide_gradient_of(
                chunk_of(queries@, chunk_size as int, c),
                v@,
                k as int,
                n as int,
            ),
{
    queries.par_chunks(chunk_size).map(
        |chunk| {
            accumulate_gradient(
                chunk,
                v,
                k,
                max_distinct_retrieved,
                max_distinct_utility_contributions,
                n,
            )
        },
    ).collect()
}

/// Every chunk but those behind the last starts before the end of the queries, and
/// the chunks reach that end.
pub proof fn lemma_chunks_cover(len: int, chunk_size: int, c: int)
    requires
        0 <= len,
        0 < chunk_size,
        0 <= c <= chunk_count(len, chunk_size),
    ensures
        0 <= c * chunk_size,
        c < chunk_count(len, chunk_size) ==> c * chunk_size < len,
        c == chunk_count(len, chunk_size) ==> c * chunk_size >= len,
        (c + 1) * chunk_size == c * chunk_size + chunk_size,
{
    let count = chunk_count(len, chunk_size);
    let padded = len + chunk_size - 1;
    assert(padded == chunk_size * (padded / chunk_size) + padded % chunk_size && 0 <= padded
        % chunk_size < chunk_size) by (nonlinear_arith)
        requires
            0 < chunk_size,
            0 <= padded,
    ;
    assert(0 <= c * chunk_size && (c + 1) * chunk_size == c * chunk_size + chunk_size)
        by (nonlinear_arith)
        requires
            0 <= c,
            0 < chunk_size,
    ;
    if c < count {
        assert(c * chunk_size + chunk_size <= chunk_size * count) by (nonlinear_arith)
            requires
                c + 1 <= count,
                0 < chunk_size,
        ;
    } else {
        assert(c * chunk_size == chunk_size * count) by (nonlinear_arith)
            requires
                c == count,
        ;
    }
}

/// The retrieved positions of a run of queries are those up to its end less those
/// up to its start.
pub proof fn lemma_total_retrieved_splits(queries: Seq<Retrieval>, from: int, to: int)
    requires
        0 <= from <= to <= queries.len(),
    ensures
        total_retrieved(queries, to) == total_retrieved(queries, from) + total_retrieved(
            queries.subrange(from, to),
            to - from,
        ),
    decreases to,
{
    if from < to {
        lemma_total_retrieved_splits(queries, from, to - 1);
        lemma_total_retrieved_of_prefix(queries.subrange(from, to), queries.subrange(from, to - 1), to - from - 1);
    }
}

/// The retrieved positions of the first `count` queries depend on those queries alone.
pub proof fn lemma_total_retrieved_of_prefix(longer: Seq<Retrieval>, shorter: Seq<Retrieval>, count: int)
    requires
        0 <= count <= shorter.len() <= longer.len(),
        forall|i: int| 0 <= i < count ==> longer[i] == shorter[i],
    ensures
        total_retrieved(longer, count) == total_retrieved(shorter, count),
    decreases count,
{
    if count > 0 {
        lemma_total_retrieved_of_prefix(longer, shorter, count - 1);
    }
}

/// The gradient sum of the first `count` queries depends on those queries alone.
pub proof fn lemma_gradient_sum_of_prefix(
    longer: Seq<Retrieval>,
    shorter: Seq<Retrieval>,
    v: Seq<Fixed>,
    k: int,
    n: int,
    id: int,
    count: int,
)
    requires
        0 <= count <= shorter.len() <= longer.len(),
        forall|i: int| 0 <= i < count ==> longer[i] == shorter[i],
    ensures
        gradient_sum(longer, v, k, n, id, count) == gradient_sum(shorter, v, k, n, id, count),
    decreases count,
{
    if count > 0 {
        lemma_gradient_sum_of_prefix(longer, shorter, v, k, n, id, count - 1);
    }
}

/// What the queries up to `to` add to a gradient is what those up to `from` add and
/// what the run from `from` to `to` adds.
pub proof fn lemma_gradient_sum_splits(
    queries: Seq<Retrieval>,
    v: Seq<Fixed>,
    k: int,
    n: int,
    id: int,
    from: int,
    to: int,
)
    requires
        0 <= from <= to <= queries.len(),
    ensures
        gradient_sum(queries, v, k, n, id, to) == gradient_sum(queries, v, k, n, id, from)
            + gradient_sum(queries.subrange(from, to), v, k, n, id, to - from),
    decreases to,
{
    if from < to {
        lemma_gradient_sum_splits(queries, v, k, n, id, from, to - 1);
        lemma_gradient_sum_of_prefix(
            queries.subrange(from, to),
            queries.subrange(from, to - 1),
            v,
            k,
            n,
            id,
            to - from - 1,
        );
    }
}

/// What the first `chunks` chunks of the queries add, each summed by itself, to the
/// gradient of the item `id`.
pub open spec fn sum_of_chunks(
    queries: Seq<Retrieval>,
    v: Seq<Fixed>,
    k: int,
    n: int,
    id: int,
    chunk_size: int,
    chunks: int,
) -> int
    decreases chunks,
{
    if chunks <= 0 {
        0
    } else {
        let chunk = chunk_of(queries, chunk_size, chunks - 1);
        sum_of_chunks(queries, v, k, n, id, chunk_size, chunks - 1) + gradient_sum(
            chunk,
            v,
            k,
            n,
            id,
            chunk.len() as int,
        )
    }
}

/// The sums of the first chunks add up to the sum of the queries in them.
pub proof fn lemma_chunks_sum_to_prefix(
    queries: Seq<Retrieval>,
    v: Seq<Fixed>,
    k: int,
    n: int,
    id: int,
    chunk_size: int,
    chunks: int,
)
    requires
        0 < chunk_size,
        0 <= chunks <= chunk_count(queries.len() as int, chunk_size),
    ensures
        sum_of_chunks(queries, v, k, n, id, chunk_size, chunks) == gradient_sum(
            queries,
            v,
            k,
            n,
            id,
            if chunks == 0 {
                0
            } else {
                chunk_end(queries.len() as int, chunk_size, chunks - 1)
            },
        ),
    decreases chunks,
{
    if chunks > 0 {
        let len = queries.len() as int;
        lemma_chunks_sum_to_prefix(queries, v, k, n, id, chunk_size, chunks - 1);
        lemma_chunks_cover(len, chunk_size, chunks - 1);
        if chunks > 1 {
            lemma_chunks_cover(len, chunk_size, chunks - 2);
        }
        let from = (chunks - 1) * chunk_size;
        let to = chunk_end(len, chunk_size, chunks - 1);
        lemma_gradient_sum_splits(queries, v, k, n, id, from, to);
    }
}

/// The law of the parallel reduction: however many queries go into a chunk, the
/// chunks, each summed by itself and then added up, give for every item the sum
/// over the queries taken one after the other.
pub proof fn lemma_chunks_sum_to_whole(
    queries: Seq<Retrieval>,
    v: Seq<Fixed>,
    k: int,
    n: int,
    id: int,
    chunk_size: int,
)
    requires
        0 < chunk_size,
    ensures
        sum_of_chunks(
            queries,
            v,
            k,
            n,
            id,
            chunk_size,
            chunk_count(queries.len() as int, chunk_size),
        ) == gradient_sum(queries, v, k, n, id, queries.len() as int),
{
    let len = queries.len() as int;
    let chunks = chunk_count(len, chunk_size);
    assert(0 <= chunks) by (nonlinear_arith)
        requires
            chunks == (len + chunk_size - 1) / chunk_size,
            0 <= len,
            0 < chunk_size,
    ;
    lemma_chunks_sum_to_prefix(queries, v, k, n, id, chunk_size, chunks);
    lemma_chunks_cover(len, chunk_size, chunks);
    if chunks > 0 {
        lemma_chunks_cover(len, chunk_size, chunks - 1);
    }
}

/// What suits the queries suits each chunk of them.
pub proof fn lemma_chunk_fits(
    queries: Seq<Retrieval>,
    corpus_size: int,
    k: int,
    m_max: int,
    e_max: int,
    chunk_size: int,
    c: int,
)
    requires
        fit_for_gradient(queries, corpus_size, k, m_max, e_max),
        0 < chunk_size,
        0 <= c < chunk_count(queries.len() as int, chunk_size),
    ensures
        fit_for_gradient(chunk_of(queries, chunk_size, c), corpus_size, k, m_max, e_max),
        chunk_of(queries, chunk_size, c).len() > 0,
{
    let len = queries.len() as int;
    lemma_chunks_cover(len, chunk_size, c);
    let from = c * chunk_size;
    let to = chunk_end(len, chunk_size, c);
    let chunk = chunk_of(queries, chunk_size, c);
    lemma_total_retrieved_splits(queries, from, to);
    lemma_total_retrieved_grows(queries, 0, from);
    lemma_total_retrieved_grows(queries, to, len);
}

/// Adds the sums of one chunk to the sums of the chunks before it.
fn add_sums(sums: &mut Vec<i128>, part: &Vec<i128>)
    requires
        part@.len() == old(sums)@.len(),
        forall|id: int|
            0 <= id < part@.len() ==> i128::MIN <= #[trigger] old(sums)@[id] + part@[id]
                <= i128::MAX,
    ensures
        final(sums)@.len() == old(sums)@.len(),
        forall|id: int|
            0 <= id < part@.len() ==> #[trigger] final(sums)@[id] == old(sums)@[id] + part@[id],
{
    let mut id: usize = 0;
    while id < part.len()
        invariant
            0 <= id <= part@.len(),
            part@.len() == sums@.len(),
            sums@.len() == old(sums)@.len(),
            forall|j: int|
                0 <= j < part@.len() ==> i128::MIN <= #[trigger] old(sums)@[j] + part@[j]
                    <= i128::MAX,
            forall|j: int| 0 <= j < id ==> #[trigger] sums@[j] == old(sums)@[j] + part@[j],
            forall|j: int| id <= j < part@.len() ==> #[trigger] sums@[j] == old(sums)@[j],
        decreases part@.len() - id,
    {
        let sum: i128 = sums[id] + part[id];
        sums[id] = sum;
        id += 1;
    }
}

/// The gradient of the expected utility with respect to the existence probabilities
/// `v`, with the queries split into `n_jobs` chunks that are summed side by side.
///
/// Each chunk is summed exactly, so the result is that of
/// [`mle_importance_gradient`] whatever the number of chunks.
pub fn mle_importance_gradient_parallel(
    d_val: &Vec<Retrieval>,
    v: &Vec<Fixed>,
    k: usize,
    max_distinct_retrieved: usize,
    max_distinct_utility_contributions: usize,
    n: usize,
    n_jobs: usize,
) -> (g: Vec<Fixed>)
    requires
        fit_for_gradient(
            d_val@,
            v@.len() as int,
            k as int,
            max_distinct_retrieved as int,
            max_distinct_utility_contributions as int,
        ),
        d_val@.len() > 0 ==> n > 0,
        n_jobs > 0,
    ensures
        g@ == gradient_of(d_val@, v@, k as int, n as int),
{
    let len: usize = d_val.len();
    let mut sums: Vec<i128> = empty_sums(v.len());
    if len > 0 {
        let chunk_size: usize = (len - 1) / n_jobs + 1;
        let parts: Vec<Vec<i128>> = chunk_sums(
            d_val.as_slice(),
            chunk_size,
            v,
            k,
            max_distinct_retrieved,
            max_distinct_utility_contributions,
            n,
        );
        let ghost queries = d_val@;
        proof {
            assert(0 <= (len + chunk_size - 1) / (chunk_size as int)) by (nonlinear_arith)
                requires
                    0 < len,
                    0 < chunk_size,
            ;
            lemma_chunks_cover(len as int, chunk_size as int, 0);
        }
        let mut c: usize = 0;
        let mut start: usize = 0;
        while c < parts.len()
            invariant
                0 <= c <= parts@.len(),
                queries == d_val@,
                len == queries.len(),
                chunk_size > 0,
                parts@.len() == chunk_count(len as int, chunk_size as int),
                forall|cc: int|
                    0 <= cc < parts@.len() ==> (#[trigger] parts@[cc])@ == wide_gradient_of(
                        chunk_of(queries, chunk_size as int, cc),
                        v@,
                        k as int,
                        n as int,
                    ),
                total_retrieved(queries, len as int) <= usize::MAX,
                start <= len,
                c < parts@.len() ==> start == c * chunk_size,
                c == parts@.len() ==> start == len,
                sums@.len() == v@.len(),
                forall|id: int|
                    0 <= id < sums@.len() ==> #[trigger] sums@[id] == gradient_sum(
                        queries,
                        v@,
                        k as int,
                        n as int,
                        id,
                        start as int,
                    ),
            decreases parts@.len() - c,
        {
            let part: &Vec<i128> = &parts[c];
            let ghost end = chunk_end(len as int, chunk_size as int, c as int);
            proof {
                lemma_chunks_cover(len as int, chunk_size as int, c as int);
                lemma_chunks_cover(len as int, chunk_size as int, c + 1);
                let chunk = chunk_of(queries, chunk_size as int, c as int);
                lemma_total_retrieved_splits(queries, start as int, end);
                lemma_total_retrieved_grows(queries, 0, start as int);
                lemma_total_retrieved_grows(queries, end, len as int);
                lemma_total_retrieved_grows(chunk, 0, end - start);
                assert forall|id: int| 0 <= id < part@.len() implies i128::MIN
                    <= #[trigger] sums@[id] + part@[id] <= i128::MAX && sums@[id] + part@[id]
                    == gradient_sum(queries, v@, k as int, n as int, id, end) by {
                    lemma_gradient_sum_splits(queries, v@, k as int, n as int, id, start as int, end);
                    lemma_gradient_sum_bound(chunk, v@, k as int, n as int, id, end - start);
                    lemma_wide_holds(total_retrieved(chunk, end - start), usize::MAX as int);
                    lemma_gradient_sum_bound(queries, v@, k as int, n as int, id, end);
                    lemma_wide_holds(total_retrieved(queries, end), usize::MAX as int);
                    assert(part@[id] == gradient_sum(
                        chunk,
                        v@,
                        k as int,
                        n as int,
                        id,
                        end - start,
                    ));
                }
            }
            add_sums(&mut sums, part);
            start = if len - start <= chunk_size {
                len
            } else {
                start + chunk_size
            };
            c += 1;
        }
    }
    narrowed(&sums)
}

} // verus!
