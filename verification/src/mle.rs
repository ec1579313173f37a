//! Maximum-likelihood estimation of the existence probabilities.

pub mod accuracy;
pub mod bounds;
pub mod gradient;
pub mod prob;
pub mod reduction;
pub mod reuse;
pub mod tensors;
pub mod types;

use vstd::prelude::*;
use itertools::Itertools;
use crate::fixed::{all_probabilities, saturate, trunc_div, Fixed, SCALE};
use crate::mle::reduction::{
    fit_for_gradient,
    suits_gradient,
    gradient_of,
    lemma_wide_holds,
    mle_importance_gradient,
    mle_importance_gradient_parallel,
    raw_limit,
};
use crate::mle::gradient::{distinct_values, lemma_distinct_values_are_distinct};
use crate::mle::tensors::filled;
use crate::mle::types::{Grouping, Retrieval};

verus! {

/// The largest number of retrieved items among the first `count` queries.
pub open spec fn most_retrieved(queries: Seq<Retrieval>, count: int) -> int
    decreases count,
{
    if count <= 0 {
        0
    } else {
        let before = most_retrieved(queries, count - 1);
        let here = queries[count - 1].retrieved@.len() as int;
        if here > before {
            here
        } else {
            before
        }
    }
}

/// The utilities in hundredths, each rounded toward zero.
pub open spec fn hundredths_of(utilities: Seq<Fixed>) -> Seq<i64> {
    Seq::new(utilities.len(), |i: int| utilities[i].hundredths_spec() as i64)
}

/// The largest number, among the first `count` queries, of utilities that differ in
/// their hundredths.
pub open spec fn most_utilities(queries: Seq<Retrieval>, count: int) -> int
    decreases count,
{
    if count <= 0 {
        0
    } else {
        let before = most_utilities(queries, count - 1);
        let here = hundredths_of(queries[count - 1].utility_contributions@).to_set().len() as int;
        if here > before {
            here
        } else {
            before
        }
    }
}

/// Utilities that differ in their hundredths differ: counting the hundredths never
/// finds more utilities than a query has distinct ones, so tables made for that
/// count are at most too small, never too large.
pub proof fn lemma_hundredths_do_not_inflate(utilities: Seq<Fixed>)
    ensures
        hundredths_of(utilities).to_set().len() <= distinct_values(utilities).len(),
{
    let cut = |x: Fixed| x.hundredths_spec() as i64;
    assert(hundredths_of(utilities) =~= utilities.map_values(cut));
    utilities.lemma_to_set_map_commutes(cut);
    vstd::seq_lib::seq_to_set_is_finite(utilities);
    vstd::set_lib::lemma_map_size_bound(utilities.to_set(), hundredths_of(utilities).to_set(), cut);
    lemma_distinct_values_are_distinct(utilities);
    distinct_values(utilities).unique_seq_to_set();
}

/// The number of different values among `values`.
///
/// Calls `unique` of `itertools::Itertools` and counts what it yields. Believed of
/// it: it yields each value once, however often it occurs, where hashing and
/// equality of the values agree with their identity.
#[verifier::external_body]
pub(crate) fn count_unique<T: Eq + core::hash::Hash + Clone>(values: &Vec<T>) -> (count: usize)
    ensures
        vstd::std_specs::hash::obeys_key_model::<T>() ==> count == values@.to_set().len(),
{
    values.iter().unique().count()
}

/// The largest number of items that any query retrieves; zero without queries.
pub fn max_distinct_retrieved(retrievals: &[Retrieval]) -> (most: usize)
    ensures
        most == most_retrieved(retrievals@, retrievals@.len() as int),
{
    let mut most: usize = 0;
    let mut i: usize = 0;
    while i < retrievals.len()
        invariant
            0 <= i <= retrievals@.len(),
            most == most_retrieved(retrievals@, i as int),
        decreases retrievals@.len() - i,
    {
        let here: usize = retrievals[i].retrieved.len();
        if here > most {
            most = here;
        }
        i += 1;
    }
    most
}

/// The largest number, over the queries, of utilities that differ in their
/// hundredths; zero without queries.
pub fn max_distinct_utility_contributions(retrievals: &[Retrieval]) -> (most: usize)
    ensures
        most == most_utilities(retrievals@, retrievals@.len() as int),
{
    broadcast use vstd::std_specs::hash::group_hash_axioms;

    let mut most: usize = 0;
    let mut i: usize = 0;
    while i < retrievals.len()
        invariant
            0 <= i <= retrievals@.len(),
            most == most_utilities(retrievals@, i as int),
        decreases retrievals@.len() - i,
    {
        let utilities: &Vec<Fixed> = &retrievals[i].utility_contributions;
        let mut hundredths: Vec<i64> = Vec::with_capacity(utilities.len());
        let mut j: usize = 0;
        while j < utilities.len()
            invariant
                0 <= j <= utilities@.len(),
                hundredths@.len() == j,
                forall|t: int|
                    0 <= t < j ==> hundredths@[t] == utilities@[t].hundredths_spec() as i64,
            decreases utilities@.len() - j,
        {
            hundredths.push(utilities[j].hundredths());
            j += 1;
        }
        assert(hundredths@ =~= hundredths_of(utilities@));
        let here: usize = count_unique(&hundredths);
        if here > most {
            most = here;
        }
        i += 1;
    }
    most
}

/// The raw sum of the values of those of the first `count` items that belong to `group`.
pub open spec fn group_total(v: Seq<Fixed>, assignments: Seq<usize>, group: int, count: int) -> int
    decreases count,
{
    if count <= 0 {
        0
    } else {
        group_total(v, assignments, group, count - 1) + if assignments[count - 1] == group {
            v[count - 1].raw as int
        } else {
            0
        }
    }
}

/// How many of the first `count` items belong to `group`.
pub open spec fn group_size(assignments: Seq<usize>, group: int, count: int) -> int
    decreases count,
{
    if count <= 0 {
        0
    } else {
        group_size(assignments, group, count - 1) + if assignments[count - 1] == group {
            1int
        } else {
            0int
        }
    }
}

/// The mean of the values of the items of `group`, rounded toward zero; zero for a
/// group without items.
pub open spec fn group_mean(v: Seq<Fixed>, assignments: Seq<usize>, group: int) -> Fixed {
    let size = group_size(assignments, group, v.len() as int);
    if size == 0 {
        Fixed::zero_spec()
    } else {
        Fixed {
            raw: saturate(trunc_div(group_total(v, assignments, group, v.len() as int), size)) as i64,
        }
    }
}

/// The mean of every group.
pub open spec fn group_means(v: Seq<Fixed>, assignments: Seq<usize>, num_groups: int) -> Seq<Fixed> {
    Seq::new(num_groups as nat, |group: int| group_mean(v, assignments, group))
}

/// Every value replaced by the mean of its group.
pub open spec fn projected(v: Seq<Fixed>, assignments: Seq<usize>) -> Seq<Fixed> {
    Seq::new(v.len(), |i: int| group_mean(v, assignments, assignments[i] as int))
}

/// Every value moved along the gradient by the learning rate and brought back into
/// the interval from zero to one.
pub open spec fn stepped(v: Seq<Fixed>, g: Seq<Fixed>, learning_rate: Fixed) -> Seq<Fixed> {
    Seq::new(v.len(), |i: int| v[i].plus_spec(learning_rate.times_spec(g[i])).clip_spec())
}

/// The existence probabilities after one more epoch: a step along the gradient, the
/// clipping, and with a grouping the projection onto the group means.
pub open spec fn after_epoch(
    queries: Seq<Retrieval>,
    v: Seq<Fixed>,
    assignments: Option<Seq<usize>>,
    k: int,
    learning_rate: Fixed,
) -> Seq<Fixed> {
    let moved = stepped(v, gradient_of(queries, v, k, queries.len() as int), learning_rate);
    match assignments {
        Some(a) => projected(moved, a),
        None => moved,
    }
}

/// The existence probabilities after `epochs` epochs that start from one half for
/// every item.
pub open spec fn learned(
    queries: Seq<Retrieval>,
    corpus_size: int,
    assignments: Option<Seq<usize>>,
    k: int,
    learning_rate: Fixed,
    epochs: int,
) -> Seq<Fixed>
    decreases epochs,
{
    if epochs <= 0 {
        Seq::new(corpus_size as nat, |i: int| Fixed::half_spec())
    } else {
        after_epoch(
            queries,
            learned(queries, corpus_size, assignments, k, learning_rate, epochs - 1),
            assignments,
            k,
            learning_rate,
        )
    }
}

/// The assignments of a grouping, if there is one.
pub open spec fn assignments_of(grouping: Option<&Grouping>) -> Option<Seq<usize>> {
    match grouping {
        Some(g) => Some(g.group_per_retrieved@),
        None => None,
    }
}

/// The items of one group have one value.
pub open spec fn constant_on_groups(v: Seq<Fixed>, assignments: Seq<usize>) -> bool {
    forall|i: int, j: int|
        0 <= i < v.len() && 0 <= j < v.len() && assignments[i] == assignments[j] ==> v[i] == v[j]
}

/// The total of a group lies within the number of items counted times the largest
/// magnitude, and a group has no more items than were counted.
pub proof fn lemma_group_total_bound(v: Seq<Fixed>, assignments: Seq<usize>, group: int, count: int)
    requires
        0 <= count,
    ensures
        0 <= group_size(assignments, group, count) <= count,
        -(count * raw_limit()) <= group_total(v, assignments, group, count) <= count * raw_limit(),
    decreases count,
{
    if count > 0 {
        lemma_group_total_bound(v, assignments, group, count - 1);
    } else {
        assert(count * raw_limit() == 0) by (nonlinear_arith)
            requires
                count == 0,
        ;
    }
}

/// The total of a group of probabilities lies between zero and the size of the group.
pub proof fn lemma_group_total_of_probabilities(
    v: Seq<Fixed>,
    assignments: Seq<usize>,
    group: int,
    count: int,
)
    requires
        0 <= count <= v.len(),
        all_probabilities(v),
    ensures
        0 <= group_total(v, assignments, group, count) <= group_size(assignments, group, count)
            * SCALE,
    decreases count,
{
    if count > 0 {
        lemma_group_total_of_probabilities(v, assignments, group, count - 1);
        let before = group_size(assignments, group, count - 1);
    } else {
        assert(group_size(assignments, group, count) * SCALE == 0) by (nonlinear_arith)
            requires
                group_size(assignments, group, count) == 0,
        ;
    }
}

/// The mean of a group of probabilities is a probability.
pub proof fn lemma_group_mean_of_probabilities(v: Seq<Fixed>, assignments: Seq<usize>, group: int)
    requires
        all_probabilities(v),
    ensures
        group_mean(v, assignments, group).is_probability(),
{
    let size = group_size(assignments, group, v.len() as int);
    let total = group_total(v, assignments, group, v.len() as int);
    lemma_group_total_of_probabilities(v, assignments, group, v.len() as int);
    lemma_group_total_bound(v, assignments, group, v.len() as int);
    if size != 0 {
        assert(0 <= total / size <= SCALE) by (nonlinear_arith)
            requires
                0 <= total <= size * SCALE,
                size > 0,
        ;
    }
}

/// A step along any gradient leaves probabilities.
pub proof fn lemma_stepped_are_probabilities(v: Seq<Fixed>, g: Seq<Fixed>, learning_rate: Fixed)
    ensures
        all_probabilities(stepped(v, g, learning_rate)),
{
}

/// The projection of probabilities onto the group means leaves probabilities, the
/// same for the items of one group.
pub proof fn lemma_projected_are_probabilities(v: Seq<Fixed>, assignments: Seq<usize>)
    requires
        all_probabilities(v),
    ensures
        all_probabilities(projected(v, assignments)),
        constant_on_groups(projected(v, assignments), assignments),
{
    assert forall|i: int| 0 <= i < v.len() implies (#[trigger] projected(
        v,
        assignments,
    )[i]).is_probability() by {
        lemma_group_mean_of_probabilities(v, assignments, assignments[i] as int);
    }
}

/// After any number of epochs every existence probability lies between zero and
/// one, and after at least one epoch with a grouping the items of one group share
/// one value.
pub proof fn lemma_learned_are_probabilities(
    queries: Seq<Retrieval>,
    corpus_size: int,
    assignments: Option<Seq<usize>>,
    k: int,
    learning_rate: Fixed,
    epochs: int,
)
    requires
        0 <= corpus_size,
    ensures
        learned(queries, corpus_size, assignments, k, learning_rate, epochs).len() == corpus_size,
        all_probabilities(learned(queries, corpus_size, assignments, k, learning_rate, epochs)),
        epochs > 0 ==> match assignments {
            Some(a) => constant_on_groups(
                learned(queries, corpus_size, assignments, k, learning_rate, epochs),
                a,
            ),
            None => true,
        },
    decreases epochs,
{
    if epochs > 0 {
        lemma_learned_are_probabilities(
            queries,
            corpus_size,
            assignments,
            k,
            learning_rate,
            epochs - 1,
        );
        let before = learned(queries, corpus_size, assignments, k, learning_rate, epochs - 1);
        let g = gradient_of(queries, before, k, queries.len() as int);
        lemma_stepped_are_probabilities(before, g, learning_rate);
        match assignments {
            Some(a) => {
                lemma_projected_are_probabilities(stepped(before, g, learning_rate), a);
            },
            None => {},
        }
    }
}

/// The mean of the values of each group, for a grouping of as many items as there
/// are values.
pub fn v_grouped(v: &[Fixed], grouping: &Grouping) -> (means: Vec<Fixed>)
    requires
        grouping.wf(),
        grouping.group_per_retrieved@.len() == v@.len(),
    ensures
        means@ == group_means(v@, grouping.group_per_retrieved@, grouping.num_groups as int),
{
    let ghost assignments = grouping.group_per_retrieved@;
    let num_groups: usize = grouping.num_groups;
    let mut group_sums: Vec<i128> = Vec::with_capacity(num_groups);
    let mut group_counts: Vec<usize> = Vec::with_capacity(num_groups);
    let mut group: usize = 0;
    while group < num_groups
        invariant
            0 <= group <= num_groups,
            group_sums@.len() == group,
            group_counts@.len() == group,
            forall|t: int| 0 <= t < group ==> group_sums@[t] == 0 && group_counts@[t] == 0,
        decreases num_groups - group,
    {
        group_sums.push(0);
        group_counts.push(0);
        group += 1;
    }
    let count: usize = v.len();
    let mut i: usize = 0;
    while i < count
        invariant
            0 <= i <= count,
            count == v@.len(),
            assignments == grouping.group_per_retrieved@,
            assignments.len() == v@.len(),
            num_groups == grouping.num_groups,
            grouping.wf(),
            group_sums@.len() == num_groups,
            group_counts@.len() == num_groups,
            forall|t: int|
                0 <= t < num_groups ==> #[trigger] group_sums@[t] == group_total(
                    v@,
                    assignments,
                    t,
                    i as int,
                ),
            forall|t: int|
                0 <= t < num_groups ==> #[trigger] group_counts@[t] == group_size(
                    assignments,
                    t,
                    i as int,
                ),
        decreases count - i,
    {
        let target: usize = grouping.group_per_retrieved[i];
        proof {
            lemma_group_total_bound(v@, assignments, target as int, i as int);
            lemma_group_total_bound(v@, assignments, target as int, i + 1);
            lemma_wide_holds(i + 1, usize::MAX as int);
        }
        let sum: i128 = group_sums[target] + v[i].raw() as i128;
        group_sums[target] = sum;
        let size: usize = group_counts[target] + 1;
        group_counts[target] = size;
        i += 1;
    }
    let mut means: Vec<Fixed> = Vec::with_capacity(num_groups);
    let mut group: usize = 0;
    while group < num_groups
        invariant
            0 <= group <= num_groups,
            count == v@.len(),
            group_sums@.len() == num_groups,
            group_counts@.len() == num_groups,
            forall|t: int|
                0 <= t < num_groups ==> #[trigger] group_sums@[t] == group_total(
                    v@,
                    assignments,
                    t,
                    count as int,
                ),
            forall|t: int|
                0 <= t < num_groups ==> #[trigger] group_counts@[t] == group_size(
                    assignments,
                    t,
                    count as int,
                ),
            means@.len() == group,
            forall|t: int| 0 <= t < group ==> means@[t] == group_mean(v@, assignments, t),
        decreases num_groups - group,
    {
        let size: usize = group_counts[group];
        let mean: Fixed = if size == 0 {
            Fixed::zero()
        } else {
            Fixed::from_wide(group_sums[group] / (size as i128))
        };
        means.push(mean);
        group += 1;
    }
    means
}

/// Replaces every value by the mean of its group.
pub fn adjust_for_groups(v: &mut Vec<Fixed>, grouping: &Grouping)
    requires
        grouping.wf(),
        grouping.group_per_retrieved@.len() == old(v)@.len(),
    ensures
        final(v)@ == projected(old(v)@, grouping.group_per_retrieved@),
        constant_on_groups(final(v)@, grouping.group_per_retrieved@),
{
    let means: Vec<Fixed> = v_grouped(v.as_slice(), grouping);
    let ghost assignments = grouping.group_per_retrieved@;
    let count: usize = v.len();
    let mut i: usize = 0;
    while i < count
        invariant
            0 <= i <= count,
            count == v@.len(),
            v@.len() == old(v)@.len(),
            assignments == grouping.group_per_retrieved@,
            assignments.len() == count,
            grouping.wf(),
            means@ == group_means(old(v)@, assignments, grouping.num_groups as int),
            forall|t: int|
                0 <= t < i ==> #[trigger] v@[t] == group_mean(
                    old(v)@,
                    assignments,
                    assignments[t] as int,
                ),
            forall|t: int| i <= t < count ==> v@[t] == old(v)@[t],
        decreases count - i,
    {
        let target: usize = grouping.group_per_retrieved[i];
        v[i] = means[target];
        i += 1;
    }
}

/// Moves every value along the gradient by the learning rate and clips it to the
/// interval from zero to one.
pub fn ascend(v: &mut Vec<Fixed>, g: &Vec<Fixed>, learning_rate: Fixed)
    requires
        g@.len() == old(v)@.len(),
    ensures
        final(v)@ == stepped(old(v)@, g@, learning_rate),
        all_probabilities(final(v)@),
{
    let count: usize = v.len();
    let mut i: usize = 0;
    while i < count
        invariant
            0 <= i <= count,
            count == v@.len(),
            v@.len() == old(v)@.len(),
            g@.len() == count,
            forall|t: int|
                0 <= t < i ==> #[trigger] v@[t] == old(v)@[t].plus_spec(
                    learning_rate.times_spec(g@[t]),
                ).clip_spec(),
            forall|t: int| i <= t < count ==> v@[t] == old(v)@[t],
        decreases count - i,
    {
        let moved: Fixed = v[i].plus(learning_rate.times(g[i])).clip();
        v[i] = moved;
        i += 1;
    }
}

/// Whether the grouping, if there is one, assigns each of `corpus_size` items to a
/// group that exists.
pub open spec fn grouping_fits(grouping: Option<&Grouping>, corpus_size: int) -> bool {
    match grouping {
        Some(g) => g.wf() && g.group_per_retrieved@.len() == corpus_size,
        None => true,
    }
}

/// Whether the queries and the grouping suit a corpus of `corpus_size` items: the
/// test of what [`mle_importance`] requires.
pub fn suits_importance(
    retrievals: &Vec<Retrieval>,
    corpus_size: usize,
    optional_grouping: Option<&Grouping>,
    k: usize,
) -> (ok: bool)
    ensures
        ok == (fit_for_gradient(
            retrievals@,
            corpus_size as int,
            k as int,
            most_retrieved(retrievals@, retrievals@.len() as int),
            most_utilities(retrievals@, retrievals@.len() as int),
        ) && grouping_fits(optional_grouping, corpus_size as int)),
{
    let grouping_suits: bool = match optional_grouping {
        Some(grouping) => grouping.suits(corpus_size),
        None => true,
    };
    grouping_suits && suits_gradient(
        retrievals.as_slice(),
        corpus_size,
        k,
        max_distinct_retrieved(retrievals.as_slice()),
        max_distinct_utility_contributions(retrievals.as_slice()),
    )
}

/// The existence probabilities of the `corpus_size` items of a corpus, learned from
/// the queries in `num_epochs` epochs of gradient ascent for the top `k`, each
/// followed by clipping and, with a grouping, by the projection onto the group means.
///
/// With `n_jobs` above one the gradient is summed in that many chunks side by side.
pub fn mle_importance(
    retrievals: Vec<Retrieval>,
    corpus_size: usize,
    optional_grouping: Option<&Grouping>,
    k: usize,
    learning_rate: Fixed,
    num_epochs: usize,
    n_jobs: usize,
) -> (v: Vec<Fixed>)
    requires
        fit_for_gradient(
            retrievals@,
            corpus_size as int,
            k as int,
            most_retrieved(retrievals@, retrievals@.len() as int),
            most_utilities(retrievals@, retrievals@.len() as int),
        ),
        grouping_fits(optional_grouping, corpus_size as int),
    ensures
        v@ == learned(
            retrievals@,
            corpus_size as int,
            assignments_of(optional_grouping),
            k as int,
            learning_rate,
            num_epochs as int,
        ),
        all_probabilities(v@),
        num_epochs > 0 ==> match optional_grouping {
            Some(g) => constant_on_groups(v@, g.group_per_retrieved@),
            None => true,
        },
{
    let mut v: Vec<Fixed> = filled(corpus_size, Fixed::half());
    let max_distinct_retrieved: usize = max_distinct_retrieved(retrievals.as_slice());
    let max_distinct_utility_contributions: usize = max_distinct_utility_contributions(
        retrievals.as_slice(),
    );
    let n: usize = retrievals.len();
    let ghost assignments = assignments_of(optional_grouping);
    let mut epoch: usize = 0;
    while epoch < num_epochs
        invariant
            0 <= epoch <= num_epochs,
            n == retrievals@.len(),
            assignments == assignments_of(optional_grouping),
            max_distinct_retrieved == most_retrieved(retrievals@, retrievals@.len() as int),
            max_distinct_utility_contributions == most_utilities(
                retrievals@,
                retrievals@.len() as int,
            ),
            fit_for_gradient(
                retrievals@,
                corpus_size as int,
                k as int,
                max_distinct_retrieved as int,
                max_distinct_utility_contributions as int,
            ),
            grouping_fits(optional_grouping, corpus_size as int),
            v@.len() == corpus_size,
            v@ == learned(
                retrievals@,
                corpus_size as int,
                assignments,
                k as int,
                learning_rate,
                epoch as int,
            ),
            all_probabilities(v@),
            epoch > 0 ==> match optional_grouping {
                Some(g) => constant_on_groups(v@, g.group_per_retrieved@),
                None => true,
            },
        decreases num_epochs - epoch,
    {
        let g: Vec<Fixed> = if n_jobs > 1 {
            mle_importance_gradient_parallel(
                &retrievals,
                &v,
                k,
                max_distinct_retrieved,
                max_distinct_utility_contributions,
                n,
                n_jobs,
            )
        } else {
            mle_importance_gradient(
                &retrievals,
                &v,
                k,
                max_distinct_retrieved,
                max_distinct_utility_contributions,
                n,
            )
        };
        ascend(&mut v, &g, learning_rate);
        match optional_grouping {
            Some(grouping) => {
                let ghost moved = v@;
                adjust_for_groups(&mut v, grouping);
                proof {
                    assert forall|i: int| 0 <= i < v@.len() implies (#[trigger] v@[i]).is_probability() by {
                        lemma_group_mean_of_probabilities(
                            moved,
                            grouping.group_per_retrieved@,
                            grouping.group_per_retrieved@[i] as int,
                        );
                    }
                }
            },
            None => {},
        }
        epoch += 1;
    }
    v
}

} // verus!
