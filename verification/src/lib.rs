//! Importance weights for the items of a retrieval corpus, learned by projected
//! gradient ascent on the expected utility of a top-k retrieval.
//!
//! Every item of the corpus has an existence probability. A validation query is a
//! ranked list of retrieved items with the utility of each; treating every item as
//! present with its probability, the expected utility of the first `k` present items
//! has a closed form, and [`mle::mle_importance`] climbs it.
//!
//! All real-valued quantities are held as [`fixed::Fixed`], a decimal fixed-point
//! number with saturating arithmetic: every table entry, gradient and weight is an
//! exact function of the inputs, the sums over the queries are exact whatever the
//! order, and the result does not depend on the number of workers.
//!
//! - [`fixed`]: the numbers.
//! - [`mle::tensors`]: dense tables over reusable buffers.
//! - [`mle::prob`]: the probability tables of one query; [`mle::bounds`],
//!   [`mle::accuracy`] and [`mle::reuse`] hold what is proved of them.
//! - [`mle::gradient`]: what one query contributes to the gradient.
//! - [`mle::reduction`]: the gradient over all queries, in one run or in chunks.
//! - [`mle`]: the epochs of ascent, clipping and group projection.
//! - [`indexing`] and [`adapters`]: from strings to ids, from questions and named
//!   groups to retrievals and groupings.

pub mod adapters;
pub mod fixed;
pub mod indexing;
pub mod mle;

use vstd::prelude::*;
use crate::fixed::{all_probabilities, Fixed};
use crate::mle::reduction::fit_for_gradient;
use crate::mle::types::{all_below, Grouping, Retrieval};
use crate::mle::{
    count_unique,
    learned,
    suits_importance,
    mle_importance,
    most_retrieved,
    most_utilities,
};

verus! {

/// The largest id retrieved by any of the first `count` queries; zero if none
/// retrieves anything.
pub open spec fn largest_id(retrievals: Seq<Retrieval>, count: int) -> int
    decreases count,
{
    if count <= 0 {
        0
    } else {
        let before = largest_id(retrievals, count - 1);
        let here = largest_of(
            retrievals[count - 1].retrieved@,
            retrievals[count - 1].retrieved@.len() as int,
        );
        if here > before {
            here
        } else {
            before
        }
    }
}

/// The largest of the first `count` ids; zero if there is none.
pub open spec fn largest_of(ids: Seq<usize>, count: int) -> int
    decreases count,
{
    if count <= 0 {
        0
    } else {
        let before = largest_of(ids, count - 1);
        if ids[count - 1] > before {
            ids[count - 1] as int
        } else {
            before
        }
    }
}

/// The number of workers asked for: one where nothing is asked, as many as there are
/// processors where less than one is asked.
pub open spec fn jobs_for(n_jobs: Option<isize>, cpus: usize) -> usize {
    match n_jobs {
        Some(n) => if n < 1 {
            cpus
        } else {
            n as usize
        },
        None => 1,
    }
}

/// The number of processors that this process may use.
///
/// Calls `num_cpus::get`. It depends on the machine, so nothing is believed of the
/// number.
#[verifier::external_body]
fn available_cpus() -> (cpus: usize) {
    num_cpus::get()
}

/// Decides the number of workers from what was asked and from the number of processors.
pub fn decode_n_jobs(n_jobs: Option<isize>, cpus: usize) -> (jobs: usize)
    ensures
        jobs == jobs_for(n_jobs, cpus),
{
    match n_jobs {
        Some(n) => {
            if n < 1 {
                cpus
            } else {
                n as usize
            }
        },
        None => 1,
    }
}

/// The largest id that any of the queries retrieves.
pub fn largest_retrieved(retrievals: &Vec<Retrieval>) -> (largest: usize)
    ensures
        largest == largest_id(retrievals@, retrievals@.len() as int),
        forall|i: int, j: int|
            0 <= i < retrievals@.len() && 0 <= j < retrievals@[i].retrieved@.len()
                ==> #[trigger] retrievals@[i].retrieved@[j] <= largest,
{
    let mut largest: usize = 0;
    let mut i: usize = 0;
    while i < retrievals.len()
        invariant
            0 <= i <= retrievals@.len(),
            largest == largest_id(retrievals@, i as int),
            forall|s: int, j: int|
                0 <= s < i && 0 <= j < retrievals@[s].retrieved@.len()
                    ==> #[trigger] retrievals@[s].retrieved@[j] <= largest,
        decreases retrievals@.len() - i,
    {
        let ids: &Vec<usize> = &retrievals[i].retrieved;
        let mut here: usize = 0;
        let mut j: usize = 0;
        while j < ids.len()
            invariant
                0 <= j <= ids@.len(),
                here == largest_of(ids@, j as int),
                forall|t: int| 0 <= t < j ==> #[trigger] ids@[t] <= here,
            decreases ids@.len() - j,
        {
            if ids[j] > here {
                here = ids[j];
            }
            j += 1;
        }
        if here > largest {
            largest = here;
        }
        i += 1;
    }
    largest
}

/// What [`learn_importance`] asks of its inputs: the corpus, which reaches up to the
/// largest retrieved id, and the queries fit the estimation, and a grouping assigns
/// every item of that corpus to a group numbered below the number of different groups.
pub open spec fn fit_for_learning(
    retrievals: Seq<Retrieval>,
    k: int,
    grouping: Option<Seq<usize>>,
) -> bool {
    let corpus_size = largest_id(retrievals, retrievals.len() as int) + 1;
    &&& corpus_size <= usize::MAX
    &&& fit_for_gradient(
        retrievals,
        corpus_size,
        k,
        most_retrieved(retrievals, retrievals.len() as int),
        most_utilities(retrievals, retrievals.len() as int),
    )
    &&& match grouping {
        Some(a) => a.len() == corpus_size && forall|i: int|
            0 <= i < a.len() ==> #[trigger] a[i] < a.to_set().len(),
        None => true,
    }
}

/// Whether the queries and the group ids are fit to learn from: the test of what
/// [`learn_importance`] requires.
pub fn suits_learning(retrievals: &Vec<Retrieval>, k: usize, grouping: &Option<Vec<usize>>) -> (ok:
    bool)
    ensures
        ok == fit_for_learning(
            retrievals@,
            k as int,
            match grouping {
                Some(a) => Some(a@),
                None => None,
            },
        ),
{
    broadcast use vstd::std_specs::hash::group_hash_axioms;

    let corpus_size: usize = match largest_retrieved(retrievals).checked_add(1) {
        Some(corpus_size) => corpus_size,
        None => {
            return false;
        },
    };
    if !suits_importance(retrievals, corpus_size, None, k) {
        return false;
    }
    match grouping {
        Some(assignments) => {
            if assignments.len() != corpus_size {
                return false;
            }
            let num_groups: usize = count_unique(assignments);
            all_below(assignments, num_groups)
        },
        None => true,
    }
}

/// The existence probabilities learned from the queries for a corpus that reaches
/// up to the largest retrieved id, with one group for each different id in
/// `grouping` where one is given.
///
/// `n_jobs` below one asks for as many workers as there are processors; the result
/// does not depend on it.
pub fn learn_importance(
    retrievals: Vec<Retrieval>,
    k: usize,
    learning_rate: Fixed,
    num_epochs: usize,
    n_jobs: Option<isize>,
    grouping: Option<Vec<usize>>,
) -> (v: Vec<Fixed>)
    requires
        fit_for_learning(
            retrievals@,
            k as int,
            match grouping {
                Some(a) => Some(a@),
                None => None,
            },
        ),
    ensures
        v@ == learned(
            retrievals@,
            largest_id(retrievals@, retrievals@.len() as int) + 1,
            match grouping {
                Some(a) => Some(a@),
                None => None,
            },
            k as int,
            learning_rate,
            num_epochs as int,
        ),
        all_probabilities(v@),
{
    broadcast use vstd::std_specs::hash::group_hash_axioms;

    let corpus_size: usize = largest_retrieved(&retrievals) + 1;
    let decoded_n_jobs: usize = decode_n_jobs(n_jobs, available_cpus());
    match grouping {
        Some(group_assignments) => {
            let num_groups: usize = count_unique(&group_assignments);
            let decoded_grouping: Grouping = Grouping::new(num_groups, group_assignments);
            mle_importance(
                retrievals,
                corpus_size,
                Some(&decoded_grouping),
                k,
                learning_rate,
                num_epochs,
                decoded_n_jobs,
            )
        },
        None => {
            mle_importance(
                retrievals,
                corpus_size,
                None,
                k,
                learning_rate,
                num_epochs,
                decoded_n_jobs,
            )
        },
    }
}

} // verus!
