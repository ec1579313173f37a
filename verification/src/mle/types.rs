//! The data that the estimation is run on.

use vstd::prelude::*;
use crate::fixed::Fixed;

verus! {

/// Whether every id is below `bound`.
pub fn all_below(ids: &Vec<usize>, bound: usize) -> (ok: bool)
    ensures
        ok == forall|i: int| 0 <= i < ids@.len() ==> #[trigger] ids@[i] < bound,
{
    let mut i: usize = 0;
    while i < ids.len()
        invariant
            0 <= i <= ids@.len(),
            forall|j: int| 0 <= j < i ==> #[trigger] ids@[j] < bound,
        decreases ids@.len() - i,
    {
        if ids[i] >= bound {
            return false;
        }
        i += 1;
    }
    true
}

/// An assignment of every corpus item to one of `num_groups` groups.
pub struct Grouping {
    pub num_groups: usize,
    pub group_per_retrieved: Vec<usize>,
}

impl Grouping {
    /// Every item is assigned to a group that exists.
    pub open spec fn wf(&self) -> bool {
        forall|i: int|
            0 <= i < self.group_per_retrieved@.len() ==> #[trigger] self.group_per_retrieved@[i]
                < self.num_groups
    }

    /// A grouping into `num_groups` groups with the given group of every item.
    pub fn new(num_groups: usize, group_per_retrieved: Vec<usize>) -> (grouping: Grouping)
        requires
            forall|i: int|
                0 <= i < group_per_retrieved@.len() ==> #[trigger] group_per_retrieved@[i]
                    < num_groups,
        ensures
            grouping.wf(),
            grouping.num_groups == num_groups,
            grouping.group_per_retrieved@ == group_per_retrieved@,
    {
        Grouping { num_groups, group_per_retrieved }
    }

    /// Whether the grouping assigns each of `corpus_size` items to a group that exists.
    pub fn suits(&self, corpus_size: usize) -> (ok: bool)
        ensures
            ok == (self.wf() && self.group_per_retrieved@.len() == corpus_size),
    {
        self.group_per_retrieved.len() == corpus_size && all_below(
            &self.group_per_retrieved,
            self.num_groups,
        )
    }

    /// The group of every item.
    pub fn group_assignments(&self) -> (assignments: &[usize])
        ensures
            assignments@ == self.group_per_retrieved@,
    {
        self.group_per_retrieved.as_slice()
    }
}

/// The ranked answer to one validation query: the ids of the retrieved corpus items
/// and, position by position, what each contributes to the utility.
#[derive(Debug, Clone)]
pub struct Retrieval {
    pub retrieved: Vec<usize>,
    pub utility_contributions: Vec<Fixed>,
}

/// The existence probabilities of the retrieved items, in their order.
pub open spec fn probabilities_of(retrieved: Seq<usize>, v: Seq<Fixed>) -> Seq<Fixed> {
    Seq::new(retrieved.len(), |i: int| v[retrieved[i] as int])
}

impl Retrieval {
    /// Every retrieved item has its utility contribution.
    pub open spec fn wf(&self) -> bool {
        self.retrieved@.len() == self.utility_contributions@.len()
    }

    /// Every retrieved id names an item of a corpus of `corpus_size` items.
    pub open spec fn within(&self, corpus_size: int) -> bool {
        forall|i: int|
            0 <= i < self.retrieved@.len() ==> #[trigger] self.retrieved@[i] < corpus_size
    }

    /// The retrieval of the items `retrieved` with the given utility of each.
    pub fn new(retrieved: Vec<usize>, utility_contributions: Vec<Fixed>) -> (retrieval: Retrieval)
        requires
            retrieved@.len() == utility_contributions@.len(),
        ensures
            retrieval.wf(),
            retrieval.retrieved@ == retrieved@,
            retrieval.utility_contributions@ == utility_contributions@,
    {
        Retrieval { retrieved, utility_contributions }
    }

    /// The existence probabilities of the retrieved items, in their order.
    pub fn existence_probabilities(&self, v: &[Fixed]) -> (p: Vec<Fixed>)
        requires
            self.within(v@.len() as int),
        ensures
            p@ == probabilities_of(self.retrieved@, v@),
    {
        let count: usize = self.retrieved.len();
        let mut p: Vec<Fixed> = Vec::with_capacity(count);
        let mut i: usize = 0;
        while i < count
            invariant
                i <= count,
                count == self.retrieved@.len(),
                self.within(v@.len() as int),
                p@.len() == i,
                forall|j: int| 0 <= j < i ==> p@[j] == v@[self.retrieved@[j] as int],
            decreases count - i,
        {
            let id: usize = self.retrieved[i];
            p.push(v[id]);
            i += 1;
        }
        p
    }
}

} // verus!
