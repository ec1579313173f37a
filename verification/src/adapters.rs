//! From questions with their retrieved answers, and from named groups of corpus
//! items, to the retrievals and the grouping that the estimation runs on.

use vstd::prelude::*;
use crate::fixed::Fixed;
use crate::indexing::{
    place_of,
    views_of,
    StringIndex,
    StringIndexer,
};
use crate::mle::types::{Grouping, Retrieval};

verus! {

/// A question, the answers that count as correct, and the answer that each
/// retrieved website gave.
pub struct QuestionAnswering {
    pub question: String,
    pub correct_answers: Vec<String>,
    pub retrieved_websites: Vec<String>,
    pub retrieved_answers: Vec<String>,
}

/// A named group of corpus items.
pub struct Group {
    pub name: String,
    pub elements: Vec<String>,
}

/// The websites retrieved for the first `count` questions.
pub open spec fn websites_of(inputs: Seq<QuestionAnswering>, count: int) -> Set<Seq<char>>
    decreases count,
{
    if count <= 0 {
        Set::empty()
    } else {
        websites_of(inputs, count - 1).union(
            views_of(inputs[count - 1].retrieved_websites@).to_set(),
        )
    }
}

/// The utility of a retrieved answer: one if it is among the correct answers, else zero.
pub open spec fn utility_of(correct_answers: Seq<String>, answer: Seq<char>) -> Fixed {
    if views_of(correct_answers).contains(answer) {
        Fixed::one_spec()
    } else {
        Fixed::zero_spec()
    }
}

/// The retrieval of a question: for each retrieved website its id among `websites`,
/// and the utility of its answer.
pub open spec fn is_retrieval_of(
    retrieval: &Retrieval,
    input: &QuestionAnswering,
    websites: Seq<Seq<char>>,
) -> bool {
    &&& retrieval.retrieved@.len() == input.retrieved_websites@.len()
    &&& retrieval.utility_contributions@.len() == input.retrieved_websites@.len()
    &&& forall|j: int|
        0 <= j < input.retrieved_websites@.len() ==> {
            &&& (#[trigger] retrieval.retrieved@[j]) < websites.len()
            &&& websites[retrieval.retrieved@[j] as int] == input.retrieved_websites@[j]@
        }
    &&& forall|j: int|
        0 <= j < input.retrieved_websites@.len() ==> #[trigger] retrieval.utility_contributions@[j]
            == utility_of(input.correct_answers@, input.retrieved_answers@[j]@)
}

/// Whether `answer` is one of `answers`.
fn is_among(answers: &Vec<String>, answer: &String) -> (found: bool)
    ensures
        found == views_of(answers@).contains(answer@),
{
    let mut i: usize = 0;
    while i < answers.len()
        invariant
            0 <= i <= answers@.len(),
            forall|j: int| 0 <= j < i ==> views_of(answers@)[j] != answer@,
        decreases answers@.len() - i,
    {
        if answers[i] == *answer {
            assert(views_of(answers@)[i as int] == answer@);
            return true;
        }
        i += 1;
    }
    false
}

/// Numbers the websites of all questions and turns each question into the retrieval
/// of its websites, with utility one for a correct answer and zero for any other.
pub fn index_questions(inputs: &Vec<QuestionAnswering>) -> (out: (Vec<Retrieval>, StringIndexer))
    requires
        forall|i: int|
            0 <= i < inputs@.len() ==> (#[trigger] inputs@[i]).retrieved_websites@.len()
                == inputs@[i].retrieved_answers@.len(),
    ensures
        out.1.wf(),
        out.1.contents() == websites_of(inputs@, inputs@.len() as int),
        out.0@.len() == inputs@.len(),
        forall|i: int|
            0 <= i < inputs@.len() ==> is_retrieval_of(
                &#[trigger] out.0@[i],
                &inputs@[i],
                out.1.strings(),
            ),
{
    let mut website_indexer: StringIndexer = StringIndexer::new();
    let mut line: usize = 0;
    while line < inputs.len()
        invariant
            0 <= line <= inputs@.len(),
            website_indexer.wf(),
            website_indexer.contents() == websites_of(inputs@, line as int),
        decreases inputs@.len() - line,
    {
        website_indexer.observe_all(inputs[line].retrieved_websites.as_slice());
        line += 1;
    }
    let website_index: StringIndex = website_indexer.create_index();
    let ghost websites = website_indexer.strings();
    let mut all_retrieved: Vec<Retrieval> = Vec::with_capacity(inputs.len());
    let mut line: usize = 0;
    while line < inputs.len()
        invariant
            0 <= line <= inputs@.len(),
            website_index.wf(),
            website_index.strings() == websites,
            websites.to_set() == websites_of(inputs@, inputs@.len() as int),
            forall|i: int|
                0 <= i < inputs@.len() ==> (#[trigger] inputs@[i]).retrieved_websites@.len()
                    == inputs@[i].retrieved_answers@.len(),
            all_retrieved@.len() == line,
            forall|i: int|
                0 <= i < line ==> is_retrieval_of(&#[trigger] all_retrieved@[i], &inputs@[i], websites),
        decreases inputs@.len() - line,
    {
        let input: &QuestionAnswering = &inputs[line];
        let count: usize = input.retrieved_websites.len();
        let mut samples: Vec<usize> = Vec::with_capacity(count);
        let mut costs: Vec<Fixed> = Vec::with_capacity(count);
        proof {
            lemma_websites_kept(inputs@, line as int, inputs@.len() as int);
        }
        let mut j: usize = 0;
        while j < count
            invariant
                0 <= j <= count,
                count == input.retrieved_websites@.len(),
                count == input.retrieved_answers@.len(),
                website_index.wf(),
                website_index.strings() == websites,
                views_of(input.retrieved_websites@).to_set().subset_of(websites.to_set()),
                samples@.len() == j,
                costs@.len() == j,
                forall|t: int|
                    0 <= t < j ==> {
                        &&& (#[trigger] samples@[t]) < websites.len()
                        &&& websites[samples@[t] as int] == input.retrieved_websites@[t]@
                    },
                forall|t: int|
                    0 <= t < j ==> #[trigger] costs@[t] == utility_of(
                        input.correct_answers@,
                        input.retrieved_answers@[t]@,
                    ),
            decreases count - j,
        {
            let website: &String = &input.retrieved_websites[j];
            proof {
                let all = views_of(input.retrieved_websites@);
                assert(all[j as int] == website@);
                assert(all.to_set().contains(website@));
            }
            samples.push(website_index.get(website.as_str()).unwrap());
            let cost: Fixed = if is_among(&input.correct_answers, &input.retrieved_answers[j]) {
                Fixed::one()
            } else {
                Fixed::zero()
            };
            costs.push(cost);
            j += 1;
        }
        all_retrieved.push(Retrieval::new(samples, costs));
        line += 1;
    }
    (all_retrieved, website_indexer)
}

/// The websites of a question are among those of all questions up to any later one.
pub proof fn lemma_websites_kept(inputs: Seq<QuestionAnswering>, line: int, count: int)
    requires
        0 <= line < count,
    ensures
        views_of(inputs[line].retrieved_websites@).to_set().subset_of(websites_of(inputs, count)),
    decreases count,
{
    if line < count - 1 {
        lemma_websites_kept(inputs, line, count - 1);
    }
}

/// The names of the first `count` groups.
pub open spec fn names_of(groups: Seq<Group>, count: int) -> Set<Seq<char>>
    decreases count,
{
    if count <= 0 {
        Set::empty()
    } else {
        names_of(groups, count - 1).insert(groups[count - 1].name@)
    }
}

/// The number of elements listed in the first `count` groups.
pub open spec fn total_elements(groups: Seq<Group>, count: int) -> int
    decreases count,
{
    if count <= 0 {
        0
    } else {
        total_elements(groups, count - 1) + groups[count - 1].elements@.len()
    }
}

/// Every element of every group is one of `items`.
pub open spec fn all_elements_known(groups: Seq<Group>, items: Seq<Seq<char>>) -> bool {
    forall|g: int, t: int|
        0 <= g < groups.len() && 0 <= t < groups[g].elements@.len() ==> items.contains(
            #[trigger] groups[g].elements@[t]@,
        )
}

/// The assignments `start` after the first `count` of `elements` are given to `group`.
pub open spec fn assigned_within(
    start: Seq<usize>,
    elements: Seq<Seq<char>>,
    items: Seq<Seq<char>>,
    group: usize,
    count: int,
) -> Seq<usize>
    decreases count,
{
    if count <= 0 {
        start
    } else {
        assigned_within(start, elements, items, group, count - 1).update(
            place_of(items, elements[count - 1]),
            group,
        )
    }
}

/// The group of every item after the first `count` groups have claimed their
/// elements one after the other: an item belongs to the last group that lists it,
/// and to group zero if none does. Groups are numbered by the place of their name
/// among `names`.
pub open spec fn assigned(
    groups: Seq<Group>,
    items: Seq<Seq<char>>,
    names: Seq<Seq<char>>,
    count: int,
) -> Seq<usize>
    decreases count,
{
    if count <= 0 {
        Seq::new(items.len(), |i: int| 0usize)
    } else {
        assigned_within(
            assigned(groups, items, names, count - 1),
            views_of(groups[count - 1].elements@),
            items,
            place_of(names, groups[count - 1].name@) as usize,
            groups[count - 1].elements@.len() as int,
        )
    }
}

/// The name of a group is among the names of all groups up to any later one.
pub proof fn lemma_names_kept(groups: Seq<Group>, g: int, count: int)
    requires
        0 <= g < count,
    ensures
        names_of(groups, count).contains(groups[g].name@),
    decreases count,
{
    if g < count - 1 {
        lemma_names_kept(groups, g, count - 1);
    }
}

/// Numbers the groups by their names and gives every item of `element_index` the
/// number of the group that lists it.
///
/// The groups are to list known elements only, and as many in all as there are items.
pub fn assign_groups(groups: &Vec<Group>, element_index: &StringIndex) -> (out: (
    Grouping,
    StringIndexer,
))
    requires
        element_index.wf(),
        all_elements_known(groups@, element_index.strings()),
        total_elements(groups@, groups@.len() as int) == element_index.strings().len(),
    ensures
        out.1.wf(),
        out.1.contents() == names_of(groups@, groups@.len() as int),
        out.0.num_groups == out.1.strings().len(),
        out.0.group_per_retrieved@ == assigned(
            groups@,
            element_index.strings(),
            out.1.strings(),
            groups@.len() as int,
        ),
        out.0.wf(),
{
    let mut group_name_indexer: StringIndexer = StringIndexer::new();
    let mut g: usize = 0;
    while g < groups.len()
        invariant
            0 <= g <= groups@.len(),
            group_name_indexer.wf(),
            group_name_indexer.contents() == names_of(groups@, g as int),
        decreases groups@.len() - g,
    {
        group_name_indexer.observe(groups[g].name.clone());
        g += 1;
    }
    let group_name_index: StringIndex = group_name_indexer.create_index();
    let num_groups: usize = group_name_index.len();
    let ghost names = group_name_indexer.strings();
    let ghost items = element_index.strings();
    let num_items: usize = element_index.len();
    let mut group_per_samples: Vec<usize> = Vec::with_capacity(num_items);
    let mut i: usize = 0;
    while i < num_items
        invariant
            0 <= i <= num_items,
            group_per_samples@.len() == i,
            forall|t: int| 0 <= t < i ==> group_per_samples@[t] == 0,
        decreases num_items - i,
    {
        group_per_samples.push(0);
        i += 1;
    }
    let mut g: usize = 0;
    while g < groups.len()
        invariant
            0 <= g <= groups@.len(),
            element_index.wf(),
            items == element_index.strings(),
            all_elements_known(groups@, items),
            group_name_index.wf(),
            group_name_index.strings() == names,
            names.to_set() == names_of(groups@, groups@.len() as int),
            num_groups == names.len(),
            num_items == items.len(),
            group_per_samples@.len() == num_items,
            group_per_samples@ == assigned(groups@, items, names, g as int),
            forall|t: int|
                0 <= t < num_items ==> #[trigger] group_per_samples@[t] == 0
                    || group_per_samples@[t] < num_groups,
        decreases groups@.len() - g,
    {
        let group: &Group = &groups[g];
        proof {
            lemma_names_kept(groups@, g as int, groups@.len() as int);
        }
        let group_id: usize = group_name_index.get(group.name.as_str()).unwrap();
        let ghost start = group_per_samples@;
        let ghost elements = views_of(group.elements@);
        let mut t: usize = 0;
        while t < group.elements.len()
            invariant
                0 <= t <= group.elements@.len(),
                0 <= g < groups@.len(),
                group == &groups@[g as int],
                elements == views_of(group.elements@),
                element_index.wf(),
                items == element_index.strings(),
                all_elements_known(groups@, items),
                num_items == items.len(),
                group_id < num_groups,
                group_per_samples@.len() == num_items,
                group_per_samples@ == assigned_within(start, elements, items, group_id, t as int),
                forall|s: int|
                    0 <= s < num_items ==> #[trigger] group_per_samples@[s] == 0
                        || group_per_samples@[s] < num_groups,
            decreases group.elements@.len() - t,
        {
            let element: &String = &group.elements[t];
            let element_id: usize = element_index.get(element.as_str()).unwrap();
            group_per_samples[element_id] = group_id;
            t += 1;
        }
        g += 1;
    }
    proof {
        if num_items > 0 && num_groups == 0 {
            lemma_names_kept(groups@, 0, groups@.len() as int);
        }
    }
    let grouping: Grouping = Grouping::new(num_groups, group_per_samples);
    (grouping, group_name_indexer)
}

} // verus!
