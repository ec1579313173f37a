//! Dense ids for strings, given in the order of their UTF-8 bytes.

use vstd::prelude::*;
use vstd::utf8::{encode_utf8, encode_utf8_decode_utf8};
use vstd::string::StringSliceAdditionalSpecFns;
use std::collections::HashMap;

verus! {

/// Whether `a` comes before `b` when the two are compared byte by byte from the
/// front: at the first place where they differ `a` has the smaller byte, or `a`
/// ends there and `b` goes on.
pub open spec fn precedes(a: Seq<u8>, b: Seq<u8>) -> bool
    decreases a.len(),
{
    if b.len() == 0 {
        false
    } else if a.len() == 0 {
        true
    } else if a[0] != b[0] {
        a[0] < b[0]
    } else {
        precedes(a.drop_first(), b.drop_first())
    }
}

/// The bytes by which a string is ordered.
pub open spec fn sort_key(s: Seq<char>) -> Seq<u8> {
    encode_utf8(s)
}

/// Each string comes before every later one.
pub open spec fn ascending(strings: Seq<Seq<char>>) -> bool {
    forall|i: int, j: int|
        0 <= i < j < strings.len() ==> precedes(
            sort_key(#[trigger] strings[i]),
            sort_key(#[trigger] strings[j]),
        )
}

/// What the strings hold, one by one.
pub open spec fn views_of(strings: Seq<String>) -> Seq<Seq<char>> {
    Seq::new(strings.len(), |i: int| strings[i]@)
}

/// No sequence comes before itself.
pub proof fn lemma_precedes_irreflexive(a: Seq<u8>)
    ensures
        !precedes(a, a),
    decreases a.len(),
{
    if a.len() > 0 {
        lemma_precedes_irreflexive(a.drop_first());
    }
}

/// What comes before something that comes before a third comes before the third.
pub proof fn lemma_precedes_transitive(a: Seq<u8>, b: Seq<u8>, c: Seq<u8>)
    requires
        precedes(a, b),
        precedes(b, c),
    ensures
        precedes(a, c),
    decreases a.len(),
{
    if a.len() > 0 && a[0] == b[0] && b[0] == c[0] {
        lemma_precedes_transitive(a.drop_first(), b.drop_first(), c.drop_first());
    }
}

/// Of two different sequences one comes before the other.
pub proof fn lemma_precedes_total(a: Seq<u8>, b: Seq<u8>)
    requires
        !precedes(a, b),
        !precedes(b, a),
    ensures
        a == b,
    decreases a.len(),
{
    if a.len() > 0 && b.len() > 0 {
        lemma_precedes_total(a.drop_first(), b.drop_first());
        assert(a =~= seq![a[0]] + a.drop_first());
    }
}

/// Two sequences that agree in their first `i` bytes stand as their rests stand.
pub proof fn lemma_precedes_behind_common_start(a: Seq<u8>, b: Seq<u8>, i: int)
    requires
        0 <= i <= a.len(),
        i <= b.len(),
        forall|j: int| 0 <= j < i ==> a[j] == b[j],
    ensures
        precedes(a, b) == precedes(a.skip(i), b.skip(i)),
    decreases i,
{
    if i > 0 {
        let a1 = a.drop_first();
        let b1 = b.drop_first();
        lemma_precedes_behind_common_start(a1, b1, i - 1);
        assert(a1.skip(i - 1) =~= a.skip(i));
        assert(b1.skip(i - 1) =~= b.skip(i));
    } else {
        assert(a.skip(0) =~= a);
        assert(b.skip(0) =~= b);
    }
}

/// Strings with the same bytes are the same string.
pub proof fn lemma_sort_key_tells_apart(s: Seq<char>, t: Seq<char>)
    requires
        sort_key(s) == sort_key(t),
    ensures
        s == t,
{
    encode_utf8_decode_utf8(s);
    encode_utf8_decode_utf8(t);
}

/// Where one sequence of bytes stands to another.
#[derive(Clone, Copy, Debug, PartialEq, Eq, Structural)]
pub enum Placement {
    Before,
    Same,
    After,
}

/// Compares two sequences of bytes from the front.
pub fn place(a: &[u8], b: &[u8]) -> (r: Placement)
    ensures
        r == Placement::Before <==> precedes(a@, b@),
        r == Placement::Same <==> a@ == b@,
        r == Placement::After <==> precedes(b@, a@),
{
    let mut i: usize = 0;
    while i < a.len() && i < b.len()
        invariant
            0 <= i <= a@.len(),
            i <= b@.len(),
            forall|j: int| 0 <= j < i ==> a@[j] == b@[j],
        decreases a@.len() - i,
    {
        if a[i] != b[i] {
            proof {
                lemma_precedes_behind_common_start(a@, b@, i as int);
                lemma_precedes_behind_common_start(b@, a@, i as int);
            }
            if a[i] < b[i] {
                return Placement::Before;
            } else {
                return Placement::After;
            }
        }
        i += 1;
    }
    proof {
        lemma_precedes_behind_common_start(a@, b@, i as int);
        lemma_precedes_behind_common_start(b@, a@, i as int);
        lemma_precedes_irreflexive(a@);
    }
    if a.len() < b.len() {
        Placement::Before
    } else if a.len() > b.len() {
        Placement::After
    } else {
        assert(a@ =~= b@);
        Placement::Same
    }
}

/// Where `key` stands among ascending strings: its place and `true` if it is one of
/// them, else the place at which it would have to be put and `false`.
pub fn locate(strings: &Vec<String>, key: &str) -> (found: (usize, bool))
    requires
        ascending(views_of(strings@)),
    ensures
        found.0 <= strings@.len(),
        found.1 ==> found.0 < strings@.len() && strings@[found.0 as int]@ == key@,
        !found.1 ==> forall|i: int|
            0 <= i < strings@.len() ==> if i < found.0 {
                precedes(sort_key(#[trigger] strings@[i]@), sort_key(key@))
            } else {
                precedes(sort_key(key@), sort_key(strings@[i]@))
            },
{
    let ghost views = views_of(strings@);
    let mut low: usize = 0;
    let mut high: usize = strings.len();
    while low < high
        invariant
            0 <= low <= high <= strings@.len(),
            views == views_of(strings@),
            ascending(views),
            forall|i: int| 0 <= i < low ==> precedes(sort_key(#[trigger] views[i]), sort_key(key@)),
            forall|i: int|
                high <= i < views.len() ==> precedes(sort_key(key@), sort_key(#[trigger] views[i])),
        decreases high - low,
    {
        let middle: usize = low + (high - low) / 2;
        let placement: Placement = place(strings[middle].as_str().as_bytes(), key.as_bytes());
        match placement {
            Placement::Before => {
                proof {
                    assert forall|i: int| 0 <= i < middle + 1 implies precedes(
                        sort_key(#[trigger] views[i]),
                        sort_key(key@),
                    ) by {
                        if i < middle {
                            lemma_precedes_transitive(
                                sort_key(views[i]),
                                sort_key(views[middle as int]),
                                sort_key(key@),
                            );
                        }
                    }
                }
                low = middle + 1;
            },
            Placement::After => {
                proof {
                    assert forall|i: int| middle <= i < views.len() implies precedes(
                        sort_key(key@),
                        sort_key(#[trigger] views[i]),
                    ) by {
                        if i > middle {
                            lemma_precedes_transitive(
                                sort_key(key@),
                                sort_key(views[middle as int]),
                                sort_key(views[i]),
                            );
                        }
                    }
                }
                high = middle;
            },
            Placement::Same => {
                proof {
                    lemma_sort_key_tells_apart(views[middle as int], key@);
                }
                return (middle, true);
            },
        }
    }
    proof {
        assert forall|i: int| 0 <= i < strings@.len() implies if i < low {
            precedes(sort_key(#[trigger] strings@[i]@), sort_key(key@))
        } else {
            precedes(sort_key(key@), sort_key(strings@[i]@))
        } by {
            assert(views[i] == strings@[i]@);
        }
    }
    (low, false)
}

/// The place of `key` among `strings`.
pub open spec fn place_of(strings: Seq<Seq<char>>, key: Seq<char>) -> int {
    choose|i: int| 0 <= i < strings.len() && strings[i] == key
}

/// Among ascending strings a string has one place.
pub proof fn lemma_place_of_found(strings: Seq<Seq<char>>, key: Seq<char>, i: int)
    requires
        ascending(strings),
        0 <= i < strings.len(),
        strings[i] == key,
    ensures
        place_of(strings, key) == i,
{
    lemma_ascending_differ(strings);
}

/// Ascending strings are all different.
pub proof fn lemma_ascending_differ(strings: Seq<Seq<char>>)
    requires
        ascending(strings),
    ensures
        strings.no_duplicates(),
{
    assert forall|i: int, j: int| 0 <= i < strings.len() && 0 <= j < strings.len() && i
        != j implies strings[i] != strings[j] by {
        lemma_precedes_irreflexive(sort_key(strings[i]));
    }
}

/// The strings of an ascending sequence but the last are those of its set but the last.
proof fn lemma_front_of_ascending(a: Seq<Seq<char>>)
    requires
        ascending(a),
        a.len() > 0,
    ensures
        ascending(a.drop_last()),
        a.drop_last().to_set() == a.to_set().remove(a.last()),
{
    let front = a.drop_last();
    lemma_ascending_differ(a);
    assert forall|x: Seq<char>| front.to_set().contains(x) == a.to_set().remove(a.last()).contains(
        x,
    ) by {
        if a.contains(x) && x != a.last() {
            let t = choose|t: int| 0 <= t < a.len() && a[t] == x;
            assert(front[t] == x);
        }
    }
}

/// The last of an ascending sequence is not before any string of the sequence.
proof fn lemma_last_of_ascending(a: Seq<Seq<char>>, x: Seq<char>)
    requires
        ascending(a),
        a.contains(x),
    ensures
        x == a.last() || precedes(sort_key(x), sort_key(a.last())),
{
}

/// A set of strings has one ascending order: two ascending sequences of the same
/// strings are the same sequence. So the strings that an indexer has observed decide
/// the id of each of them.
pub proof fn lemma_ascending_determined(a: Seq<Seq<char>>, b: Seq<Seq<char>>)
    requires
        ascending(a),
        ascending(b),
        a.to_set() == b.to_set(),
    ensures
        a == b,
    decreases a.len(),
{
    lemma_ascending_differ(a);
    lemma_ascending_differ(b);
    a.unique_seq_to_set();
    b.unique_seq_to_set();
    if a.len() > 0 {
        assert(a.to_set().contains(a.last()));
        assert(b.to_set().contains(b.last()));
        lemma_last_of_ascending(a, b.last());
        lemma_last_of_ascending(b, a.last());
        if a.last() != b.last() {
            lemma_precedes_transitive(sort_key(a.last()), sort_key(b.last()), sort_key(a.last()));
            lemma_precedes_irreflexive(sort_key(a.last()));
        }
        lemma_front_of_ascending(a);
        lemma_front_of_ascending(b);
        lemma_ascending_determined(a.drop_last(), b.drop_last());
        assert(a =~= a.drop_last().push(a.last()));
    }
}

/// The ids of a set of strings: each string has the number of strings before it.
pub struct StringIndex {
    pub keys: Vec<String>,
}

impl StringIndex {
    /// The strings in the order of their ids.
    pub open spec fn strings(&self) -> Seq<Seq<char>> {
        views_of(self.keys@)
    }

    /// The strings are held in ascending order.
    pub open spec fn wf(&self) -> bool {
        ascending(self.strings())
    }

    /// The id of `key`, if it is one of the strings.
    pub fn get(&self, key: &str) -> (id: Option<usize>)
        requires
            self.wf(),
        ensures
            match id {
                Some(i) => i < self.strings().len() && self.strings()[i as int] == key@ && i
                    == place_of(self.strings(), key@),
                None => !self.strings().contains(key@),
            },
    {
        let (position, found) = locate(&self.keys, key);
        if found {
            proof {
                lemma_place_of_found(self.strings(), key@, position as int);
            }
            Some(position)
        } else {
            proof {
                assert forall|i: int| 0 <= i < self.strings().len() implies self.strings()[i]
                    != key@ by {
                    lemma_precedes_irreflexive(sort_key(key@));
                }
            }
            None
        }
    }

    /// The number of strings.
    pub fn len(&self) -> (count: usize)
        ensures
            count == self.strings().len(),
    {
        self.keys.len()
    }
}

/// Collects strings and numbers the different ones in ascending order.
#[derive(Default)]
pub struct StringIndexer {
    pub distinct_strings: Vec<String>,
}

impl StringIndexer {
    /// The strings observed so far, each once, in ascending order.
    pub open spec fn strings(&self) -> Seq<Seq<char>> {
        views_of(self.distinct_strings@)
    }

    /// The set of the strings observed so far.
    pub open spec fn contents(&self) -> Set<Seq<char>> {
        self.strings().to_set()
    }

    /// The strings are held in ascending order.
    pub open spec fn wf(&self) -> bool {
        ascending(self.strings())
    }

    /// An indexer that has observed nothing.
    pub fn new() -> (indexer: StringIndexer)
        ensures
            indexer.wf(),
            indexer.strings() == Seq::<Seq<char>>::empty(),
    {
        let indexer = StringIndexer { distinct_strings: Vec::new() };
        indexer
    }

    /// Observes each of the strings.
    pub fn observe_all(&mut self, strs: &[String])
        requires
            old(self).wf(),
        ensures
            final(self).wf(),
            final(self).contents() == old(self).contents().union(views_of(strs@).to_set()),
    {
        let mut i: usize = 0;
        while i < strs.len()
            invariant
                0 <= i <= strs@.len(),
                self.wf(),
                self.contents() == old(self).contents().union(
                    views_of(strs@).take(i as int).to_set(),
                ),
            decreases strs@.len() - i,
        {
            self.observe(strs[i].clone());
            proof {
                let all = views_of(strs@);
                assert(all.take(i + 1).to_set() =~= all.take(i as int).to_set().insert(
                    strs@[i as int]@,
                )) by {
                    assert forall|x: Seq<char>| all.take(i + 1).to_set().contains(x)
                        == all.take(i as int).to_set().insert(strs@[i as int]@).contains(x) by {
                        if x == strs@[i as int]@ {
                            assert(all.take(i + 1)[i as int] == x);
                        }
                    }
                }
                assert(self.contents() =~= old(self).contents().union(
                    all.take(i + 1).to_set(),
                ));
            }
            i += 1;
        }
        assert(views_of(strs@).take(i as int) =~= views_of(strs@));
    }

    /// The number of different strings observed so far.
    pub fn num_observed_strings(&self) -> (count: usize)
        requires
            self.wf(),
        ensures
            count == self.strings().len(),
            count == self.contents().len(),
    {
        proof {
            lemma_ascending_differ(self.strings());
            self.strings().unique_seq_to_set();
        }
        self.distinct_strings.len()
    }

    /// Observes a string: it is one of the strings from now on.
    pub fn observe(&mut self, string: String)
        requires
            old(self).wf(),
        ensures
            final(self).wf(),
            final(self).contents() == old(self).contents().insert(string@),
    {
        let (position, found) = locate(&self.distinct_strings, string.as_str());
        if found {
            proof {
                assert(self.strings()[position as int] == string@);
            }
        } else {
            let ghost before = self.strings();
            let ghost key = string@;
            self.distinct_strings.insert(position, string);
            proof {
                let after = self.strings();
                assert(after =~= before.insert(position as int, key));
                assert forall|x: Seq<char>| after.to_set().contains(x) == before.to_set().insert(
                    key,
                ).contains(x) by {
                    if before.contains(x) {
                        let t = choose|t: int| 0 <= t < before.len() && before[t] == x;
                        if t < position {
                            assert(after[t] == x);
                        } else {
                            assert(after[t + 1] == x);
                        }
                    }
                    if x == key {
                        assert(after[position as int] == x);
                    }
                }
            }
        }
    }

    /// The id of every observed string.
    pub fn create_index(&self) -> (index: StringIndex)
        requires
            self.wf(),
        ensures
            index.wf(),
            index.strings() == self.strings(),
    {
        let mut keys: Vec<String> = Vec::with_capacity(self.distinct_strings.len());
        let mut id: usize = 0;
        while id < self.distinct_strings.len()
            invariant
                0 <= id <= self.distinct_strings@.len(),
                keys@.len() == id,
                forall|t: int| 0 <= t < id ==> keys@[t] == self.distinct_strings@[t],
            decreases self.distinct_strings@.len() - id,
        {
            keys.push(self.distinct_strings[id].clone());
            id += 1;
        }
        let index = StringIndex { keys };
        assert(index.strings() =~= self.strings());
        index
    }

    /// The observed string of every id.
    pub fn create_reverse_index(&self) -> (index: HashMap<usize, String>)
        requires
            self.wf(),
        ensures
            forall|id: usize| index@.contains_key(id) <==> id < self.strings().len(),
            forall|id: usize|
                id < self.strings().len() ==> (#[trigger] index@[id])@ == self.strings()[id as int],
    {
        broadcast use vstd::std_specs::hash::group_hash_axioms;

        let mut index: HashMap<usize, String> = HashMap::new();
        let mut id: usize = 0;
        while id < self.distinct_strings.len()
            invariant
                0 <= id <= self.distinct_strings@.len(),
                forall|t: usize| index@.contains_key(t) <==> t < id,
                forall|t: usize| t < id ==> #[trigger] index@[t] == self.distinct_strings@[t as int],
            decreases self.distinct_strings@.len() - id,
        {
            index.insert(id, self.distinct_strings[id].clone());
            id += 1;
        }
        index
    }
}

} // verus!
