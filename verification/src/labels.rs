//! The labels of a sample: a mapping from label names to label values.

use crate::text::str_eq;
use vstd::prelude::*;

verus! {

/// A label: its name and its value.
pub type Pair = (Seq<char>, Seq<char>);

/// What a list of labels holds.
pub open spec fn pairs_view(entries: Seq<(String, String)>) -> Seq<Pair> {
    entries.map_values(|e: (String, String)| (e.0@, e.1@))
}

/// Whether one of the labels has the name.
pub open spec fn has_name(pairs: Seq<Pair>, name: Seq<char>) -> bool {
    exists|i: int| 0 <= i < pairs.len() && (#[trigger] pairs[i]).0 == name
}

/// Whether no two of the labels share a name.
pub open spec fn distinct_names(pairs: Seq<Pair>) -> bool {
    forall|i: int, j: int|
        0 <= i < j < pairs.len() ==> (#[trigger] pairs[i]).0 != (#[trigger] pairs[j]).0
}

/// The place of a label with the name.
pub open spec fn place_of(pairs: Seq<Pair>, name: Seq<char>) -> int {
    choose|i: int| 0 <= i < pairs.len() && (#[trigger] pairs[i]).0 == name
}

/// The mapping that a list of labels stands for.
pub open spec fn pairs_map(pairs: Seq<Pair>) -> Map<Seq<char>, Seq<char>> {
    Map::new(|name: Seq<char>| has_name(pairs, name), |name: Seq<char>| pairs[place_of(pairs, name)].1)
}

/// In a list without a repeated name, each label is an entry of the mapping.
pub proof fn lemma_pairs_map_at(pairs: Seq<Pair>, i: int)
    requires
        distinct_names(pairs),
        0 <= i < pairs.len(),
    ensures
        pairs_map(pairs).contains_key(pairs[i].0),
        pairs_map(pairs)[pairs[i].0] == pairs[i].1,
        place_of(pairs, pairs[i].0) == i,
{
    let j = place_of(pairs, pairs[i].0);
    assert(0 <= j < pairs.len() && pairs[j].0 == pairs[i].0);
}

/// The labels of a sample. No name occurs twice; the order of the labels is
/// that in which their names first came, and says nothing.
#[derive(Debug)]
pub struct Labels {
    entries: Vec<(String, String)>,
}

impl View for Labels {
    type V = Map<Seq<char>, Seq<char>>;

    open spec fn view(&self) -> Map<Seq<char>, Seq<char>> {
        pairs_map(self.pairs())
    }
}

impl Clone for Labels {
    fn clone(&self) -> (r: Labels)
        ensures
            r.pairs() == self.pairs(),
    {
        proof {
            use_type_invariant(self);
        }
        let mut entries: Vec<(String, String)> = Vec::new();
        let mut i: usize = 0;
        while i < self.entries.len()
            invariant
                i <= self.entries.len(),
                pairs_view(entries@) == pairs_view(self.entries@).take(i as int),
            decreases self.entries.len() - i,
        {
            let name = self.entries[i].0.clone();
            let value = self.entries[i].1.clone();
            let ghost before = pairs_view(entries@);
            entries.push((name, value));
            assert(pairs_view(entries@) =~= before.push((name@, value@)));
            assert(pairs_view(self.entries@)[i as int] == (name@, value@));
            assert(pairs_view(entries@) =~= pairs_view(self.entries@).take(i + 1));
            i += 1;
        }
        assert(pairs_view(self.entries@).take(i as int) =~= pairs_view(self.entries@));
        Labels { entries }
    }
}

impl Labels {
    /// The labels in their order.
    pub closed spec fn pairs(self) -> Seq<Pair> {
        pairs_view(self.entries@)
    }

    /// No name occurs twice.
    #[verifier::type_invariant]
    pub closed spec fn wf(self) -> bool {
        distinct_names(self.pairs())
    }

    /// No labels.
    pub fn new() -> (r: Labels)
        ensures
            r@ == Map::<Seq<char>, Seq<char>>::empty(),
            r.pairs().len() == 0,
    {
        let r = Labels { entries: Vec::new() };
        assert(r@ =~= Map::<Seq<char>, Seq<char>>::empty());
        r
    }

    /// The count of labels.
    pub fn len(&self) -> (n: usize)
        ensures
            n == self.pairs().len(),
            n == self@.dom().len(),
            self@.dom().finite(),
    {
        proof {
            use_type_invariant(self);
            lemma_pairs_map_len(self.pairs());
        }
        self.entries.len()
    }

    /// The name of the label at `i`.
    pub fn name_at(&self, i: usize) -> (name: &String)
        requires
            i < self.pairs().len(),
        ensures
            name@ == self.pairs()[i as int].0,
            self@.contains_key(name@),
    {
        proof {
            use_type_invariant(self);
            lemma_pairs_map_at(self.pairs(), i as int);
        }
        &self.entries[i].0
    }

    /// The value of the label at `i`.
    pub fn value_at(&self, i: usize) -> (value: &String)
        requires
            i < self.pairs().len(),
        ensures
            value@ == self.pairs()[i as int].1,
            value@ == self@[self.pairs()[i as int].0],
    {
        proof {
            use_type_invariant(self);
            lemma_pairs_map_at(self.pairs(), i as int);
        }
        &self.entries[i].1
    }

    /// Takes the labels out and leaves none.
    fn take(&mut self) -> (entries: Vec<(String, String)>)
        ensures
            pairs_view(entries@) == old(self).pairs(),
            final(self).pairs().len() == 0,
    {
        let mut taken = Labels { entries: Vec::new() };
        core::mem::swap(self, &mut taken);
        taken.entries
    }

    /// The place of the label with the name.
    fn find(&self, name: &str) -> (r: Option<usize>)
        ensures
            match r {
                Some(i) => i < self.pairs().len() && self.pairs()[i as int].0 == name@,
                None => !has_name(self.pairs(), name@),
            },
    {
        let mut i: usize = 0;
        while i < self.entries.len()
            invariant
                i <= self.entries.len(),
                forall|j: int| 0 <= j < i ==> (#[trigger] self.pairs()[j]).0 != name@,
            decreases self.entries.len() - i,
        {
            if str_eq(self.entries[i].0.as_str(), name) {
                return Some(i);
            }
            i += 1;
        }
        None
    }

    /// The value of the label with the name.
    pub fn get(&self, name: &str) -> (r: Option<&String>)
        ensures
            r is Some <==> self@.contains_key(name@),
            r matches Some(value) ==> value@ == self@[name@],
    {
        proof {
            use_type_invariant(self);
        }
        match self.find(name) {
            Some(i) => {
                proof {
                    lemma_pairs_map_at(self.pairs(), i as int);
                }
                Some(&self.entries[i].1)
            },
            None => None,
        }
    }

    /// Gives the name the value, in place of the value that it had, if any.
    pub fn insert(&mut self, name: String, value: String)
        ensures
            final(self)@ == old(self)@.insert(name@, value@),
    {
        proof {
            use_type_invariant(&*self);
        }
        let ghost before = self.pairs();
        match self.find(name.as_str()) {
            Some(i) => {
                let mut entries = self.take();
                entries.set(i, (name, value));
                proof {
                    let after = pairs_view(entries@);
                    assert(after =~= before.update(i as int, (name@, value@)));
                    assert(distinct_names(after)) by {
                        assert forall|a: int, b: int| 0 <= a < b < after.len() implies (
                        #[trigger] after[a]).0 != (#[trigger] after[b]).0 by {
                            assert(after[a].0 == before[a].0);
                            assert(after[b].0 == before[b].0);
                        }
                    }
                }
                *self = Labels { entries };
                proof {
                    let after = self.pairs();
                    assert(after =~= before.update(i as int, (name@, value@)));
                    assert(distinct_names(after)) by {
                        assert forall|a: int, b: int| 0 <= a < b < after.len() implies (
                        #[trigger] after[a]).0 != (#[trigger] after[b]).0 by {
                            assert(after[a].0 == before[a].0);
                            assert(after[b].0 == before[b].0);
                        }
                    }
                    assert forall|k: Seq<char>| has_name(after, k) implies has_name(before, k)
                        && pairs_map(after)[k] == (if k == name@ {
                        value@
                    } else {
                        pairs_map(before)[k]
                    }) by {
                        let j = place_of(after, k);
                        assert(before[j].0 == k);
                        lemma_pairs_map_at(after, j);
                        lemma_pairs_map_at(before, j);
                    }
                    assert forall|k: Seq<char>| has_name(before, k) implies has_name(after, k) by {
                        let j = place_of(before, k);
                        assert(after[j].0 == k);
                    }
                    assert(has_name(before, name@)) by {
                        assert(before[i as int].0 == name@);
                    }
                    assert(pairs_map(after) =~= pairs_map(before).insert(name@, value@));
                }
            },
            None => {
                let mut entries = self.take();
                entries.push((name, value));
                proof {
                    let after = pairs_view(entries@);
                    assert(after =~= before.push((name@, value@)));
                    assert(distinct_names(after)) by {
                        assert forall|a: int, b: int| 0 <= a < b < after.len() implies (
                        #[trigger] after[a]).0 != (#[trigger] after[b]).0 by {
                            assert(after[a] == before[a]);
                            if b < before.len() {
                                assert(after[b] == before[b]);
                            }
                        }
                    }
                }
                *self = Labels { entries };
                proof {
                    let after = self.pairs();
                    assert(after =~= before.push((name@, value@)));
                    assert(distinct_names(after)) by {
                        assert forall|a: int, b: int| 0 <= a < b < after.len() implies (
                        #[trigger] after[a]).0 != (#[trigger] after[b]).0 by {
                            assert(after[a] == before[a]);
                            if b < before.len() {
                                assert(after[b] == before[b]);
                            }
                        }
                    }
                    assert forall|k: Seq<char>| has_name(after, k) implies (k == name@
                        || has_name(before, k)) && pairs_map(after)[k] == (if k == name@ {
                        value@
                    } else {
                        pairs_map(before)[k]
                    }) by {
                        let j = place_of(after, k);
                        lemma_pairs_map_at(after, j);
                        if j < before.len() {
                            assert(before[j] == after[j]);
                            lemma_pairs_map_at(before, j);
                        }
                    }
                    assert forall|k: Seq<char>| has_name(before, k) implies has_name(after, k) by {
                        let j = place_of(before, k);
                        assert(after[j].0 == k);
                    }
                    assert(has_name(after, name@)) by {
                        assert(after[before.len() as int].0 == name@);
                    }
                    assert(pairs_map(after) =~= pairs_map(before).insert(name@, value@));
                }
            },
        }
    }

    /// Takes the label with the name away, if there is one.
    pub fn remove(&mut self, name: &str)
        ensures
            final(self)@ == old(self)@.remove(name@),
    {
        proof {
            use_type_invariant(&*self);
        }
        let ghost before = self.pairs();
        match self.find(name) {
            Some(i) => {
                let mut entries = self.take();
                entries.remove(i);
                proof {
                    let after = pairs_view(entries@);
                    assert(after =~= before.remove(i as int));
                    assert(distinct_names(after)) by {
                        assert forall|a: int, b: int| 0 <= a < b < after.len() implies (
                        #[trigger] after[a]).0 != (#[trigger] after[b]).0 by {
                            let a0 = if a < i { a } else { a + 1 };
                            let b0 = if b < i { b } else { b + 1 };
                            assert(after[a] == before[a0]);
                            assert(after[b] == before[b0]);
                        }
                    }
                }
                *self = Labels { entries };
                proof {
                    let after = self.pairs();
                    assert(after =~= before.remove(i as int));
                    assert(distinct_names(after)) by {
                        assert forall|a: int, b: int| 0 <= a < b < after.len() implies (
                        #[trigger] after[a]).0 != (#[trigger] after[b]).0 by {
                            let a0 = if a < i { a } else { a + 1 };
                            let b0 = if b < i { b } else { b + 1 };
                            assert(after[a] == before[a0]);
                            assert(after[b] == before[b0]);
                        }
                    }
                    assert forall|k: Seq<char>| has_name(after, k) implies k != name@ && has_name(
                        before,
                        k,
                    ) && pairs_map(after)[k] == pairs_map(before)[k] by {
                        let j = place_of(after, k);
                        let j0 = if j < i { j } else { j + 1 };
                        assert(after[j] == before[j0]);
                        assert(before[i as int].0 == name@);
                        lemma_pairs_map_at(after, j);
                        lemma_pairs_map_at(before, j0);
                    }
                    assert forall|k: Seq<char>| has_name(before, k) && k != name@ implies has_name(
                        after,
                        k,
                    ) by {
                        let j = place_of(before, k);
                        let j1 = if j < i { j } else { j - 1 };
                        assert(after[j1] == before[j]);
                    }
                    assert(pairs_map(after) =~= pairs_map(before).remove(name@));
                }
            },
            None => {
                assert(self@ =~= old(self)@.remove(name@));
            },
        }
    }

    /// Whether the two are the same mapping.
    pub fn same(&self, other: &Labels) -> (r: bool)
        ensures
            r == (self@ == other@),
    {
        proof {
            use_type_invariant(self);
            use_type_invariant(other);
        }
        if !self.within(other) {
            return false;
        }
        if !other.within(self) {
            return false;
        }
        assert(self@ =~= other@);
        true
    }

    /// Whether each label of this is a label of the other.
    fn within(&self, other: &Labels) -> (r: bool)
        ensures
            r == (forall|k: Seq<char>| #[trigger]
                self@.contains_key(k) ==> other@.contains_key(k) && other@[k] == self@[k]),
    {
        proof {
            use_type_invariant(self);
            use_type_invariant(other);
        }
        let mut i: usize = 0;
        while i < self.entries.len()
            invariant
                i <= self.entries.len(),
                self.wf(),
                forall|j: int|
                    0 <= j < i ==> other@.contains_key((#[trigger] self.pairs()[j]).0)
                        && other@[self.pairs()[j].0] == self.pairs()[j].1,
            decreases self.entries.len() - i,
        {
            let ghost k = self.pairs()[i as int].0;
            proof {
                lemma_pairs_map_at(self.pairs(), i as int);
                assert(self@.contains_key(k));
                assert(self@[k] == self.pairs()[i as int].1);
                assert(self.entries@[i as int].0@ == k);
                assert(self.entries@[i as int].1@ == self@[k]);
            }
            match other.get(self.entries[i].0.as_str()) {
                Some(value) => {
                    if !str_eq(value.as_str(), self.entries[i].1.as_str()) {
                        assert(other@[k] != self@[k]);
                        return false;
                    }
                },
                None => {
                    assert(!other@.contains_key(k));
                    return false;
                },
            }
            i += 1;
        }
        proof {
            assert forall|k: Seq<char>| #[trigger] self@.contains_key(k) implies other@.contains_key(
                k,
            ) && other@[k] == self@[k] by {
                let j = place_of(self.pairs(), k);
                lemma_pairs_map_at(self.pairs(), j);
            }
        }
        true
    }
}

/// A list without a repeated name has as many labels as its mapping has names.
pub proof fn lemma_pairs_map_len(pairs: Seq<Pair>)
    requires
        distinct_names(pairs),
    ensures
        pairs_map(pairs).dom().finite(),
        pairs_map(pairs).dom().len() == pairs.len(),
    decreases pairs.len(),
{
    if pairs.len() == 0 {
        assert(pairs_map(pairs).dom() =~= Set::<Seq<char>>::empty());
    } else {
        let front = pairs.drop_last();
        let last = pairs.last();
        assert(distinct_names(front)) by {
            assert forall|a: int, b: int| 0 <= a < b < front.len() implies (#[trigger] front[a]).0
                != (#[trigger] front[b]).0 by {
                assert(front[a] == pairs[a]);
                assert(front[b] == pairs[b]);
            }
        }
        lemma_pairs_map_len(front);
        assert(!has_name(front, last.0)) by {
            if has_name(front, last.0) {
                let j = place_of(front, last.0);
                assert(front[j] == pairs[j]);
                assert(pairs[pairs.len() - 1] == last);
            }
        }
        assert(pairs_map(pairs).dom() =~= pairs_map(front).dom().insert(last.0)) by {
            assert forall|k: Seq<char>| has_name(pairs, k) implies k == last.0 || has_name(
                front,
                k,
            ) by {
                let j = place_of(pairs, k);
                if j < front.len() {
                    assert(front[j] == pairs[j]);
                }
            }
            assert forall|k: Seq<char>| has_name(front, k) implies has_name(pairs, k) by {
                let j = place_of(front, k);
                assert(front[j] == pairs[j]);
            }
            assert(has_name(pairs, last.0)) by {
                assert(pairs[pairs.len() - 1].0 == last.0);
            }
        }
    }
}

} // verus!
