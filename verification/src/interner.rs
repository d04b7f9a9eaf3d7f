use crate::outside::{index_entries, index_get, index_insert, index_new};
use rustc_hash::FxHashMap;
use vstd::prelude::*;

verus! {

/// `names` with `label` appended unless it is already there.
pub open spec fn add_name(names: Seq<Seq<char>>, label: Seq<char>) -> Seq<Seq<char>> {
    if names.contains(label) {
        names
    } else {
        names.push(label)
    }
}

/// The characters of a label that may be null.
pub open spec fn opt_label(label: Option<String>) -> Option<Seq<char>> {
    match label {
        Some(s) => Some(s@),
        None => None,
    }
}

/// `names` after a label that may be null has been seen.
pub open spec fn add_opt(names: Seq<Seq<char>>, label: Option<Seq<char>>) -> Seq<Seq<char>> {
    match label {
        Some(l) => add_name(names, l),
        None => names,
    }
}

/// Whether `id` is the id that `label` has in `names`: none for a null
/// label, else the label's position.
pub open spec fn id_matches(names: Seq<Seq<char>>, label: Option<Seq<char>>, id: Option<usize>) -> bool {
    match (label, id) {
        (Some(l), Some(i)) => i < names.len() && names[i as int] == l,
        (None, None) => true,
        _ => false,
    }
}

/// Maps labels to dense ids in the order in which they are first seen, and
/// ids back to labels.
pub struct Interner {
    index: FxHashMap<String, usize>,
    labels: Vec<String>,
}

impl Interner {
    /// The labels seen so far; a label's position is its id.
    pub closed spec fn names(&self) -> Seq<Seq<char>> {
        Seq::new(self.labels@.len(), |i: int| self.labels@[i]@)
    }

    /// The index and the list of labels describe the same mapping.
    pub closed spec fn wf(&self) -> bool {
        &&& forall|i: int|
            0 <= i < self.labels@.len() ==> index_entries(self.index).contains_key(
                #[trigger] self.labels@[i]@,
            ) && index_entries(self.index)[self.labels@[i]@] == i
        &&& forall|k: Seq<char>| #[trigger]
            index_entries(self.index).contains_key(k) ==> index_entries(self.index)[k]
                < self.labels@.len() && self.labels@[index_entries(self.index)[k] as int]@ == k
    }

    /// No label has two ids.
    pub proof fn lemma_names_distinct(&self)
        requires
            self.wf(),
        ensures
            forall|i: int, j: int|
                0 <= i < self.names().len() && 0 <= j < self.names().len() && self.names()[i]
                    == self.names()[j] ==> i == j,
    {
        assert forall|i: int, j: int|
            0 <= i < self.names().len() && 0 <= j < self.names().len() && self.names()[i]
                == self.names()[j] implies i == j by {
            assert(index_entries(self.index)[self.labels@[i]@] == i);
            assert(index_entries(self.index)[self.labels@[j]@] == j);
        }
    }

    /// An interner that has seen nothing.
    pub fn new() -> (it: Interner)
        ensures
            it.wf(),
            it.names() == Seq::<Seq<char>>::empty(),
    {
        let it = Interner { index: index_new(), labels: Vec::new() };
        assert(it.names() =~= Seq::<Seq<char>>::empty());
        it
    }

    /// The number of labels seen.
    pub fn len(&self) -> (n: usize)
        ensures
            n == self.names().len(),
    {
        self.labels.len()
    }

    /// The id of `label`, if it has been seen.
    pub fn lookup(&self, label: &str) -> (found: Option<usize>)
        requires
            self.wf(),
        ensures
            match found {
                Some(id) => id < self.names().len() && self.names()[id as int] == label@,
                None => !self.names().contains(label@),
            },
    {
        index_get(&self.index, label)
    }

    /// The label of `id`.
    pub fn label(&self, id: usize) -> (name: &String)
        requires
            id < self.names().len(),
        ensures
            name@ == self.names()[id as int],
    {
        &self.labels[id]
    }

    /// The id of `label`: the one it already has, or else the next free one,
    /// under which it is recorded.
    pub fn intern(&mut self, label: &str) -> (id: usize)
        requires
            old(self).wf(),
        ensures
            final(self).wf(),
            final(self).names() == add_name(old(self).names(), label@),
            id < final(self).names().len(),
            final(self).names()[id as int] == label@,
    {
        match index_get(&self.index, label) {
            Some(id) => {
                proof {
                    assert(self.names()[id as int] == label@);
                }
                id
            },
            None => {
                let id = self.labels.len();
                proof {
                    if self.names().contains(label@) {
                        let i = choose|i: int|
                            0 <= i < self.names().len() && self.names()[i] == label@;
                        assert(index_entries(self.index).contains_key(self.labels@[i]@));
                    }
                }
                index_insert(&mut self.index, label.to_owned(), id);
                self.labels.push(label.to_owned());
                proof {
                    assert(self.names() =~= old(self).names().push(label@));
                    assert forall|k: Seq<char>| #[trigger]
                        index_entries(self.index).contains_key(k) implies index_entries(
                        self.index,
                    )[k] < self.labels@.len() && self.labels@[index_entries(
                        self.index,
                    )[k] as int]@ == k by {
                        if k != label@ {
                            assert(index_entries(old(self).index).contains_key(k));
                        }
                    }
                    assert forall|i: int| 0 <= i < self.labels@.len() implies index_entries(
                        self.index,
                    ).contains_key(#[trigger] self.labels@[i]@) && index_entries(
                        self.index,
                    )[self.labels@[i]@] == i by {
                        if i < id {
                            assert(index_entries(old(self).index).contains_key(
                                old(self).labels@[i]@,
                            ));
                        }
                    }
                }
                id
            },
        }
    }

    /// Interns a label that may be null: a null label gets no id and
    /// changes nothing.
    pub fn intern_opt(&mut self, label: &Option<String>) -> (id: Option<usize>)
        requires
            old(self).wf(),
        ensures
            final(self).wf(),
            final(self).names() == add_opt(old(self).names(), opt_label(*label)),
            id_matches(final(self).names(), opt_label(*label), id),
    {
        match label {
            Some(s) => Some(self.intern(s.as_str())),
            None => None,
        }
    }
}

} // verus!
