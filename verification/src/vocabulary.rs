//! The term dictionary: every distinct term once, under a dense number.

use vstd::prelude::*;
use vstd::hash_map::StringHashMap;

verus! {

/// A set of terms in which every term has a number: its place in the order
/// in which the terms were added.
///
/// The terms are held twice, in a vector by number and in a hash map by
/// text, so that both directions take constant time.
pub struct Vocabulary {
    terms: Vec<String>,
    ids: StringHashMap<usize>,
}

impl View for Vocabulary {
    type V = Seq<Seq<char>>;

    /// The terms by number.
    closed spec fn view(&self) -> Seq<Seq<char>> {
        Seq::new(self.terms@.len(), |i: int| self.terms@[i]@)
    }
}

/// No term stands at two places of `terms`.
pub open spec fn distinct(terms: Seq<Seq<char>>) -> bool {
    forall|i: int, j: int|
        0 <= i < terms.len() && 0 <= j < terms.len() && #[trigger] terms[i] == #[trigger] terms[j]
            ==> i == j
}

/// In a sequence without repetition a term is found where it stands.
pub proof fn lemma_index_of(terms: Seq<Seq<char>>, i: int)
    requires
        distinct(terms),
        0 <= i < terms.len(),
    ensures
        terms.contains(terms[i]),
        terms.index_of(terms[i]) == i,
{
    let j = terms.index_of(terms[i]);
    assert(0 <= j < terms.len() && terms[j] == terms[i]);
}

/// The map that pairs each of `keys` with the value at the same place.
pub open spec fn keyed<V>(keys: Seq<Seq<char>>, values: Seq<V>) -> Map<Seq<char>, V> {
    Map::new(|key: Seq<char>| keys.contains(key), |key: Seq<char>| values[keys.index_of(key)])
}

/// Where keys do not repeat, a keyed map holds under every key the value
/// at the key's place.
pub proof fn lemma_keyed_at<V>(keys: Seq<Seq<char>>, values: Seq<V>, i: int)
    requires
        distinct(keys),
        0 <= i < keys.len(),
    ensures
        keyed(keys, values).contains_key(keys[i]),
        keyed(keys, values)[keys[i]] == values[i],
{
    lemma_index_of(keys, i);
}

/// A keyed map with one more key at its end.
pub proof fn lemma_keyed_push<V>(keys: Seq<Seq<char>>, values: Seq<V>, key: Seq<char>, value: V)
    requires
        distinct(keys),
        keys.len() == values.len(),
        !keys.contains(key),
    ensures
        distinct(keys.push(key)),
        keyed(keys.push(key), values.push(value)) == keyed(keys, values).insert(key, value),
{
    let keys2 = keys.push(key);
    let values2 = values.push(value);
    assert(distinct(keys2)) by {
        assert forall|i: int, j: int|
            0 <= i < keys2.len() && 0 <= j < keys2.len() && #[trigger] keys2[i]
                == #[trigger] keys2[j] implies i == j by {
            if i < keys.len() {
                assert(keys[i] == keys2[i]);
            }
            if j < keys.len() {
                assert(keys[j] == keys2[j]);
            }
        }
    }
    assert forall|k: Seq<char>| keys2.contains(k) <==> (k == key || keys.contains(k)) by {
        if keys2.contains(k) {
            let j = keys2.index_of(k);
            if j < keys.len() {
                assert(keys[j] == k);
            }
        }
        if keys.contains(k) {
            let j = keys.index_of(k);
            assert(keys2[j] == k);
        }
        if k == key {
            assert(keys2[keys2.len() - 1] == k);
        }
    }
    assert forall|k: Seq<char>| keys2.contains(k) implies #[trigger] keyed(keys2, values2)[k]
        == keyed(keys, values).insert(key, value)[k] by {
        let j = keys2.index_of(k);
        lemma_keyed_at(keys2, values2, j);
        if j < keys.len() {
            assert(keys[j] == k);
            lemma_keyed_at(keys, values, j);
        }
    }
    assert(keyed(keys2, values2) =~= keyed(keys, values).insert(key, value));
}

/// A keyed map with another value at one place.
pub proof fn lemma_keyed_update<V>(keys: Seq<Seq<char>>, values: Seq<V>, i: int, value: V)
    requires
        distinct(keys),
        keys.len() == values.len(),
        0 <= i < keys.len(),
    ensures
        keyed(keys, values.update(i, value)) == keyed(keys, values).insert(keys[i], value),
{
    let values2 = values.update(i, value);
    assert forall|k: Seq<char>| keys.contains(k) implies #[trigger] keyed(keys, values2)[k]
        == keyed(keys, values).insert(keys[i], value)[k] by {
        let j = keys.index_of(k);
        lemma_keyed_at(keys, values, j);
    }
    lemma_keyed_at(keys, values, i);
    assert(keyed(keys, values2) =~= keyed(keys, values).insert(keys[i], value));
}

impl Vocabulary {
    /// The hash map and the vector hold the same terms under the same
    /// numbers.
    pub closed spec fn wf(&self) -> bool {
        &&& forall|i: int|
            0 <= i < self.terms@.len() ==> self.ids@.contains_key(#[trigger] self.terms@[i]@)
                && self.ids@[self.terms@[i]@] == i
        &&& forall|k: Seq<char>| #[trigger]
            self.ids@.contains_key(k) ==> self.ids@[k] < self.terms@.len()
                && self.terms@[self.ids@[k] as int]@ == k
    }

    /// A well-formed vocabulary holds no term twice.
    pub proof fn lemma_distinct(&self)
        requires
            self.wf(),
        ensures
            distinct(self@),
    {
        assert forall|i: int, j: int|
            0 <= i < self@.len() && 0 <= j < self@.len() && #[trigger] self@[i] == #[trigger] self@[j]
            implies i == j by {
            assert(self.ids@[self.terms@[i]@] == i);
            assert(self.ids@[self.terms@[j]@] == j);
        }
    }

    /// A vocabulary without terms.
    pub fn new() -> (vocabulary: Self)
        ensures
            vocabulary.wf(),
            vocabulary@ == Seq::<Seq<char>>::empty(),
    {
        let vocabulary = Vocabulary { terms: Vec::new(), ids: StringHashMap::new() };
        assert(vocabulary@ =~= Seq::<Seq<char>>::empty());
        vocabulary
    }

    /// The number of terms.
    pub fn len(&self) -> (n: usize)
        ensures
            n == self@.len(),
    {
        self.terms.len()
    }

    /// The number of `term`, `None` if the vocabulary does not hold it.
    pub fn id_of(&self, term: &str) -> (id: Option<usize>)
        requires
            self.wf(),
        ensures
            match id {
                Some(i) => i < self@.len() && self@[i as int] == term@,
                None => !self@.contains(term@),
            },
    {
        match self.ids.get(term) {
            Some(i) => Some(*i),
            None => {
                assert forall|i: int| 0 <= i < self@.len() implies self@[i] != term@ by {
                    assert(self.ids@.contains_key(self.terms@[i]@));
                }
                None
            },
        }
    }

    /// The term with the number `id`.
    pub fn term(&self, id: usize) -> (term: &str)
        requires
            id < self@.len(),
        ensures
            term@ == self@[id as int],
    {
        self.terms[id].as_str()
    }

    /// Adds a term that the vocabulary does not hold yet and returns its
    /// number, the next one free.
    pub fn insert(&mut self, term: String) -> (id: usize)
        requires
            old(self).wf(),
            !old(self)@.contains(term@),
        ensures
            final(self).wf(),
            final(self)@ == old(self)@.push(term@),
            id == old(self)@.len(),
    {
        let id = self.terms.len();
        let ghost chars = term@;
        proof {
            if self.ids@.contains_key(chars) {
                assert(self@[self.ids@[chars] as int] == chars);
            }
        }
        self.ids.insert(term.clone(), id);
        self.terms.push(term);
        proof {
            assert(self@ =~= old(self)@.push(chars));
            assert forall|i: int| 0 <= i < self.terms@.len() implies self.ids@.contains_key(
                #[trigger] self.terms@[i]@,
            ) && self.ids@[self.terms@[i]@] == i by {
                if i < id {
                    assert(old(self)@[i] == old(self).terms@[i]@);
                    assert(old(self).ids@.contains_key(old(self).terms@[i]@));
                }
            }
        }
        id
    }
}

} // verus!
