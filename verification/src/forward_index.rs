//! The forward index: every document with its own term counts.
//!
//! This is the plain form of the index, without postings. It answers
//! queries for one term by looking into every document.

use vstd::prelude::*;
use vstd::string::StringExecFns;
use crate::arena::Arena;
use crate::codec::{
    counts_view, decode_forward, encode_forward, error_text, forward_json, forward_of_json,
    pair_counts, pair_terms, pairs_well_formed, ForwardRecord, ForwardRecordView, IndexError,
};
use crate::computations::{compute_idf, compute_tf, compute_tf_idf, containing_docs};
use crate::inverted_index::{corpus, lowercased};
use crate::score::{all_rank, descending, hits_view, idf_of, rank, ranked, Rank, Tf, TfIdf};
use crate::term_counts::{lemma_sum_push, occurrences, paired, sum_of, TermCounts};
use crate::text::{lowercase_text, tokens};
use crate::vocabulary::{
    distinct, keyed, lemma_keyed_at, lemma_keyed_push, lemma_keyed_update, Vocabulary,
};

verus! {

/// The term counts of documents as maps.
pub open spec fn maps_of(documents: Seq<TermCounts>) -> Seq<Map<Seq<char>, nat>> {
    Seq::new(documents.len(), |i: int| documents[i]@)
}

/// What a forward index holds after the documents of a corpus were added
/// to `base` in their order; a document replaces an earlier one of the same
/// name.
pub open spec fn forward_built(
    base: Map<Seq<char>, Map<Seq<char>, nat>>,
    documents: Seq<(Seq<char>, Seq<char>)>,
) -> Map<Seq<char>, Map<Seq<char>, nat>>
    decreases documents.len(),
{
    if documents.len() == 0 {
        base
    } else {
        forward_built(base, documents.drop_last()).insert(
            documents.last().0,
            occurrences(tokens(lowercase_text(documents.last().1), false)),
        )
    }
}

/// The weight of `query` in `doc`, one of `documents`.
pub open spec fn forward_weight(documents: Seq<TermCounts>, doc: int, query: Seq<char>) -> TfIdf {
    TfIdf {
        tf: Tf {
            count: (if documents[doc]@.contains_key(query) {
                documents[doc]@[query]
            } else {
                0
            }) as usize,
            total: documents[doc].total() as usize,
        },
        idf: idf_of(documents.len() as usize, containing_docs(documents, query) as usize),
    }
}

/// The documents among the first `n` in which `query` has a positive
/// weight, in their order, each with its name and that weight.
pub open spec fn forward_hits(
    names: Seq<Seq<char>>,
    documents: Seq<TermCounts>,
    query: Seq<char>,
    n: int,
) -> Seq<(Seq<char>, TfIdf)>
    decreases n,
{
    if n <= 0 {
        Seq::empty()
    } else if forward_weight(documents, n - 1, query).is_positive() {
        forward_hits(names, documents, query, n - 1).push(
            (names[n - 1], forward_weight(documents, n - 1, query)),
        )
    } else {
        forward_hits(names, documents, query, n - 1)
    }
}

/// Whether the JSON text `text` reads back as the forward index `index`: it
/// holds a well-formed record, and the record is the persisted form of the
/// index.
pub open spec fn restores_forward(text: Seq<char>, index: Map<Seq<char>, Map<Seq<char>, nat>>) -> bool {
    match forward_of_json(text) {
        Some(record) => record.well_formed() && record.index_view() == index,
        None => false,
    }
}

/// The sum of a prefix is no larger than the sum of the whole.
proof fn lemma_sum_prefix(counts: Seq<usize>, n: int)
    requires
        0 <= n <= counts.len(),
    ensures
        sum_of(counts.take(n)) <= sum_of(counts),
    decreases counts.len() - n,
{
    if n < counts.len() {
        lemma_sum_prefix(counts, n + 1);
        lemma_sum_push(counts.take(n), counts[n]);
        assert(counts.take(n + 1) =~= counts.take(n).push(counts[n]));
    } else {
        assert(counts.take(n) =~= counts);
    }
}

/// A forward index: for every document, by name, the count of every term
/// in it.
pub struct ForwardIndex {
    names: Vocabulary,
    docs: Vec<TermCounts>,
}

impl View for ForwardIndex {
    type V = Map<Seq<char>, Map<Seq<char>, nat>>;

    /// For every document name the count of every term of the document.
    open spec fn view(&self) -> Map<Seq<char>, Map<Seq<char>, nat>> {
        keyed(self.names(), maps_of(self.documents()))
    }
}

impl ForwardIndex {
    /// The document names in the order in which the index came to hold
    /// them.
    pub closed spec fn names(&self) -> Seq<Seq<char>> {
        self.names@
    }

    /// The term counts of the documents, in the order of
    /// [`ForwardIndex::names`].
    pub closed spec fn documents(&self) -> Seq<TermCounts> {
        self.docs@
    }

    /// Every name stands once, with the term counts of one document.
    pub closed spec fn wf(&self) -> bool {
        &&& self.names.wf()
        &&& self.docs@.len() == self.names@.len()
        &&& forall|i: int| 0 <= i < self.docs@.len() ==> (#[trigger] self.docs@[i]).wf()
    }

    /// What well-formedness means to a reader of the two sequences.
    pub proof fn lemma_wf(&self)
        requires
            self.wf(),
        ensures
            distinct(self.names()),
            self.names().len() == self.documents().len(),
            forall|i: int| 0 <= i < self.documents().len() ==> (#[trigger] self.documents()[i]).wf(),
    {
        self.names.lemma_distinct();
    }

    /// An index without documents.
    pub fn new() -> (index: Self)
        ensures
            index.wf(),
            index@ == Map::<Seq<char>, Map<Seq<char>, nat>>::empty(),
            index.names() == Seq::<Seq<char>>::empty(),
            index.documents() == Seq::<TermCounts>::empty(),
    {
        let index = ForwardIndex { names: Vocabulary::new(), docs: Vec::new() };
        assert(index@ =~= Map::<Seq<char>, Map<Seq<char>, nat>>::empty());
        index
    }

    /// The number of documents.
    pub fn len(&self) -> (n: usize)
        requires
            self.wf(),
        ensures
            n == self.names().len(),
    {
        self.names.len()
    }

    /// The name of the `i`-th document.
    pub fn name(&self, i: usize) -> (name: &str)
        requires
            self.wf(),
            i < self.names().len(),
        ensures
            name@ == self.names()[i as int],
    {
        self.names.term(i)
    }

    /// The term counts of the document `name`, `None` if the index does not
    /// hold it.
    pub fn get(&self, name: &str) -> (counts: Option<&TermCounts>)
        requires
            self.wf(),
        ensures
            match counts {
                Some(counts) => counts.wf() && self@.contains_key(name@) && counts@
                    == self@[name@],
                None => !self@.contains_key(name@),
            },
    {
        proof {
            self.lemma_wf();
        }
        match self.names.id_of(name) {
            Some(id) => {
                proof {
                    lemma_keyed_at(self.names(), maps_of(self.documents()), id as int);
                }
                Some(&self.docs[id])
            },
            None => None,
        }
    }

    /// Enters the term counts of a document under its name, in place of
    /// what stood under the name before.
    fn put(&mut self, name: String, counts: TermCounts)
        requires
            old(self).wf(),
            counts.wf(),
        ensures
            final(self).wf(),
            final(self)@ == old(self)@.insert(name@, counts@),
    {
        proof {
            self.lemma_wf();
        }
        match self.names.id_of(name.as_str()) {
            Some(id) => {
                proof {
                    lemma_keyed_update(
                        self.names(),
                        maps_of(self.documents()),
                        id as int,
                        counts@,
                    );
                }
                self.docs[id] = counts;
                proof {
                    assert(maps_of(self.documents()) =~= maps_of(old(self).documents()).update(
                        id as int,
                        counts@,
                    ));
                }
            },
            None => {
                proof {
                    lemma_keyed_push(self.names(), maps_of(self.documents()), name@, counts@);
                }
                self.names.insert(name);
                self.docs.push(counts);
                proof {
                    assert(maps_of(self.documents()) =~= maps_of(old(self).documents()).push(
                        counts@,
                    ));
                }
            },
        }
    }

    /// Adds one document: its text is cut into tokens as a
    /// [`crate::crawler::Crawler`] cuts it, and every token is counted
    /// under its term. A document of the same name is replaced.
    pub fn add_document(&mut self, name: String, text: &str)
        requires
            old(self).wf(),
        ensures
            final(self).wf(),
            final(self)@ == old(self)@.insert(name@, occurrences(tokens(text@, false))),
    {
        let counts = TermCounts::of_text(text);
        self.put(name, counts);
    }

    /// Adds the documents of a corpus. Each document is a name and a text;
    /// the text is lowercased and stored in the arena, and the document is
    /// added from the stored text, in the order of the corpus.
    pub fn build(&mut self, documents: &Vec<(String, String)>, arena: &mut Arena)
        requires
            old(self).wf(),
        ensures
            final(self).wf(),
            final(self)@ == forward_built(old(self)@, corpus(documents@)),
            final(arena)@ == old(arena)@ + lowercased(documents@),
    {
        let mut i: usize = 0;
        proof {
            assert(corpus(documents@).take(0) =~= Seq::<(Seq<char>, Seq<char>)>::empty());
            assert(arena@ =~= old(arena)@ + lowercased(documents@).take(0));
        }
        while i < documents.len()
            invariant
                i <= documents.len(),
                self.wf(),
                self@ == forward_built(old(self)@, corpus(documents@).take(i as int)),
                arena@ == old(arena)@ + lowercased(documents@).take(i as int),
            decreases documents.len() - i,
        {
            let lower = documents[i].1.as_str().to_lowercase();
            let name = documents[i].0.clone();
            proof {
                let now = corpus(documents@).take(i + 1);
                assert(now.drop_last() =~= corpus(documents@).take(i as int));
                assert(now.last() == (documents@[i as int].0@, documents@[i as int].1@));
                assert(old(arena)@ + lowercased(documents@).take(i + 1) =~= (old(arena)@
                    + lowercased(documents@).take(i as int)).push(lower@));
            }
            let stored = arena.allocate(lower);
            self.add_document(name, stored);
            i = i + 1;
        }
        proof {
            assert(corpus(documents@).take(i as int) =~= corpus(documents@));
            assert(lowercased(documents@).take(i as int) =~= lowercased(documents@));
        }
    }

    /// Scores every document against one term and returns the documents in
    /// which the term has a positive weight, those with the greatest weight
    /// first.
    ///
    /// All weights of the result share the inverse document frequency of
    /// the term, which is positive, so the documents stand in the order of
    /// their term frequencies; documents of the same term frequency stand
    /// in the order in which the index holds them. The term is taken as it
    /// is: bringing it into the form of indexed terms is the caller's part.
    pub fn recon(&self, query: String) -> (ranking: Vec<(String, TfIdf)>)
        requires
            self.wf(),
        ensures
            hits_view(ranking@) == ranked(
                forward_hits(
                    self.names(),
                    self.documents(),
                    query@,
                    self.names().len() as int,
                ),
            ),
            hits_view(ranking@).to_multiset() == forward_hits(
                self.names(),
                self.documents(),
                query@,
                self.names().len() as int,
            ).to_multiset(),
            descending(hits_view(ranking@)),
    {
        let mut scores: Vec<(String, TfIdf)> = Vec::new();
        let idf = compute_idf(&self.docs, query.as_str());
        let mut i: usize = 0;
        proof {
            assert(hits_view(scores@) =~= forward_hits(self.names(), self.documents(), query@, 0));
        }
        while i < self.docs.len()
            invariant
                i <= self.docs@.len(),
                self.wf(),
                idf == idf_of(
                    self.docs@.len() as usize,
                    containing_docs(self.docs@, query@) as usize,
                ),
                hits_view(scores@) == forward_hits(
                    self.names(),
                    self.documents(),
                    query@,
                    i as int,
                ),
                all_rank(hits_view(scores@)),
            decreases self.docs@.len() - i,
        {
            let tf = compute_tf(&self.docs[i], query.as_str());
            let tf_idf = compute_tf_idf(tf, idf);
            let ghost before = hits_view(scores@);
            if tf_idf.positive() {
                scores.push((String::from_str(self.names.term(i)), tf_idf));
                proof {
                    assert(hits_view(scores@) =~= before.push((self.names()[i as int], tf_idf)));
                    assert forall|k: int| 0 <= k < scores@.len() implies (#[trigger] hits_view(
                        scores@,
                    )[k]).1.ranks() by {
                        if k < before.len() {
                            assert(hits_view(scores@)[k] == before[k]);
                        }
                    }
                }
            }
            i = i + 1;
        }
        rank(scores)
    }

    /// The persisted form of the index: documents and terms in the order
    /// in which the index holds them.
    pub closed spec fn record(&self) -> ForwardRecordView {
        ForwardRecordView {
            documents: Seq::new(
                self.names@.len(),
                |i: int|
                    (
                        self.names@[i],
                        Seq::new(
                            self.docs@[i].terms().len(),
                            |j: int| (self.docs@[i].terms()[j], self.docs@[i].counts()[j]),
                        ),
                    ),
            ),
        }
    }

    /// The persisted form of an index is a well-formed record, and what
    /// the record stands for is what the index holds.
    pub proof fn lemma_record_round_trip(&self)
        requires
            self.wf(),
        ensures
            self.record().well_formed(),
            self.record().index_view() == self@,
    {
        let record = self.record();
        self.lemma_wf();
        assert(record.names() =~= self.names());
        assert forall|i: int| 0 <= i < record.documents.len() implies pairs_well_formed(
            (#[trigger] record.documents[i]).1,
        ) && record.maps()[i] == maps_of(self.documents())[i] by {
            let doc = self.docs@[i];
            let pairs = record.documents[i].1;
            doc.lemma_wf();
            assert(pair_terms(pairs) =~= doc.terms());
            assert(pair_counts(pairs) =~= doc.counts());
            assert forall|j: int| 0 <= j < pairs.len() implies (#[trigger] pairs[j]).1 >= 1 by {
                assert(doc.counts()[j] >= 1);
            }
        }
        assert(record.maps() =~= maps_of(self.documents()));
    }

    /// Writes the index to a record.
    pub fn to_record(&self) -> (record: ForwardRecord)
        requires
            self.wf(),
        ensures
            record@ == self.record(),
            record@.well_formed(),
            record@.index_view() == self@,
    {
        let mut documents: Vec<(String, Vec<(String, usize)>)> = Vec::new();
        let n = self.docs.len();
        let mut i: usize = 0;
        while i < n
            invariant
                i <= n == self.docs@.len(),
                self.wf(),
                documents@.len() == i,
                forall|k: int|
                    0 <= k < i ==> (#[trigger] documents@[k]).0@ == self.record().documents[k].0
                        && counts_view(documents@[k].1@)
                        == self.record().documents[k].1,
            decreases n - i,
        {
            let doc = &self.docs[i];
            let mut pairs: Vec<(String, usize)> = Vec::new();
            let m = doc.len();
            let mut j: usize = 0;
            while j < m
                invariant
                    j <= m == doc.terms().len(),
                    doc.wf(),
                    pairs@.len() == j,
                    forall|k: int|
                        0 <= k < j ==> (#[trigger] pairs@[k]).0@ == doc.terms()[k] && pairs@[k].1
                            == doc.counts()[k],
                decreases m - j,
            {
                let term = String::from_str(doc.term(j));
                let count = doc.count_at(j);
                pairs.push((term, count));
                j = j + 1;
            }
            proof {
                doc.lemma_wf();
                assert(counts_view(pairs@) =~= self.record().documents[i as int].1);
            }
            documents.push((String::from_str(self.names.term(i)), pairs));
            i = i + 1;
        }
        let record = ForwardRecord { documents };
        proof {
            assert(record@.documents =~= self.record().documents);
            self.lemma_record_round_trip();
        }
        record
    }

    /// Reads the term counts of one document from its persisted form. The
    /// pairs must be well-formed; any others are refused, and nothing else
    /// is.
    fn counts_from_pairs(pairs: Vec<(String, usize)>) -> (res: Option<TermCounts>)
        ensures
            match res {
                Some(counts) => pairs_well_formed(counts_view(pairs@)) && counts.wf()
                    && counts@ == paired(
                    pair_terms(counts_view(pairs@)),
                    pair_counts(counts_view(pairs@)),
                ),
                None => !pairs_well_formed(counts_view(pairs@)),
            },
    {
        let ghost model = counts_view(pairs@);
        let mut rest = pairs;
        let mut counts = TermCounts::new();
        let n = rest.len();
        let mut j: usize = 0;
        proof {
            assert(pair_terms(model).take(0) =~= counts.terms());
            assert(pair_counts(model).take(0) =~= counts.counts());
        }
        while j < n
            invariant
                j <= n == rest@.len() == model.len(),
                model == counts_view(pairs@),
                counts.wf(),
                counts.terms() == pair_terms(model).take(j as int),
                counts.counts() == pair_counts(model).take(j as int),
                forall|k: int|
                    j <= k < n ==> (#[trigger] rest@[k]).0@ == model[k].0 && rest@[k].1
                        == model[k].1,
            decreases n - j,
        {
            let mut pair: (String, usize) = (String::new(), 0);
            core::mem::swap(&mut rest[j], &mut pair);
            let term = pair.0;
            let count = pair.1;
            proof {
                counts.lemma_wf();
                lemma_sum_prefix(pair_counts(model), j + 1);
                lemma_sum_push(pair_counts(model).take(j as int), count);
                assert(pair_counts(model).take(j + 1) =~= pair_counts(model).take(j as int).push(
                    pair_counts(model)[j as int],
                ));
                assert(pair_terms(model).take(j + 1) =~= pair_terms(model).take(j as int).push(
                    pair_terms(model)[j as int],
                ));
                if counts@.contains_key(term@) {
                    let k = pair_terms(model).take(j as int).index_of(term@);
                    assert(pair_terms(model)[k] == pair_terms(model)[j as int]);
                }
                assert(model[j as int].1 == count);
            }
            if !counts.insert_count(term, count) {
                return None;
            }
            j = j + 1;
        }
        proof {
            assert(pair_terms(model).take(n as int) =~= pair_terms(model));
            assert(pair_counts(model).take(n as int) =~= pair_counts(model));
            counts.lemma_wf();
            assert forall|k: int| 0 <= k < model.len() implies (#[trigger] model[k]).1 >= 1 by {
                assert(counts.counts()[k] >= 1);
            }
        }
        Some(counts)
    }

    /// Reads an index from a record. The record must be well-formed; any
    /// other is refused, and nothing else is.
    pub fn from_record(record: ForwardRecord) -> (res: Result<ForwardIndex, IndexError>)
        ensures
            match res {
                Ok(index) => record@.well_formed() && index.wf() && index@
                    == record@.index_view(),
                Err(error) => !record@.well_formed() && error is Inconsistent,
            },
    {
        let ghost model = record@;
        let mut documents = record.documents;
        let mut index = ForwardIndex::new();
        let n = documents.len();
        let mut i: usize = 0;
        proof {
            assert(model.names().take(0) =~= index.names());
            assert(model.maps().take(0) =~= maps_of(index.documents()));
        }
        while i < n
            invariant
                i <= n == documents@.len() == model.documents.len(),
                model == record@,
                index.wf(),
                index.names() == model.names().take(i as int),
                maps_of(index.documents()) == model.maps().take(i as int),
                forall|k: int|
                    i <= k < n ==> (#[trigger] documents@[k]).0@ == model.documents[k].0
                        && counts_view(documents@[k].1@) == model.documents[k].1,
                forall|k: int| 0 <= k < i ==> pairs_well_formed((#[trigger] model.documents[k]).1),
            decreases n - i,
        {
            let mut entry: (String, Vec<(String, usize)>) = (String::new(), Vec::new());
            core::mem::swap(&mut documents[i], &mut entry);
            let name = entry.0;
            let pairs = entry.1;
            if index.names.id_of(name.as_str()).is_some() {
                proof {
                    let k = model.names().take(i as int).index_of(name@);
                    assert(model.names()[k] == model.names()[i as int]);
                }
                return Err(IndexError::Inconsistent);
            }
            match ForwardIndex::counts_from_pairs(pairs) {
                Some(counts) => {
                    proof {
                        index.lemma_wf();
                        assert(model.names().take(i + 1) =~= model.names().take(i as int).push(
                            model.names()[i as int],
                        ));
                        assert(model.maps().take(i + 1) =~= model.maps().take(i as int).push(
                            model.maps()[i as int],
                        ));
                    }
                    let ghost before = maps_of(index.documents());
                    index.names.insert(name);
                    index.docs.push(counts);
                    proof {
                        assert(maps_of(index.documents()) =~= before.push(counts@));
                    }
                },
                None => {
                    proof {
                        assert(model.documents[i as int].1 == counts_view(pairs@));
                    }
                    return Err(IndexError::Inconsistent);
                },
            }
            i = i + 1;
        }
        proof {
            assert(model.names().take(n as int) =~= model.names());
            assert(model.maps().take(n as int) =~= model.maps());
            index.lemma_wf();
        }
        Ok(index)
    }

    /// Whether `other` holds every document of this index, with the same
    /// term counts.
    fn included_in(&self, other: &ForwardIndex) -> (included: bool)
        requires
            self.wf(),
            other.wf(),
        ensures
            included == (forall|name: Seq<char>| #[trigger]
                self@.contains_key(name) ==> other@.contains_key(name) && other@[name]
                    == self@[name]),
    {
        let n = self.len();
        let mut i: usize = 0;
        proof {
            self.lemma_wf();
        }
        while i < n
            invariant
                i <= n == self.names().len() == self.docs@.len(),
                self.wf(),
                other.wf(),
                distinct(self.names()),
                forall|k: int|
                    0 <= k < i ==> other@.contains_key(#[trigger] self.names()[k]) && other@[self.names()[k]]
                        == self@[self.names()[k]],
            decreases n - i,
        {
            proof {
                lemma_keyed_at(self.names(), maps_of(self.documents()), i as int);
            }
            let mine = &self.docs[i];
            let ghost name = self.names()[i as int];
            assert(self@.contains_key(name) && self@[name] == mine@);
            match other.get(self.names.term(i)) {
                Some(theirs) => {
                    if !(mine.included_in(theirs) && theirs.included_in(mine)) {
                        assert(other@[name] != self@[name]);
                        return false;
                    }
                    assert(mine@ =~= theirs@);
                },
                None => {
                    assert(!other@.contains_key(name));
                    return false;
                },
            }
            i = i + 1;
        }
        proof {
            assert forall|name: Seq<char>| #[trigger] self@.contains_key(name) implies other@
                .contains_key(name) && other@[name] == self@[name] by {
                let k = self.names().index_of(name);
                assert(self.names()[k] == name);
            }
        }
        true
    }

    /// Whether two indexes hold the same documents with the same term
    /// counts.
    pub fn same_as(&self, other: &ForwardIndex) -> (same: bool)
        requires
            self.wf(),
            other.wf(),
        ensures
            same == (self@ == other@),
    {
        let same = self.included_in(other) && other.included_in(self);
        proof {
            if same {
                assert(self@ =~= other@);
            }
        }
        same
    }

    /// The index as JSON text: an object from document name to an object
    /// from term to count.
    ///
    /// Before the text is handed out it is read back and held against the
    /// index, so that a text that [`ForwardIndex::load`] would not restore
    /// the index from is never handed out.
    pub fn save(&self) -> (res: Result<String, IndexError>)
        requires
            self.wf(),
        ensures
            match forward_json(self.record()) {
                Some(text) => if restores_forward(text, self@) {
                    res matches Ok(written) && written@ == text
                } else {
                    res matches Err(IndexError::Unreadable)
                },
                None => res matches Err(IndexError::Unwritable(_)),
            },
    {
        let record = self.to_record();
        match encode_forward(&record) {
            Ok(text) => {
                let read = match decode_forward(text.as_str()) {
                    Ok(read) => read,
                    Err(_) => {
                        return Err(IndexError::Unreadable);
                    },
                };
                match ForwardIndex::from_record(read) {
                    Ok(back) => {
                        if self.same_as(&back) {
                            Ok(text)
                        } else {
                            Err(IndexError::Unreadable)
                        }
                    },
                    Err(_) => Err(IndexError::Unreadable),
                }
            },
            Err(error) => Err(IndexError::Unwritable(error_text(&error))),
        }
    }

    /// Replaces the index by the one that a JSON text holds. A text that
    /// cannot be decoded, or that holds no well-formed record, is refused
    /// and leaves the index as it was.
    pub fn load(&mut self, text: &str) -> (res: Result<(), IndexError>)
        ensures
            match forward_of_json(text@) {
                Some(record) => if record.well_formed() {
                    res is Ok && final(self).wf() && final(self)@ == record.index_view()
                } else {
                    res matches Err(IndexError::Inconsistent) && *final(self) == *old(self)
                },
                None => res matches Err(IndexError::Malformed(_)) && *final(self) == *old(self),
            },
            forall|index: Map<Seq<char>, Map<Seq<char>, nat>>|
                restores_forward(text@, index) ==> res is Ok && final(self).wf() && final(self)@
                    == index,
    {
        match decode_forward(text) {
            Ok(record) => match ForwardIndex::from_record(record) {
                Ok(index) => {
                    *self = index;
                    Ok(())
                },
                Err(error) => Err(error),
            },
            Err(error) => Err(IndexError::Malformed(error_text(&error))),
        }
    }

    /// The index that [`ForwardIndex::load`] makes of what
    /// [`ForwardIndex::save`] writes: it holds the same documents with the
    /// same term counts. There is none only where the index cannot be
    /// saved.
    pub fn reloaded(&self) -> (res: Result<ForwardIndex, IndexError>)
        requires
            self.wf(),
        ensures
            match res {
                Ok(copy) => copy.wf() && copy@ == self@,
                Err(_) => !(forward_json(self.record()) matches Some(text) && restores_forward(
                    text,
                    self@,
                )),
            },
    {
        let text = match self.save() {
            Ok(text) => text,
            Err(error) => {
                return Err(error);
            },
        };
        let mut copy = ForwardIndex::new();
        match copy.load(text.as_str()) {
            Ok(()) => Ok(copy),
            Err(error) => Err(error),
        }
    }
}

} // verus!
